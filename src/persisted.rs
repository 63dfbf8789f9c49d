use vstd::prelude::*;

use crate::memory::{doc_count, query_stats_of, ratios_of, DocTerms, QueryStats};
use crate::stats::{count_terms, doc_of, idf_of, terms_of, DocView, Ratio};
use crate::table::{count_in, keys_unique, table_map, CountTable};

verus! {

/// What one document puts in the store: a row of `documents` with its path
/// and token count, and one row of `term_freq` for each distinct term.
pub struct DocumentRows {
    pub path: String,
    pub term_count: usize,
    pub term_freq: CountTable,
}

/// The rows of the document `file_path` holding `tokens`.
pub fn document_rows(file_path: String, tokens: &Vec<String>) -> (r: DocumentRows)
    ensures
        r.path@ == file_path@,
        r.term_count == tokens@.len(),
        keys_unique(r.term_freq@),
        table_map(r.term_freq@) == doc_of(terms_of(tokens@)).tf,
{
    let d = count_terms(tokens);
    DocumentRows { path: file_path, term_count: d.count, term_freq: d.tf }
}

/// A stored document as the search reads it back: its id, path and token
/// count.
pub struct StoredDoc {
    pub id: i64,
    pub path: String,
    pub term_count: usize,
}

/// The `freq` of the last of `rows` (pairs of document id and frequency)
/// whose id is `id`, zero where none is.
pub open spec fn rows_freq(rows: Seq<(i64, usize)>, id: i64) -> nat
    decreases rows.len(),
{
    if rows.len() == 0 {
        0
    } else if rows.last().0 == id {
        rows.last().1 as nat
    } else {
        rows_freq(rows.drop_last(), id)
    }
}

/// The term frequency of a stored document with `term_count` tokens, `freq`
/// of them the term.
pub open spec fn stored_tf(term_count: nat, freq: nat) -> (nat, nat) {
    if term_count == 0 {
        (0, 1)
    } else {
        (freq, term_count)
    }
}

/// The statistics of a query read back from the store, where `docs` are all
/// stored documents, `matches[k]` the `(doc_id, freq)` rows of `term_freq`
/// for the `k`-th query term, and `dfs[k]` its `doc_freq`, zero where it has
/// none.
pub open spec fn stored_stats_of(
    docs: Seq<StoredDoc>,
    matches: Seq<Vec<(i64, usize)>>,
    dfs: Seq<usize>,
) -> (Seq<(nat, nat)>, Seq<(Seq<char>, Seq<(nat, nat)>)>) {
    (
        dfs.map_values(|df: usize| idf_of(docs.len(), df as nat)),
        docs.map_values(
            |d: StoredDoc|
                (
                    d.path@,
                    matches.map_values(
                        |m: Vec<(i64, usize)>| stored_tf(d.term_count as nat, rows_freq(m@, d.id)),
                    ),
                ),
        ),
    )
}

fn freq_of(rows: &Vec<(i64, usize)>, id: i64) -> (r: usize)
    ensures
        r as nat == rows_freq(rows@, id),
{
    let mut f: usize = 0;
    let mut j: usize = 0;
    while j < rows.len()
        invariant
            j <= rows@.len(),
            f as nat == rows_freq(rows@.take(j as int), id),
        decreases rows@.len() - j,
    {
        proof {
            assert(rows@.take(j as int + 1).drop_last() =~= rows@.take(j as int));
        }
        if rows[j].0 == id {
            f = rows[j].1;
        }
        j += 1;
    }
    proof {
        assert(rows@.take(j as int) =~= rows@);
    }
    f
}

/// Rebuilds the statistics of a query from the rows the store gave back for
/// it, in the same form that an in-memory corpus gives them.
pub fn stored_stats(docs: &Vec<StoredDoc>, matches: &Vec<Vec<(i64, usize)>>, dfs: &Vec<usize>) -> (r: QueryStats)
    requires
        matches@.len() == dfs@.len(),
    ensures
        r@ == stored_stats_of(docs@, matches@, dfs@),
{
    let n = docs.len();
    let mut idf: Vec<Ratio> = Vec::new();
    let mut k: usize = 0;
    while k < dfs.len()
        invariant
            n == docs@.len(),
            k <= dfs@.len(),
            idf@.len() == k,
            forall|x: int| 0 <= x < k ==> (#[trigger] idf@[x])@ == idf_of(n as nat, dfs@[x] as nat),
        decreases dfs@.len() - k,
    {
        let df = dfs[k];
        idf.push(Ratio { num: n, den: if df == 0 { 1 } else { df } });
        k += 1;
    }
    let mut out: Vec<DocTerms> = Vec::new();
    let mut i: usize = 0;
    while i < n
        invariant
            n == docs@.len(),
            i <= n,
            out@.len() == i,
            forall|x: int| 0 <= x < i ==> (#[trigger] out@[x])@ == stored_stats_of(docs@, matches@, dfs@).1[x],
        decreases n - i,
    {
        let d = &docs[i];
        let mut tf: Vec<Ratio> = Vec::new();
        let mut k: usize = 0;
        while k < matches.len()
            invariant
                k <= matches@.len(),
                tf@.len() == k,
                forall|x: int| 0 <= x < k ==> (#[trigger] tf@[x])@ == stored_tf(d.term_count as nat, rows_freq(matches@[x]@, d.id)),
            decreases matches@.len() - k,
        {
            let f = freq_of(&matches[k], d.id);
            tf.push(if d.term_count == 0 { Ratio { num: 0, den: 1 } } else { Ratio { num: f, den: d.term_count } });
            k += 1;
        }
        out.push(DocTerms { path: d.path.clone(), tf });
        proof {
            assert(ratios_of(tf@) =~= matches@.map_values(
                |m: Vec<(i64, usize)>| stored_tf(d.term_count as nat, rows_freq(m@, d.id))));
        }
        i += 1;
    }
    let r = QueryStats { idf, docs: out };
    proof {
        assert(ratios_of(r.idf@) =~= stored_stats_of(docs@, matches@, dfs@).0);
        assert(r.docs@.map_values(|d: DocTerms| d@) =~= stored_stats_of(docs@, matches@, dfs@).1);
    }
    r
}

/// The rows read back for query `q` are those of a store that holds corpus
/// `ds`: one stored document per document of `ds`, in the same order and
/// with distinct ids; for each query term, a `term_freq` row for every
/// document that holds the term and for no other, with its count there; and
/// for each query term a `doc_freq` equal to the number of documents that
/// hold it.
pub open spec fn rows_of_corpus(
    ds: Seq<(Seq<char>, DocView)>,
    q: Seq<Seq<char>>,
    docs: Seq<StoredDoc>,
    matches: Seq<Vec<(i64, usize)>>,
    dfs: Seq<usize>,
) -> bool {
    &&& docs.len() == ds.len()
    &&& matches.len() == q.len()
    &&& dfs.len() == q.len()
    &&& forall|i: int|
        0 <= i < ds.len() ==> (#[trigger] docs[i]).path@ == ds[i].0 && docs[i].term_count == ds[i].1.term_count
    &&& forall|i: int, j: int| 0 <= i < ds.len() && 0 <= j < ds.len() && i != j ==> #[trigger] docs[i].id != #[trigger] docs[j].id
    &&& forall|k: int, x: int|
        0 <= k < q.len() && 0 <= x < matches[k]@.len() ==> exists|i: int|
            0 <= i < ds.len() && (#[trigger] matches[k]@[x]).0 == #[trigger] docs[i].id && ds[i].1.tf.contains_key(q[k])
                && matches[k]@[x].1 == ds[i].1.tf[q[k]]
    &&& forall|k: int, i: int|
        0 <= k < q.len() && 0 <= i < ds.len() && (#[trigger] ds[i].1.tf.contains_key(#[trigger] q[k])) ==> exists|x: int|
            0 <= x < matches[k]@.len() && (#[trigger] matches[k]@[x]).0 == docs[i].id
    &&& forall|k: int| 0 <= k < q.len() ==> #[trigger] dfs[k] == doc_count(ds, q[k])
}

proof fn lemma_rows_freq(m: Seq<(i64, usize)>, id: i64, v: nat, present: bool)
    requires
        forall|x: int| 0 <= x < m.len() && (#[trigger] m[x]).0 == id ==> m[x].1 == v,
        present == exists|x: int| 0 <= x < m.len() && (#[trigger] m[x]).0 == id,
    ensures
        rows_freq(m, id) == if present { v } else { 0 },
    decreases m.len(),
{
    if m.len() > 0 {
        let p = m.drop_last();
        assert(m.last() == m[m.len() - 1]);
        if m.last().0 != id {
            let pp = exists|x: int| 0 <= x < p.len() && (#[trigger] p[x]).0 == id;
            assert forall|x: int| 0 <= x < p.len() && (#[trigger] p[x]).0 == id implies p[x].1 == v by {
                assert(p[x] == m[x]);
            }
            if present {
                let x = choose|x: int| 0 <= x < m.len() && (#[trigger] m[x]).0 == id;
                assert(p[x] == m[x]);
            }
            if pp {
                let x = choose|x: int| 0 <= x < p.len() && (#[trigger] p[x]).0 == id;
                assert(p[x] == m[x]);
            }
            lemma_rows_freq(p, id, v, pp);
        }
    }
}

/// Both backends rank alike: the statistics that the store's rows give for a
/// query are those that the in-memory corpus holding the same documents
/// gives.
pub proof fn lemma_backend_parity(
    ds: Seq<(Seq<char>, DocView)>,
    q: Seq<Seq<char>>,
    docs: Seq<StoredDoc>,
    matches: Seq<Vec<(i64, usize)>>,
    dfs: Seq<usize>,
)
    requires
        rows_of_corpus(ds, q, docs, matches, dfs),
    ensures
        stored_stats_of(docs, matches, dfs) == query_stats_of(ds, q),
{
    let s = stored_stats_of(docs, matches, dfs);
    let t = query_stats_of(ds, q);
    assert(s.0 =~= t.0);
    assert forall|i: int| 0 <= i < ds.len() implies #[trigger] s.1[i] == t.1[i] by {
        assert forall|k: int| 0 <= k < q.len() implies #[trigger] s.1[i].1[k] == t.1[i].1[k] by {
            let m = matches[k]@;
            let present = exists|x: int| 0 <= x < m.len() && (#[trigger] m[x]).0 == docs[i].id;
            assert forall|x: int| 0 <= x < m.len() && (#[trigger] m[x]).0 == docs[i].id implies m[x].1
                == count_in(ds[i].1.tf, q[k]) by {
                let j = choose|j: int|
                    0 <= j < ds.len() && (#[trigger] matches[k]@[x]).0 == #[trigger] docs[j].id
                        && ds[j].1.tf.contains_key(q[k]) && matches[k]@[x].1 == ds[j].1.tf[q[k]];
                assert(docs[j].id == docs[i].id);
            }
            if present {
                let x = choose|x: int| 0 <= x < m.len() && (#[trigger] m[x]).0 == docs[i].id;
                let j = choose|j: int|
                    0 <= j < ds.len() && (#[trigger] matches[k]@[x]).0 == #[trigger] docs[j].id
                        && ds[j].1.tf.contains_key(q[k]) && matches[k]@[x].1 == ds[j].1.tf[q[k]];
                assert(docs[j].id == docs[i].id);
                assert(ds[i].1.tf.contains_key(q[k]));
            }
            if ds[i].1.tf.contains_key(q[k]) {
                assert(present);
            }
            lemma_rows_freq(m, docs[i].id, count_in(ds[i].1.tf, q[k]), present);
            assert(docs[i].path@ == ds[i].0);
        }
        assert(s.1[i].1 =~= t.1[i].1);
    }
    assert(s.1 =~= t.1);
}

} // verus!
