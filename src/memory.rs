use vstd::prelude::*;

use crate::stats::{
    compute_idf, compute_tf, count_terms, doc_of, empty_doc, idf_of, terms_of, tf_of, Doc,
    DocView, Ratio,
};
use crate::rank::is_ranking;
use crate::table::{
    copy_table, count_in, count_of, sums_to, decrement, keys_are_unique, lemma_same_entries, lemma_same_sum, table_sum, tables_agree, increment, keys_unique, lemma_table_dom, lemma_table_index, table_map,
    CountTable,
};

verus! {

/// One where document `d` holds term `t`, zero where it does not.
pub open spec fn has_term(d: DocView, t: Seq<char>) -> nat {
    if d.tf.contains_key(t) {
        1
    } else {
        0
    }
}

/// Number of documents of `ds` that hold `t`.
pub open spec fn doc_count(ds: Seq<(Seq<char>, DocView)>, t: Seq<char>) -> nat
    decreases ds.len(),
{
    if ds.len() == 0 {
        0
    } else {
        doc_count(ds.drop_last(), t) + has_term(ds.last().1, t)
    }
}

/// No two documents share a path.
pub open spec fn paths_unique(ds: Seq<(Seq<char>, DocView)>) -> bool {
    forall|i: int, j: int|
        0 <= i < ds.len() && 0 <= j < ds.len() && i != j ==> #[trigger] ds[i].0 != #[trigger] ds[j].0
}

/// The corpus after `d` is put under path `p`: it replaces the document of
/// that path in place, or comes last where the path is new.
pub open spec fn put_doc(
    ds: Seq<(Seq<char>, DocView)>,
    p: Seq<char>,
    d: DocView,
    r: Seq<(Seq<char>, DocView)>,
) -> bool {
    ||| exists|i: int| 0 <= i < ds.len() && #[trigger] ds[i].0 == p && r == ds.update(i, (p, d))
    ||| (forall|i: int| 0 <= i < ds.len() ==> #[trigger] ds[i].0 != p) && r == ds.push((p, d))
}

pub proof fn lemma_doc_count_bound(ds: Seq<(Seq<char>, DocView)>, t: Seq<char>)
    ensures
        doc_count(ds, t) <= ds.len(),
    decreases ds.len(),
{
    if ds.len() > 0 {
        lemma_doc_count_bound(ds.drop_last(), t);
    }
}

pub proof fn lemma_doc_count_update(
    ds: Seq<(Seq<char>, DocView)>,
    i: int,
    x: (Seq<char>, DocView),
    t: Seq<char>,
)
    requires
        0 <= i < ds.len(),
    ensures
        doc_count(ds.update(i, x), t) + has_term(ds[i].1, t) == doc_count(ds, t) + has_term(x.1, t),
    decreases ds.len(),
{
    let u = ds.update(i, x);
    if i < ds.len() - 1 {
        assert(u.drop_last() =~= ds.drop_last().update(i, x));
        lemma_doc_count_update(ds.drop_last(), i, x, t);
    } else {
        assert(u.drop_last() =~= ds.drop_last());
    }
}

/// A corpus held in memory: each document's statistics, in the order in
/// which their paths were first added, and the document frequency of each
/// term.
pub struct InMemoryModel {
    docs: Vec<(String, Doc)>,
    df: CountTable,
}

impl InMemoryModel {
    /// The documents, in order of first insertion.
    pub closed spec fn docs_view(&self) -> Seq<(Seq<char>, DocView)> {
        self.docs@.map_values(|e: (String, Doc)| (e.0@, e.1@))
    }

    /// The document-frequency table.
    pub closed spec fn df_view(&self) -> Map<Seq<char>, nat> {
        table_map(self.df@)
    }

    /// Paths are unique, and the document frequency of every term is the
    /// number of documents that hold it.
    pub closed spec fn wf(&self) -> bool {
        &&& paths_unique(self.docs_view())
        &&& forall|i: int| 0 <= i < self.docs@.len() ==> (#[trigger] self.docs@[i]).1.wf()
        &&& keys_unique(self.df@)
        &&& forall|t: Seq<char>| #[trigger] count_in(self.df_view(), t) == doc_count(self.docs_view(), t)
    }

    pub proof fn lemma_wf_df(&self, t: Seq<char>)
        requires
            self.wf(),
        ensures
            count_in(self.df_view(), t) == doc_count(self.docs_view(), t),
    {
    }

    /// An empty corpus.
    pub fn new() -> (m: Self)
        ensures
            m.wf(),
            m.docs_view() == Seq::<(Seq<char>, DocView)>::empty(),
    {
        let m = InMemoryModel { docs: Vec::new(), df: Vec::new() };
        proof {
            assert(m.docs_view() =~= Seq::<(Seq<char>, DocView)>::empty());
        }
        m
    }

    /// The document frequency of `t`: the number of documents that hold it.
    pub fn doc_freq(&self, t: &String) -> (r: usize)
        requires
            self.wf(),
        ensures
            r as nat == doc_count(self.docs_view(), t@),
    {
        proof {
            self.lemma_wf_df(t@);
        }
        count_of(&self.df, t)
    }

    /// Number of documents.
    pub fn len(&self) -> (n: usize)
        ensures
            n == self.docs_view().len(),
    {
        self.docs.len()
    }

    fn find_doc(&self, p: &String) -> (r: Option<usize>)
        ensures
            match r {
                Some(i) => i < self.docs_view().len() && self.docs_view()[i as int].0 == p@,
                None => forall|i: int| 0 <= i < self.docs_view().len() ==> #[trigger] self.docs_view()[i].0 != p@,
            },
    {
        let mut i: usize = 0;
        while i < self.docs.len()
            invariant
                i <= self.docs@.len(),
                forall|j: int| 0 <= j < i ==> #[trigger] self.docs_view()[j].0 != p@,
            decreases self.docs@.len() - i,
        {
            if self.docs[i].0 == *p {
                return Some(i);
            }
            i += 1;
        }
        None
    }

    /// Takes each term of the document at `i` off the document frequencies.
    fn retract(&mut self, i: usize)
        requires
            old(self).wf(),
            i < old(self).docs@.len(),
        ensures
            final(self).docs == old(self).docs,
            keys_unique(final(self).df@),
            forall|t: Seq<char>| #[trigger] count_in(final(self).df_view(), t)
                == doc_count(old(self).docs_view().update(i as int, (old(self).docs_view()[i as int].0, empty_doc())), t),
    {
        let ghost ds = self.docs_view();
        let ghost removed = ds.update(i as int, (ds[i as int].0, empty_doc()));
        let ghost old_tf = self.docs@[i as int].1.tf@;
        proof {
            assert(ds[i as int].1.tf == table_map(old_tf));
        }
        let n = self.docs[i].1.tf.len();
        let mut j: usize = 0;
        while j < n
            invariant
                self.docs == old(self).docs,
                ds == self.docs_view(),
                removed == ds.update(i as int, (ds[i as int].0, empty_doc())),
                i < self.docs@.len(),
                old_tf == self.docs@[i as int].1.tf@,
                ds[i as int].1.tf == table_map(old_tf),
                keys_unique(old_tf),
                n == old_tf.len(),
                j <= n,
                keys_unique(self.df@),
                forall|t: Seq<char>| #[trigger] count_in(self.df_view(), t)
                    + (if table_map(old_tf.take(j as int)).contains_key(t) { 1nat } else { 0nat })
                    == doc_count(ds, t),
            decreases n - j,
        {
            let t = self.docs[i].1.tf[j].0.clone();
            let ghost before = self.df_view();
            proof {
                assert(old_tf.take(j as int + 1).drop_last() =~= old_tf.take(j as int));
                lemma_table_dom(old_tf.take(j as int), t@);
                if table_map(old_tf.take(j as int)).contains_key(t@) {
                    let k = choose|k: int| 0 <= k < old_tf.take(j as int).len() && #[trigger] old_tf.take(j as int)[k].0@ == t@;
                    assert(old_tf[k].0@ == old_tf[j as int].0@);
                }
                lemma_table_index(old_tf, j as int);
                lemma_doc_count_update(ds, i as int, (ds[i as int].0, empty_doc()), t@);
                assert(count_in(before, t@) == doc_count(ds, t@));
            }
            decrement(&mut self.df, &t);
            proof {
                assert forall|u: Seq<char>| #[trigger] count_in(self.df_view(), u)
                    + (if table_map(old_tf.take(j as int + 1)).contains_key(u) { 1nat } else { 0nat })
                    == doc_count(ds, u) by {
                    assert(count_in(before, u)
                        + (if table_map(old_tf.take(j as int)).contains_key(u) { 1nat } else { 0nat })
                        == doc_count(ds, u));
                }
            }
            j += 1;
        }
        proof {
            assert(old_tf.take(n as int) =~= old_tf);
            assert forall|t: Seq<char>| #[trigger] count_in(self.df_view(), t) == doc_count(removed, t) by {
                lemma_doc_count_update(ds, i as int, (ds[i as int].0, empty_doc()), t);
            }
        }
    }

    /// Adds each term of `d` to the document frequencies.
    fn count_in_df(&mut self, d: &Doc, Ghost(base): Ghost<Seq<(Seq<char>, DocView)>>)
        requires
            keys_unique(old(self).df@),
            d.wf(),
            base.len() < usize::MAX,
            forall|t: Seq<char>| #[trigger] count_in(old(self).df_view(), t) == doc_count(base, t),
        ensures
            final(self).docs == old(self).docs,
            keys_unique(final(self).df@),
            forall|t: Seq<char>| #[trigger] count_in(final(self).df_view(), t)
                == doc_count(base, t) + has_term(d@, t),
    {
        let n = d.tf.len();
        let mut j: usize = 0;
        while j < n
            invariant
                self.docs == old(self).docs,
                n == d.tf@.len(),
                j <= n,
                d.wf(),
                base.len() < usize::MAX,
                keys_unique(self.df@),
                forall|t: Seq<char>| #[trigger] count_in(self.df_view(), t)
                    == doc_count(base, t) + (if table_map(d.tf@.take(j as int)).contains_key(t) { 1nat } else { 0nat }),
            decreases n - j,
        {
            let t = &d.tf[j].0;
            let ghost before = self.df_view();
            proof {
                assert(d.tf@.take(j as int + 1).drop_last() =~= d.tf@.take(j as int));
                lemma_table_dom(d.tf@.take(j as int), t@);
                if table_map(d.tf@.take(j as int)).contains_key(t@) {
                    let k = choose|k: int| 0 <= k < d.tf@.take(j as int).len() && #[trigger] d.tf@.take(j as int)[k].0@ == t@;
                    assert(d.tf@[k].0@ == d.tf@[j as int].0@);
                }
                lemma_doc_count_bound(base, t@);
                assert(count_in(before, t@) == doc_count(base, t@));
            }
            increment(&mut self.df, t);
            proof {
                assert forall|u: Seq<char>| #[trigger] count_in(self.df_view(), u)
                    == doc_count(base, u) + (if table_map(d.tf@.take(j as int + 1)).contains_key(u) { 1nat } else { 0nat }) by {
                    assert(count_in(before, u)
                        == doc_count(base, u) + (if table_map(d.tf@.take(j as int)).contains_key(u) { 1nat } else { 0nat }));
                }
            }
            j += 1;
        }
        proof {
            assert(d.tf@.take(n as int) =~= d.tf@);
        }
    }

    /// Indexes the tokens of one document under `file_path`. A path that is
    /// already indexed has its previous terms taken off the document
    /// frequencies before the new ones are counted, so the frequencies stay
    /// exact; the document keeps its place in the order.
    pub fn add_document(&mut self, file_path: String, tokens: &Vec<String>)
        requires
            old(self).wf(),
            old(self).docs_view().len() < usize::MAX,
        ensures
            final(self).wf(),
            put_doc(old(self).docs_view(), file_path@, doc_of(terms_of(tokens@)), final(self).docs_view()),
    {
        let d = count_terms(tokens);
        let ghost ds = self.docs_view();
        match self.find_doc(&file_path) {
            Some(i) => {
                let ghost removed = ds.update(i as int, (ds[i as int].0, empty_doc()));
                self.retract(i);
                self.count_in_df(&d, Ghost(removed));
                let ghost dfv = self.df_view();
                assert(forall|t: Seq<char>| #[trigger] count_in(dfv, t) == doc_count(removed, t) + has_term(d@, t));
                self.docs.set(i, (file_path, d));
                proof {
                    assert(self.docs_view() =~= removed.update(i as int, (ds[i as int].0, d@)));
                    assert(self.docs_view() =~= ds.update(i as int, (ds[i as int].0, d@)));
                    assert forall|t: Seq<char>| #[trigger] count_in(self.df_view(), t) == doc_count(self.docs_view(), t) by {
                        lemma_doc_count_update(removed, i as int, (ds[i as int].0, d@), t);
                        assert(has_term(removed[i as int].1, t) == 0);
                        assert(count_in(dfv, t) == doc_count(removed, t) + has_term(d@, t));
                    }
                    assert forall|a: int, b: int|
                        0 <= a < self.docs_view().len() && 0 <= b < self.docs_view().len() && a != b
                        implies #[trigger] self.docs_view()[a].0 != #[trigger] self.docs_view()[b].0 by {
                        assert(self.docs_view()[a].0 == ds[a].0 && self.docs_view()[b].0 == ds[b].0);
                    }
                    assert(ds[i as int].0 == file_path@);
                    assert(paths_unique(self.docs_view()));
                    assert forall|k: int| 0 <= k < self.docs@.len() implies (#[trigger] self.docs@[k]).1.wf() by {
                        if k != i {
                            assert(self.docs@[k] == old(self).docs@[k]);
                        }
                    }
                }
            },
            None => {
                self.count_in_df(&d, Ghost(ds));
                let ghost dfv = self.df_view();
                assert(forall|t: Seq<char>| #[trigger] count_in(dfv, t) == doc_count(ds, t) + has_term(d@, t));
                self.docs.push((file_path, d));
                proof {
                    assert forall|k: int| 0 <= k < self.docs@.len() implies (#[trigger] self.docs@[k]).1.wf() by {
                        if k < ds.len() {
                            assert(self.docs@[k] == old(self).docs@[k]);
                        }
                    }
                    assert(self.docs_view() =~= ds.push((file_path@, d@)));
                    assert(self.docs_view().drop_last() =~= ds);
                    assert forall|a: int, b: int|
                        0 <= a < self.docs_view().len() && 0 <= b < self.docs_view().len() && a != b
                        implies #[trigger] self.docs_view()[a].0 != #[trigger] self.docs_view()[b].0 by {
                        if a < ds.len() {
                            assert(self.docs_view()[a] == ds[a]);
                            assert(ds[a].0 != file_path@);
                        }
                        if b < ds.len() {
                            assert(self.docs_view()[b] == ds[b]);
                            assert(ds[b].0 != file_path@);
                        }
                    }
                    assert forall|t: Seq<char>| #[trigger] count_in(self.df_view(), t) == doc_count(self.docs_view(), t) by {
                        assert(count_in(dfv, t) == doc_count(ds, t) + has_term(d@, t));
                    }
                }
            },
        }
    }
    /// The exact statistics that rank every document against `query`.
    pub fn query_stats(&self, query: &Vec<String>) -> (r: QueryStats)
        requires
            self.wf(),
        ensures
            r@ == query_stats_of(self.docs_view(), terms_of(query@)),
    {
        let ghost q = terms_of(query@);
        let ghost ds = self.docs_view();
        let n = self.docs.len();
        let mut idf: Vec<Ratio> = Vec::new();
        let mut k: usize = 0;
        while k < query.len()
            invariant
                self.wf(),
                ds == self.docs_view(),
                n == ds.len(),
                q == terms_of(query@),
                k <= query@.len(),
                idf@.len() == k,
                forall|x: int| 0 <= x < k ==> (#[trigger] idf@[x])@ == idf_of(n as nat, doc_count(ds, q[x])),
            decreases query@.len() - k,
        {
            let r = compute_idf(&query[k], n, &self.df);
            proof {
                self.lemma_wf_df(query@[k as int]@);
            }
            idf.push(r);
            k += 1;
        }
        let mut docs: Vec<DocTerms> = Vec::new();
        let mut i: usize = 0;
        while i < n
            invariant
                self.wf(),
                ds == self.docs_view(),
                n == ds.len(),
                q == terms_of(query@),
                i <= n,
                docs@.len() == i,
                forall|x: int| 0 <= x < i ==> (#[trigger] docs@[x])@ == doc_terms_of(ds[x], q),
            decreases n - i,
        {
            let doc = &self.docs[i].1;
            let mut tf: Vec<Ratio> = Vec::new();
            let mut k: usize = 0;
            while k < query.len()
                invariant
                    self.wf(),
                    i < n,
                    n == self.docs@.len(),
                    doc == &self.docs@[i as int].1,
                    k <= query@.len(),
                    tf@.len() == k,
                    forall|x: int| 0 <= x < k ==> (#[trigger] tf@[x])@ == tf_of(doc@, query@[x]@),
                decreases query@.len() - k,
            {
                tf.push(compute_tf(&query[k], doc));
                k += 1;
            }
            docs.push(DocTerms { path: self.docs[i].0.clone(), tf });
            proof {
                assert(docs@[i as int]@.1 =~= ratios_of(tf@));
                assert(ratios_of(tf@) =~= q.map_values(|t: Seq<char>| tf_of(ds[i as int].1, t)));
            }
            i += 1;
        }
        let r = QueryStats { idf, docs };
        proof {
            assert(ratios_of(r.idf@) =~= q.map_values(|t: Seq<char>| idf_of(ds.len(), doc_count(ds, t))));
            assert(r.docs@.map_values(|d: DocTerms| d@) =~= ds.map_values(
                |e: (Seq<char>, DocView)| doc_terms_of(e, q)));
        }
        r
    }
}

/// A document's path and, for each query term, its term frequency.
#[derive(Clone, Debug, PartialEq, Eq)]
pub struct DocTerms {
    pub path: String,
    pub tf: Vec<Ratio>,
}

/// The exact statistics of a query: for each query term the argument of the
/// logarithm in its inverse document frequency, and the terms of each
/// document in corpus order. A document's score is the sum over the query
/// terms of `tf * log10(idf)`.
#[derive(Clone, Debug, PartialEq, Eq)]
pub struct QueryStats {
    pub idf: Vec<Ratio>,
    pub docs: Vec<DocTerms>,
}

pub open spec fn ratios_of(v: Seq<Ratio>) -> Seq<(nat, nat)> {
    v.map_values(|x: Ratio| x@)
}

impl View for DocTerms {
    type V = (Seq<char>, Seq<(nat, nat)>);

    open spec fn view(&self) -> (Seq<char>, Seq<(nat, nat)>) {
        (self.path@, ratios_of(self.tf@))
    }
}

impl View for QueryStats {
    type V = (Seq<(nat, nat)>, Seq<(Seq<char>, Seq<(nat, nat)>)>);

    open spec fn view(&self) -> (Seq<(nat, nat)>, Seq<(Seq<char>, Seq<(nat, nat)>)>) {
        (ratios_of(self.idf@), self.docs@.map_values(|d: DocTerms| d@))
    }
}

/// The terms of one document of a corpus, for query `q`.
pub open spec fn doc_terms_of(e: (Seq<char>, DocView), q: Seq<Seq<char>>) -> (Seq<char>, Seq<(nat, nat)>) {
    (e.0, q.map_values(|t: Seq<char>| tf_of(e.1, t)))
}

/// The statistics of query `q` over corpus `ds`.
pub open spec fn query_stats_of(ds: Seq<(Seq<char>, DocView)>, q: Seq<Seq<char>>) -> (
    Seq<(nat, nat)>,
    Seq<(Seq<char>, Seq<(nat, nat)>)>,
) {
    (
        q.map_values(|t: Seq<char>| idf_of(ds.len(), doc_count(ds, t))),
        ds.map_values(|e: (Seq<char>, DocView)| doc_terms_of(e, q)),
    )
}

/// A term that every document of a non-empty corpus holds has a document
/// frequency equal to the number of documents, so the argument of its
/// logarithm is one and it adds nothing to any score.
pub proof fn lemma_common_term_idf(m: &InMemoryModel, t: Seq<char>)
    requires
        m.wf(),
        m.docs_view().len() > 0,
        forall|i: int| 0 <= i < m.docs_view().len() ==> (#[trigger] m.docs_view()[i]).1.tf.contains_key(t),
    ensures
        count_in(m.df_view(), t) == m.docs_view().len(),
        idf_of(m.docs_view().len(), count_in(m.df_view(), t)) == (m.docs_view().len(), m.docs_view().len()),
{
    m.lemma_wf_df(t);
    lemma_doc_count_all(m.docs_view(), t);
}

proof fn lemma_doc_count_all(ds: Seq<(Seq<char>, DocView)>, t: Seq<char>)
    requires
        forall|i: int| 0 <= i < ds.len() ==> (#[trigger] ds[i]).1.tf.contains_key(t),
    ensures
        doc_count(ds, t) == ds.len(),
    decreases ds.len(),
{
    if ds.len() > 0 {
        let p = ds.drop_last();
        assert forall|i: int| 0 <= i < p.len() implies (#[trigger] p[i]).1.tf.contains_key(t) by {
            assert(p[i] == ds[i]);
        }
        lemma_doc_count_all(p, t);
        assert(ds.last() == ds[ds.len() - 1]);
    }
}

/// A term without an entry in the document frequencies counts as found in
/// one document: the argument of its logarithm is the number of documents.
pub proof fn lemma_unseen_term_idf(m: &InMemoryModel, t: Seq<char>)
    requires
        m.wf(),
        !m.df_view().contains_key(t),
    ensures
        doc_count(m.docs_view(), t) == 0,
        idf_of(m.docs_view().len(), doc_count(m.docs_view(), t)) == (m.docs_view().len(), 1nat),
{
    m.lemma_wf_df(t);
}

/// Over an empty corpus every query has statistics for no document, and
/// their ranking is empty.
pub proof fn lemma_empty_corpus(m: &InMemoryModel, q: Seq<Seq<char>>, r: Seq<usize>)
    requires
        m.docs_view().len() == 0,
        is_ranking(Seq::<u64>::empty(), r),
    ensures
        query_stats_of(m.docs_view(), q).1.len() == 0,
        r.len() == 0,
{
}

impl Default for InMemoryModel {
    fn default() -> (m: Self)
        ensures
            m.wf(),
            m.docs_view().len() == 0,
    {
        InMemoryModel::new()
    }
}

/// A whole-corpus snapshot: the documents in order, and the
/// document-frequency table.
#[derive(Clone, Debug)]
pub struct Snapshot {
    pub docs: Vec<(String, Doc)>,
    pub df: CountTable,
}

/// The documents a snapshot holds.
pub open spec fn snapshot_docs(s: Seq<(String, Doc)>) -> Seq<(Seq<char>, DocView)> {
    s.map_values(|e: (String, Doc)| (e.0@, e.1@))
}

/// A snapshot describes a consistent corpus: paths unique, each table's terms
/// unique, and each document frequency the number of documents that hold
/// the term.
pub open spec fn snapshot_valid(s: &Snapshot) -> bool {
    &&& paths_unique(snapshot_docs(s.docs@))
    &&& forall|i: int| 0 <= i < s.docs@.len() ==> (#[trigger] s.docs@[i]).1.wf()
    &&& keys_unique(s.df@)
    &&& forall|t: Seq<char>| #[trigger] count_in(table_map(s.df@), t) == doc_count(snapshot_docs(s.docs@), t)
}

/// Whether no two documents share a path.
fn paths_are_unique(docs: &Vec<(String, Doc)>) -> (r: bool)
    ensures
        r == paths_unique(snapshot_docs(docs@)),
{
    let ghost ds = snapshot_docs(docs@);
    let mut i: usize = 0;
    while i < docs.len()
        invariant
            ds == snapshot_docs(docs@),
            i <= ds.len(),
            forall|a: int, b: int|
                0 <= a < i && 0 <= b < ds.len() && a != b ==> #[trigger] ds[a].0 != #[trigger] ds[b].0,
        decreases ds.len() - i,
    {
        let mut j: usize = 0;
        while j < docs.len()
            invariant
                ds == snapshot_docs(docs@),
                i < ds.len(),
                j <= ds.len(),
                forall|a: int, b: int|
                    0 <= a < i && 0 <= b < ds.len() && a != b ==> #[trigger] ds[a].0 != #[trigger] ds[b].0,
                forall|b: int| 0 <= b < j && b != i ==> ds[i as int].0 != #[trigger] ds[b].0,
            decreases ds.len() - j,
        {
            if j != i && docs[i].0 == docs[j].0 {
                proof {
                    assert(ds[i as int].0 == docs@[i as int].0@ && ds[j as int].0 == docs@[j as int].0@);
                }
                return false;
            }
            j += 1;
        }
        i += 1;
    }
    true
}

impl InMemoryModel {
    /// A snapshot of the whole corpus.
    pub fn export(&self) -> (s: Snapshot)
        requires
            self.wf(),
        ensures
            snapshot_valid(&s),
            snapshot_docs(s.docs@) == self.docs_view(),
            table_map(s.df@) == self.df_view(),
    {
        let mut docs: Vec<(String, Doc)> = Vec::new();
        let mut i: usize = 0;
        while i < self.docs.len()
            invariant
                self.wf(),
                i <= self.docs@.len(),
                docs@.len() == i,
                forall|j: int| 0 <= j < i ==> (#[trigger] docs@[j]).1.wf(),
                forall|j: int| 0 <= j < i ==> #[trigger] snapshot_docs(docs@)[j] == self.docs_view()[j],
            decreases self.docs@.len() - i,
        {
            let d = &self.docs[i].1;
            let ghost prev = docs@;
            let tf = copy_table(&d.tf);
            proof {
                lemma_same_entries(d.tf@, tf@);
            }
            assert(table_sum(tf@) == d.count) by {
                lemma_same_sum(d.tf@, tf@);
            }
            docs.push((self.docs[i].0.clone(), Doc { tf, count: d.count }));
            proof {
                assert(docs@[i as int].1@ == d@);
                assert(snapshot_docs(docs@)[i as int] == self.docs_view()[i as int]);
                assert forall|j: int| 0 <= j < i + 1 implies #[trigger] snapshot_docs(docs@)[j] == self.docs_view()[j] by {
                    if j < i {
                        assert(docs@[j] == prev[j]);
                        assert(snapshot_docs(prev)[j] == self.docs_view()[j]);
                    }
                }
            }
            i += 1;
        }
        let df = copy_table(&self.df);
        proof {
            lemma_same_entries(self.df@, df@);
            assert(snapshot_docs(docs@) =~= self.docs_view());
            assert(paths_unique(snapshot_docs(docs@)));
            assert(keys_unique(df@));
            assert forall|t: Seq<char>| #[trigger] count_in(table_map(df@), t) == doc_count(snapshot_docs(docs@), t) by {
                self.lemma_wf_df(t);
            }
        }
        Snapshot { docs, df }
    }

    /// The corpus a snapshot describes, where the snapshot is consistent.
    pub fn restore(s: Snapshot) -> (r: Option<InMemoryModel>)
        ensures
            r.is_some() == snapshot_valid(&s),
            r matches Some(m) ==> m.wf() && m.docs_view() == snapshot_docs(s.docs@) && m.df_view()
                == table_map(s.df@),
    {
        let ghost ds = snapshot_docs(s.docs@);
        let mut i: usize = 0;
        while i < s.docs.len()
            invariant
                i <= s.docs@.len(),
                forall|j: int| 0 <= j < i ==> (#[trigger] s.docs@[j]).1.wf(),
            decreases s.docs@.len() - i,
        {
            if !keys_are_unique(&s.docs[i].1.tf) || !sums_to(&s.docs[i].1.tf, s.docs[i].1.count) {
                return None;
            }
            i += 1;
        }
        if !keys_are_unique(&s.df) || !paths_are_unique(&s.docs) {
            return None;
        }
        let mut acc = InMemoryModel { docs: Vec::new(), df: Vec::new() };
        let mut i: usize = 0;
        while i < s.docs.len()
            invariant
                ds == snapshot_docs(s.docs@),
                i <= s.docs@.len(),
                forall|j: int| 0 <= j < s.docs@.len() ==> (#[trigger] s.docs@[j]).1.wf(),
                keys_unique(acc.df@),
                forall|t: Seq<char>| #[trigger] count_in(acc.df_view(), t) == doc_count(ds.take(i as int), t),
            decreases s.docs@.len() - i,
        {
            proof {
                assert(ds.take(i as int + 1).drop_last() =~= ds.take(i as int));
            }
            acc.count_in_df(&s.docs[i].1, Ghost(ds.take(i as int)));
            proof {
                assert forall|t: Seq<char>| #[trigger] count_in(acc.df_view(), t) == doc_count(ds.take(i as int + 1), t) by {
                    assert(ds.take(i as int + 1).last() == ds[i as int]);
                }
            }
            i += 1;
        }
        proof {
            assert(ds.take(i as int) =~= ds);
        }
        if !tables_agree(&acc.df, &s.df) {
            proof {
                let t = choose|t: Seq<char>| #[trigger] count_in(table_map(acc.df@), t) != count_in(table_map(s.df@), t);
                assert(count_in(acc.df_view(), t) == doc_count(ds, t));
            }
            return None;
        }
        proof {
            assert forall|t: Seq<char>| #[trigger] count_in(table_map(s.df@), t) == doc_count(ds, t) by {
                assert(count_in(acc.df_view(), t) == doc_count(ds, t));
                assert(count_in(table_map(acc.df@), t) == count_in(table_map(s.df@), t));
            }
        }
        let m = InMemoryModel { docs: s.docs, df: s.df };
        proof {
            assert(m.docs_view() =~= ds);
        }
        Some(m)
    }
}

/// Exporting a corpus and restoring the snapshot gives back the same
/// documents and document frequencies, and so the same statistics for every
/// query.
pub proof fn lemma_round_trip(m: &InMemoryModel, s: &Snapshot, q: Seq<Seq<char>>)
    requires
        m.wf(),
        snapshot_valid(s),
        snapshot_docs(s.docs@) == m.docs_view(),
        table_map(s.df@) == m.df_view(),
    ensures
        forall|r: InMemoryModel|
            r.docs_view() == snapshot_docs(s.docs@) ==> #[trigger] query_stats_of(r.docs_view(), q)
                == query_stats_of(m.docs_view(), q),
{
}

} // verus!
