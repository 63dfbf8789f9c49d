use vstd::prelude::*;

use crate::table::{count_in, count_of, increment, keys_unique, table_map, table_sum, CountTable};

verus! {

/// The terms a list of tokens stands for.
pub open spec fn terms_of(v: Seq<String>) -> Seq<Seq<char>> {
    v.map_values(|s: String| s@)
}

/// How often each term occurs in a term sequence; a term that does not occur
/// has no entry.
pub open spec fn term_counts(ts: Seq<Seq<char>>) -> Map<Seq<char>, nat>
    decreases ts.len(),
{
    if ts.len() == 0 {
        Map::empty()
    } else {
        let m = term_counts(ts.drop_last());
        m.insert(ts.last(), count_in(m, ts.last()) + 1)
    }
}

/// What a document is to the ranking: its token count and its term counts.
pub ghost struct DocView {
    pub term_count: nat,
    pub tf: Map<Seq<char>, nat>,
}

/// The statistics of a document scanned from a token list.
pub open spec fn doc_of(tokens: Seq<Seq<char>>) -> DocView {
    DocView { term_count: tokens.len(), tf: term_counts(tokens) }
}

/// A document that holds no term.
pub open spec fn empty_doc() -> DocView {
    DocView { term_count: 0, tf: Map::empty() }
}

/// Term statistics of one document.
#[derive(Clone, Debug, PartialEq, Eq)]
pub struct Doc {
    pub tf: CountTable,
    pub count: usize,
}

impl View for Doc {
    type V = DocView;

    open spec fn view(&self) -> DocView {
        DocView { term_count: self.count as nat, tf: table_map(self.tf@) }
    }
}

impl Doc {
    /// Each term once, and the counts sum to the token count.
    pub open spec fn wf(&self) -> bool {
        &&& keys_unique(self.tf@)
        &&& table_sum(self.tf@) == self.count
    }
}

/// A non-negative rational number `num / den`.
#[derive(Clone, Copy, Debug, PartialEq, Eq)]
pub struct Ratio {
    pub num: usize,
    pub den: usize,
}

impl View for Ratio {
    type V = (nat, nat);

    open spec fn view(&self) -> (nat, nat) {
        (self.num as nat, self.den as nat)
    }
}

/// Term frequency of `t` in `d`: its count over the document's token count,
/// and zero for a document without tokens.
pub open spec fn tf_of(d: DocView, t: Seq<char>) -> (nat, nat) {
    if d.term_count == 0 {
        (0, 1)
    } else {
        (count_in(d.tf, t), d.term_count)
    }
}

/// The argument of the logarithm in the inverse document frequency of a term
/// found in `df` documents out of `n`: `n / df`, with `df` taken as one
/// where no document holds the term.
pub open spec fn idf_of(n: nat, df: nat) -> (nat, nat) {
    (n, if df == 0 { 1 } else { df })
}

/// Scans a token list once, counting each term.
pub fn count_terms(tokens: &Vec<String>) -> (d: Doc)
    ensures
        d.wf(),
        d@ == doc_of(terms_of(tokens@)),
{
    let mut tf: CountTable = Vec::new();
    let mut count: usize = 0;
    while count < tokens.len()
        invariant
            count <= tokens@.len(),
            keys_unique(tf@),
            table_sum(tf@) == count,
            table_map(tf@) == term_counts(terms_of(tokens@.take(count as int))),
            forall|t: Seq<char>| #[trigger] count_in(table_map(tf@), t) <= count,
        decreases tokens@.len() - count,
    {
        let ghost before = tf@;
        proof {
            let ts = terms_of(tokens@.take(count as int + 1));
            assert(ts.drop_last() =~= terms_of(tokens@.take(count as int)));
            assert(ts.last() == tokens@[count as int]@);
        }
        increment(&mut tf, &tokens[count]);
        count += 1;
        proof {
            assert forall|t: Seq<char>| #[trigger] count_in(table_map(tf@), t) <= count by {
                assert(count_in(table_map(before), t) <= count - 1);
            }
        }
    }
    proof {
        assert(tokens@.take(count as int) =~= tokens@);
    }
    Doc { tf, count }
}

/// Term frequency of `t` in `doc`, as an exact ratio.
pub fn compute_tf(t: &String, doc: &Doc) -> (r: Ratio)
    requires
        doc.wf(),
    ensures
        r@ == tf_of(doc@, t@),
{
    if doc.count == 0 {
        Ratio { num: 0, den: 1 }
    } else {
        Ratio { num: count_of(&doc.tf, t), den: doc.count }
    }
}

/// The argument of the logarithm in the inverse document frequency of `t`,
/// over a corpus of `n` documents whose document frequencies `df` holds.
pub fn compute_idf(t: &String, n: usize, df: &CountTable) -> (r: Ratio)
    requires
        keys_unique(df@),
    ensures
        r@ == idf_of(n as nat, count_in(table_map(df@), t@)),
{
    let m = count_of(df, t);
    Ratio { num: n, den: if m == 0 { 1 } else { m } }
}

} // verus!
