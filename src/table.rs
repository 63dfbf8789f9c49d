use vstd::prelude::*;

verus! {

/// A table of `(term, count)` entries, each term at most once.
pub type CountTable = Vec<(String, usize)>;

/// No two entries of the table carry the same term.
pub open spec fn keys_unique(s: Seq<(String, usize)>) -> bool {
    forall|i: int, j: int|
        0 <= i < s.len() && 0 <= j < s.len() && i != j ==> #[trigger] s[i].0@ != #[trigger] s[j].0@
}

/// The map from term to count that a table stands for.
pub open spec fn table_map(s: Seq<(String, usize)>) -> Map<Seq<char>, nat>
    decreases s.len(),
{
    if s.len() == 0 {
        Map::empty()
    } else {
        table_map(s.drop_last()).insert(s.last().0@, s.last().1 as nat)
    }
}

/// The sum of the counts of a table.
pub open spec fn table_sum(s: Seq<(String, usize)>) -> nat
    decreases s.len(),
{
    if s.len() == 0 {
        0
    } else {
        table_sum(s.drop_last()) + s.last().1 as nat
    }
}

pub proof fn lemma_table_sum_update(s: Seq<(String, usize)>, i: int, e: (String, usize))
    requires
        0 <= i < s.len(),
    ensures
        table_sum(s.update(i, e)) + s[i].1 == table_sum(s) + e.1,
    decreases s.len(),
{
    let u = s.update(i, e);
    if i < s.len() - 1 {
        assert(u.drop_last() =~= s.drop_last().update(i, e));
        lemma_table_sum_update(s.drop_last(), i, e);
    } else {
        assert(u.drop_last() =~= s.drop_last());
    }
}

/// Whether the counts of the table sum to `n`.
pub fn sums_to(s: &CountTable, n: usize) -> (r: bool)
    ensures
        r == (table_sum(s@) == n),
{
    let mut acc: usize = 0;
    let mut j: usize = 0;
    while j < s.len()
        invariant
            j <= s@.len(),
            acc <= n,
            acc as nat == table_sum(s@.take(j as int)),
        decreases s@.len() - j,
    {
        proof {
            assert(s@.take(j as int + 1).drop_last() =~= s@.take(j as int));
        }
        if s[j].1 > n - acc {
            proof {
                lemma_table_sum_prefix(s@, j as int + 1);
            }
            return false;
        }
        acc = acc + s[j].1;
        j += 1;
    }
    proof {
        assert(s@.take(j as int) =~= s@);
    }
    acc == n
}

proof fn lemma_table_sum_prefix(s: Seq<(String, usize)>, j: int)
    requires
        0 <= j <= s.len(),
    ensures
        table_sum(s.take(j)) <= table_sum(s),
    decreases s.len(),
{
    if j < s.len() {
        assert(s.drop_last().take(j) =~= s.take(j));
        lemma_table_sum_prefix(s.drop_last(), j);
    } else {
        assert(s.take(j) =~= s);
    }
}

/// The count a map gives a term, zero where the term is absent.
pub open spec fn count_in(m: Map<Seq<char>, nat>, t: Seq<char>) -> nat {
    if m.contains_key(t) {
        m[t]
    } else {
        0
    }
}

pub proof fn lemma_table_dom(s: Seq<(String, usize)>, k: Seq<char>)
    ensures
        table_map(s).contains_key(k) <==> exists|i: int| 0 <= i < s.len() && #[trigger] s[i].0@ == k,
    decreases s.len(),
{
    if s.len() > 0 {
        let p = s.drop_last();
        lemma_table_dom(p, k);
        if table_map(p).contains_key(k) {
            let i = choose|i: int| 0 <= i < p.len() && #[trigger] p[i].0@ == k;
            assert(s[i].0@ == k);
        }
        if exists|i: int| 0 <= i < s.len() && #[trigger] s[i].0@ == k {
            let i = choose|i: int| 0 <= i < s.len() && #[trigger] s[i].0@ == k;
            if i < s.len() - 1 {
                assert(p[i].0@ == k);
            }
        }
    }
}

pub proof fn lemma_table_index(s: Seq<(String, usize)>, i: int)
    requires
        keys_unique(s),
        0 <= i < s.len(),
    ensures
        table_map(s).contains_key(s[i].0@),
        table_map(s)[s[i].0@] == s[i].1 as nat,
    decreases s.len(),
{
    let p = s.drop_last();
    if i < s.len() - 1 {
        assert(keys_unique(p)) by {
            assert forall|a: int, b: int|
                0 <= a < p.len() && 0 <= b < p.len() && a != b implies #[trigger] p[a].0@
                != #[trigger] p[b].0@ by {
                assert(p[a] == s[a] && p[b] == s[b]);
            }
        }
        lemma_table_index(p, i);
        assert(s[i].0@ != s[s.len() - 1].0@);
    }
}

proof fn lemma_unique_prefix(s: Seq<(String, usize)>)
    requires
        keys_unique(s),
        s.len() > 0,
    ensures
        keys_unique(s.drop_last()),
{
    let p = s.drop_last();
    assert forall|a: int, b: int|
        0 <= a < p.len() && 0 <= b < p.len() && a != b implies #[trigger] p[a].0@
        != #[trigger] p[b].0@ by {
        assert(p[a] == s[a] && p[b] == s[b]);
    }
}

pub proof fn lemma_table_update(s: Seq<(String, usize)>, i: int, v: usize)
    requires
        keys_unique(s),
        0 <= i < s.len(),
    ensures
        keys_unique(s.update(i, (s[i].0, v))),
        table_map(s.update(i, (s[i].0, v))) =~= table_map(s).insert(s[i].0@, v as nat),
    decreases s.len(),
{
    let u = s.update(i, (s[i].0, v));
    assert(keys_unique(u)) by {
        assert forall|a: int, b: int|
            0 <= a < u.len() && 0 <= b < u.len() && a != b implies #[trigger] u[a].0@
            != #[trigger] u[b].0@ by {
            assert(u[a].0@ == s[a].0@ && u[b].0@ == s[b].0@);
        }
    }
    let p = s.drop_last();
    if i == s.len() - 1 {
        assert(u.drop_last() =~= p);
        lemma_table_dom(p, s[i].0@);
    } else {
        lemma_unique_prefix(s);
        lemma_table_update(p, i, v);
        assert(u.drop_last() =~= p.update(i, (p[i].0, v)));
        assert(s[i].0@ != s.last().0@);
    }
}

/// The position of the entry for `t`, if there is one.
pub fn find(s: &CountTable, t: &String) -> (r: Option<usize>)
    ensures
        match r {
            Some(i) => i < s@.len() && s@[i as int].0@ == t@,
            None => forall|i: int| 0 <= i < s@.len() ==> #[trigger] s@[i].0@ != t@,
        },
{
    let mut i: usize = 0;
    while i < s.len()
        invariant
            i <= s@.len(),
            forall|j: int| 0 <= j < i ==> #[trigger] s@[j].0@ != t@,
        decreases s@.len() - i,
    {
        if s[i].0 == *t {
            return Some(i);
        }
        i += 1;
    }
    None
}

/// The count the table gives `t`, zero where `t` has no entry.
pub fn count_of(s: &CountTable, t: &String) -> (r: usize)
    requires
        keys_unique(s@),
    ensures
        r as nat == count_in(table_map(s@), t@),
{
    proof {
        lemma_table_dom(s@, t@);
    }
    match find(s, t) {
        Some(i) => {
            proof {
                lemma_table_index(s@, i as int);
            }
            s[i].1
        },
        None => 0,
    }
}

/// Adds one to the count of `t`, giving it an entry of one where it had none.
pub fn increment(s: &mut CountTable, t: &String)
    requires
        keys_unique(old(s)@),
        count_in(table_map(old(s)@), t@) < usize::MAX,
    ensures
        keys_unique(final(s)@),
        table_map(final(s)@) == table_map(old(s)@).insert(t@, count_in(table_map(old(s)@), t@) + 1),
        table_sum(final(s)@) == table_sum(old(s)@) + 1,
{
    proof {
        lemma_table_dom(s@, t@);
    }
    match find(s, t) {
        Some(i) => {
            proof {
                lemma_table_index(s@, i as int);
                lemma_table_update(s@, i as int, (s@[i as int].1 + 1) as usize);
                lemma_table_sum_update(s@, i as int, (s@[i as int].0, (s@[i as int].1 + 1) as usize));
            }
            let v = s[i].1 + 1;
            let k = s[i].0.clone();
            s.set(i, (k, v));
        },
        None => {
            let ghost before = s@;
            s.push((t.clone(), 1));
            proof {
                assert(s@.drop_last() =~= before);
                assert(s@.last().1 == 1);
                assert forall|a: int, b: int|
                    0 <= a < s@.len() && 0 <= b < s@.len() && a != b implies #[trigger] s@[a].0@
                    != #[trigger] s@[b].0@ by {
                    if a < before.len() && b < before.len() {
                        assert(s@[a] == before[a] && s@[b] == before[b]);
                    } else if a < before.len() {
                        assert(s@[a] == before[a]);
                    } else {
                        assert(s@[b] == before[b]);
                    }
                }
            }
        },
    }
}

/// Takes one from the count of `t`, which must be positive. The entry stays,
/// with a count of zero where it reaches zero.
pub fn decrement(s: &mut CountTable, t: &String)
    requires
        keys_unique(old(s)@),
        count_in(table_map(old(s)@), t@) > 0,
    ensures
        keys_unique(final(s)@),
        table_map(final(s)@) == table_map(old(s)@).insert(t@, (count_in(table_map(old(s)@), t@) - 1) as nat),
{
    proof {
        lemma_table_dom(s@, t@);
    }
    let r = find(s, t);
    let i = r.unwrap();
    proof {
        lemma_table_index(s@, i as int);
        lemma_table_update(s@, i as int, (s@[i as int].1 - 1) as usize);
    }
    let v = s[i].1 - 1;
    let k = s[i].0.clone();
    s.set(i, (k, v));
}

/// Two tables hold the same terms with the same counts, entry by entry.
pub open spec fn same_entries(a: Seq<(String, usize)>, b: Seq<(String, usize)>) -> bool {
    &&& a.len() == b.len()
    &&& forall|i: int| 0 <= i < a.len() ==> #[trigger] a[i].0@ == b[i].0@ && a[i].1 == b[i].1
}

pub proof fn lemma_same_entries(a: Seq<(String, usize)>, b: Seq<(String, usize)>)
    requires
        same_entries(a, b),
    ensures
        table_map(a) == table_map(b),
        keys_unique(a) ==> keys_unique(b),
    decreases a.len(),
{
    if a.len() > 0 {
        assert(same_entries(a.drop_last(), b.drop_last())) by {
            assert forall|i: int| 0 <= i < a.len() - 1 implies #[trigger] a.drop_last()[i].0@
                == b.drop_last()[i].0@ && a.drop_last()[i].1 == b.drop_last()[i].1 by {
                assert(a[i].0@ == b[i].0@);
            }
        }
        lemma_same_entries(a.drop_last(), b.drop_last());
        assert(a[a.len() - 1].0@ == b[b.len() - 1].0@);
    }
    if keys_unique(a) {
        assert forall|i: int, j: int|
            0 <= i < b.len() && 0 <= j < b.len() && i != j implies #[trigger] b[i].0@ != #[trigger] b[j].0@ by {
            assert(a[i].0@ == b[i].0@ && a[j].0@ == b[j].0@);
        }
    }
}

pub proof fn lemma_same_sum(a: Seq<(String, usize)>, b: Seq<(String, usize)>)
    requires
        same_entries(a, b),
    ensures
        table_sum(a) == table_sum(b),
    decreases a.len(),
{
    if a.len() > 0 {
        assert(same_entries(a.drop_last(), b.drop_last())) by {
            assert forall|i: int| 0 <= i < a.len() - 1 implies #[trigger] a.drop_last()[i].0@
                == b.drop_last()[i].0@ && a.drop_last()[i].1 == b.drop_last()[i].1 by {
                assert(a[i].0@ == b[i].0@);
            }
        }
        lemma_same_sum(a.drop_last(), b.drop_last());
        assert(a[a.len() - 1].0@ == b[b.len() - 1].0@);
    }
}

/// A copy of a table.
pub fn copy_table(s: &CountTable) -> (r: CountTable)
    ensures
        same_entries(s@, r@),
{
    let mut r: CountTable = Vec::new();
    let mut i: usize = 0;
    while i < s.len()
        invariant
            i <= s@.len(),
            r@.len() == i,
            forall|j: int| 0 <= j < i ==> #[trigger] s@[j].0@ == r@[j].0@ && s@[j].1 == r@[j].1,
        decreases s@.len() - i,
    {
        r.push((s[i].0.clone(), s[i].1));
        i += 1;
    }
    r
}

/// Whether no two entries carry the same term.
pub fn keys_are_unique(s: &CountTable) -> (r: bool)
    ensures
        r == keys_unique(s@),
{
    let mut i: usize = 0;
    while i < s.len()
        invariant
            i <= s@.len(),
            forall|a: int, b: int|
                0 <= a < i && 0 <= b < s@.len() && a != b ==> #[trigger] s@[a].0@ != #[trigger] s@[b].0@,
        decreases s@.len() - i,
    {
        let mut j: usize = 0;
        while j < s.len()
            invariant
                i < s@.len(),
                j <= s@.len(),
                forall|a: int, b: int|
                    0 <= a < i && 0 <= b < s@.len() && a != b ==> #[trigger] s@[a].0@ != #[trigger] s@[b].0@,
                forall|b: int| 0 <= b < j && b != i ==> s@[i as int].0@ != #[trigger] s@[b].0@,
            decreases s@.len() - j,
        {
            if j != i && s[i].0 == s[j].0 {
                return false;
            }
            j += 1;
        }
        i += 1;
    }
    true
}

/// Whether every entry of `a` has its count in `b`.
fn counts_within(a: &CountTable, b: &CountTable) -> (r: bool)
    requires
        keys_unique(a@),
        keys_unique(b@),
    ensures
        r == forall|i: int| 0 <= i < a@.len() ==> count_in(table_map(b@), #[trigger] a@[i].0@) == a@[i].1,
{
    let mut i: usize = 0;
    while i < a.len()
        invariant
            i <= a@.len(),
            keys_unique(b@),
            forall|j: int| 0 <= j < i ==> count_in(table_map(b@), #[trigger] a@[j].0@) == a@[j].1,
        decreases a@.len() - i,
    {
        if count_of(b, &a[i].0) != a[i].1 {
            return false;
        }
        i += 1;
    }
    true
}

/// Whether two tables give every term the same count.
pub fn tables_agree(a: &CountTable, b: &CountTable) -> (r: bool)
    requires
        keys_unique(a@),
        keys_unique(b@),
    ensures
        r == forall|t: Seq<char>| #[trigger] count_in(table_map(a@), t) == count_in(table_map(b@), t),
{
    let r = counts_within(a, b) && counts_within(b, a);
    proof {
        if r {
            assert forall|t: Seq<char>| #[trigger] count_in(table_map(a@), t) == count_in(table_map(b@), t) by {
                lemma_table_dom(a@, t);
                lemma_table_dom(b@, t);
                if table_map(a@).contains_key(t) {
                    let i = choose|i: int| 0 <= i < a@.len() && #[trigger] a@[i].0@ == t;
                    lemma_table_index(a@, i);
                } else if table_map(b@).contains_key(t) {
                    let i = choose|i: int| 0 <= i < b@.len() && #[trigger] b@[i].0@ == t;
                    lemma_table_index(b@, i);
                }
            }
        } else if !counts_within_spec(a@, b@) {
            let i = choose|i: int| 0 <= i < a@.len() && count_in(table_map(b@), #[trigger] a@[i].0@) != a@[i].1;
            lemma_table_index(a@, i);
            assert(count_in(table_map(a@), a@[i].0@) != count_in(table_map(b@), a@[i].0@));
        } else {
            let i = choose|i: int| 0 <= i < b@.len() && count_in(table_map(a@), #[trigger] b@[i].0@) != b@[i].1;
            lemma_table_index(b@, i);
            assert(count_in(table_map(a@), b@[i].0@) != count_in(table_map(b@), b@[i].0@));
        }
    }
    r
}

spec fn counts_within_spec(a: Seq<(String, usize)>, b: Seq<(String, usize)>) -> bool {
    forall|i: int| 0 <= i < a.len() ==> count_in(table_map(b), #[trigger] a[i].0@) == a[i].1
}

} // verus!
