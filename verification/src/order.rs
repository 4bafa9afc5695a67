//! The order of texts, by the codes of their characters.

use vstd::prelude::*;
use crate::text::{chars_of, texts, Text};

verus! {

/// Whether `a` comes before `b`: at the first place where they differ it has
/// the smaller code, or it ends.
pub open spec fn before(a: Text, b: Text) -> bool
    decreases a.len(),
{
    if b.len() == 0 {
        false
    } else if a.len() == 0 {
        true
    } else if a[0] == b[0] {
        before(a.drop_first(), b.drop_first())
    } else {
        a[0] < b[0]
    }
}

/// Of two texts that differ, one comes before the other.
pub proof fn lemma_before_total(a: Text, b: Text)
    ensures
        before(a, b) || before(b, a) || a == b,
        !(before(a, b) && before(b, a)),
        !before(a, a),
    decreases a.len(),
{
    if a.len() > 0 {
        lemma_before_total(a.drop_first(), a.drop_first());
    }
    if a.len() > 0 && b.len() > 0 && a[0] == b[0] {
        lemma_before_total(a.drop_first(), b.drop_first());
        if a.drop_first() == b.drop_first() {
            assert(a =~= seq![a[0]] + a.drop_first());
            assert(b =~= seq![b[0]] + b.drop_first());
        }
    } else if a.len() == 0 && b.len() == 0 {
        assert(a =~= b);
    }
}

/// What comes before what comes before `c` comes before `c`.
pub proof fn lemma_before_trans(a: Text, b: Text, c: Text)
    requires
        before(a, b),
        before(b, c),
    ensures
        before(a, c),
    decreases a.len(),
{
    if a.len() > 0 && b.len() > 0 && c.len() > 0 && a[0] == b[0] && b[0] == c[0] {
        lemma_before_trans(a.drop_first(), b.drop_first(), c.drop_first());
    }
}

/// Whether each text of `s` comes before the ones behind it.
pub open spec fn ascending(s: Seq<Text>) -> bool {
    forall|i: int, j: int| 0 <= i < j < s.len() ==> before(#[trigger] s[i], #[trigger] s[j])
}

/// The number of texts from the start of `s` that come before `k`.
pub open spec fn place(s: Seq<Text>, k: Text, i: int) -> int
    decreases s.len() - i,
{
    if 0 <= i < s.len() && before(s[i], k) {
        place(s, k, i + 1)
    } else {
        i
    }
}

/// `s` with `k` behind the texts that come before it.
pub open spec fn inserted(s: Seq<Text>, k: Text) -> Seq<Text> {
    s.insert(place(s, k, 0), k)
}

/// The texts of `s` in order.
pub open spec fn sorted(s: Seq<Text>) -> Seq<Text>
    decreases s.len(),
{
    if s.len() == 0 {
        seq![]
    } else {
        inserted(sorted(s.drop_last()), s.last())
    }
}

/// What `place` says, without recursion.
pub proof fn lemma_place(s: Seq<Text>, k: Text, i: int)
    requires
        0 <= i <= s.len(),
    ensures
        i <= place(s, k, i) <= s.len(),
        forall|j: int| i <= j < place(s, k, i) ==> before(#[trigger] s[j], k),
        place(s, k, i) < s.len() ==> !before(s[place(s, k, i)], k),
    decreases s.len() - i,
{
    if i < s.len() && before(s[i], k) {
        lemma_place(s, k, i + 1);
    }
}

/// Sorting keeps the texts, each as often as it was there.
pub proof fn sorted_keeps_texts(s: Seq<Text>)
    ensures
        sorted(s).len() == s.len(),
        sorted(s).to_multiset() == s.to_multiset(),
    decreases s.len(),
{
    broadcast use vstd::seq_lib::group_to_multiset_ensures;

    if s.len() == 0 {
        assert(s =~= seq![]);
    } else {
        let t = sorted(s.drop_last());
        sorted_keeps_texts(s.drop_last());
        let p = place(t, s.last(), 0);
        lemma_place(t, s.last(), 0);
        vstd::seq_lib::to_multiset_insert(t, p, s.last());
        assert(s =~= s.drop_last().push(s.last()));
    }
}

/// Sorting puts texts of which no two are the same in ascending order.
pub proof fn sorted_is_ascending(s: Seq<Text>)
    requires
        s.no_duplicates(),
    ensures
        ascending(sorted(s)),
    decreases s.len(),
{
    if s.len() > 0 {
        let r = s.drop_last();
        let t = sorted(r);
        let k = s.last();
        assert(r.no_duplicates());
        sorted_is_ascending(r);
        sorted_keeps_texts(r);
        lemma_place(t, k, 0);
        let p = place(t, k, 0);
        assert forall|j: int| 0 <= j < t.len() implies #[trigger] t[j] != k by {
            broadcast use vstd::seq_lib::group_to_multiset_ensures;

            assert(t.to_multiset().count(t[j]) > 0) by {
                assert(t.contains(t[j]));
            }
            assert(r.contains(t[j]));
            let i = choose|i: int| 0 <= i < r.len() && r[i] == t[j];
            assert(s[i] == t[j]);
        }
        let u = sorted(s);
        assert forall|i: int, j: int| 0 <= i < j < u.len() implies before(
            #[trigger] u[i],
            #[trigger] u[j],
        ) by {
            if j < p {
                assert(u[i] == t[i] && u[j] == t[j]);
            } else if j == p {
                assert(u[i] == t[i]);
            } else if i < p {
                assert(u[i] == t[i] && u[j] == t[j - 1]);
            } else if i == p {
                assert(u[j] == t[j - 1]);
                lemma_before_total(t[p], k);
                if j - 1 > p {
                    lemma_before_trans(k, t[p], t[j - 1]);
                }
            } else {
                assert(u[i] == t[i - 1] && u[j] == t[j - 1]);
            }
        }
    }
}

/// Whether `a` comes before `b`.
pub fn comes_before(a: &str, b: &str) -> (r: bool)
    ensures
        r == before(a@, b@),
{
    let xs = chars_of(a);
    let ys = chars_of(b);
    let n: usize = xs.len();
    let m: usize = ys.len();
    let mut i: usize = 0;
    assert(a@.subrange(0, n as int) =~= a@);
    assert(b@.subrange(0, m as int) =~= b@);
    while i < n && i < m && xs[i] == ys[i]
        invariant
            i <= n == xs@.len(),
            i <= m == ys@.len(),
            xs@ == a@,
            ys@ == b@,
            before(a@, b@) == before(
                a@.subrange(i as int, n as int),
                b@.subrange(i as int, m as int),
            ),
        decreases n - i,
    {
        assert(a@.subrange(i as int, n as int).drop_first() =~= a@.subrange(i + 1, n as int));
        assert(b@.subrange(i as int, m as int).drop_first() =~= b@.subrange(i + 1, m as int));
        i += 1;
    }
    if i == m {
        false
    } else if i == n {
        true
    } else {
        xs[i] < ys[i]
    }
}

/// The strings of a vector in order.
pub fn sort_texts<'a>(v: &Vec<&'a str>) -> (r: Vec<&'a str>)
    ensures
        texts(r@) == sorted(texts(v@)),
{
    let mut r: Vec<&'a str> = Vec::new();
    let mut i: usize = 0;
    let ghost all = texts(v@);
    assert(texts(r@) =~= sorted(all.subrange(0, 0)));
    while i < v.len()
        invariant
            i <= v@.len(),
            all == texts(v@),
            texts(r@) == sorted(all.subrange(0, i as int)),
        decreases v@.len() - i,
    {
        let k: &'a str = v[i];
        let ghost t = texts(r@);
        let mut p: usize = 0;
        while p < r.len() && comes_before(r[p], k)
            invariant
                p <= r@.len(),
                t == texts(r@),
                place(t, k@, 0) == place(t, k@, p as int),
            decreases r@.len() - p,
        {
            p += 1;
        }
        assert(place(t, k@, 0) == p) by {
            if p < r@.len() {
                assert(t[p as int] == r@[p as int]@);
            }
        }
        r.insert(p, k);
        proof {
            assert(all.subrange(0, i + 1).drop_last() =~= all.subrange(0, i as int));
            assert(texts(r@) =~= t.insert(p as int, k@));
        }
        i += 1;
    }
    assert(all.subrange(0, i as int) =~= all);
    r
}

/// Texts in ascending order stand in the only order that is ascending.
proof fn lemma_ascending_unique(a: Seq<Text>, b: Seq<Text>)
    requires
        ascending(a),
        ascending(b),
        a.to_multiset() == b.to_multiset(),
    ensures
        a == b,
    decreases a.len(),
{
    broadcast use vstd::seq_lib::group_to_multiset_ensures;

    assert(a.len() == a.to_multiset().len());
    assert(b.len() == b.to_multiset().len());
    if a.len() > 0 {
        assert(a.contains(a[0]));
        assert(b.contains(b[0]));
        assert(b.to_multiset().count(a[0]) > 0);
        assert(a.to_multiset().count(b[0]) > 0);
        let i = choose|i: int| 0 <= i < a.len() && a[i] == b[0];
        let j = choose|j: int| 0 <= j < b.len() && b[j] == a[0];
        lemma_before_total(a[0], b[0]);
        if a[0] != b[0] {
            assert(before(a[0], a[i]));
            assert(before(b[0], b[j]));
        }
        let a2 = a.drop_first();
        let b2 = b.drop_first();
        assert(a =~= seq![a[0]] + a2);
        assert(b =~= seq![b[0]] + b2);
        vstd::seq_lib::lemma_multiset_commutative(seq![a[0]], a2);
        vstd::seq_lib::lemma_multiset_commutative(seq![b[0]], b2);
        assert(a2.to_multiset() =~= a.to_multiset().sub(seq![a[0]].to_multiset()));
        assert(b2.to_multiset() =~= b.to_multiset().sub(seq![b[0]].to_multiset()));
        lemma_ascending_unique(a2, b2);
    } else {
        assert(a =~= b);
    }
}

/// In which order texts stood, of which no two are the same, cannot be told from
/// them sorted.
pub proof fn sorting_ignores_order(s: Seq<Text>, t: Seq<Text>)
    requires
        s.no_duplicates(),
        t.no_duplicates(),
        s.to_multiset() == t.to_multiset(),
    ensures
        sorted(s) == sorted(t),
{
    sorted_is_ascending(s);
    sorted_is_ascending(t);
    sorted_keeps_texts(s);
    sorted_keeps_texts(t);
    lemma_ascending_unique(sorted(s), sorted(t));
}

} // verus!
