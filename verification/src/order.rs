//! The order of domain names, and the sorted list without repetitions.
//!
//! Names are ordered as strings are: character by character, by code point,
//! a proper prefix before what extends it.

use crate::text::views;
use vstd::prelude::*;

verus! {

/// Whether `a` comes strictly before `b`: at the first place where the two
/// differ `a` has the smaller code point, or `a` ends there and `b` goes on.
pub open spec fn lex_less(a: Seq<char>, b: Seq<char>) -> bool
    decreases a.len(),
{
    if b.len() == 0 {
        false
    } else if a.len() == 0 {
        true
    } else if a.first() != b.first() {
        a.first() < b.first()
    } else {
        lex_less(a.drop_first(), b.drop_first())
    }
}

/// No item comes before an earlier one.
pub open spec fn ascending(s: Seq<Seq<char>>) -> bool {
    forall|i: int, j: int| 0 <= i < j < s.len() ==> !lex_less(#[trigger] s[j], #[trigger] s[i])
}

/// No item comes before a later one.
pub open spec fn descending(s: Seq<Seq<char>>) -> bool {
    forall|i: int, j: int| 0 <= i < j < s.len() ==> !lex_less(#[trigger] s[i], #[trigger] s[j])
}

/// Every item comes strictly before every later one.
pub open spec fn strictly_ascending(s: Seq<Seq<char>>) -> bool {
    forall|i: int, j: int| 0 <= i < j < s.len() ==> lex_less(#[trigger] s[i], #[trigger] s[j])
}

/// `s` without each item that equals the one just before it.
pub open spec fn deduplicated(s: Seq<Seq<char>>) -> Seq<Seq<char>>
    decreases s.len(),
{
    if s.len() <= 1 {
        s
    } else if s.last() == s[s.len() - 2] {
        deduplicated(s.drop_last())
    } else {
        deduplicated(s.drop_last()).push(s.last())
    }
}

/// Nothing comes before itself.
pub proof fn lemma_lex_irreflexive(a: Seq<char>)
    ensures
        !lex_less(a, a),
    decreases a.len(),
{
    if a.len() > 0 {
        lemma_lex_irreflexive(a.drop_first());
    }
}

/// The order is transitive.
pub proof fn lemma_lex_transitive(a: Seq<char>, b: Seq<char>, c: Seq<char>)
    requires
        lex_less(a, b),
        lex_less(b, c),
    ensures
        lex_less(a, c),
    decreases a.len(),
{
    if a.len() > 0 && a.first() == b.first() && b.first() == c.first() {
        lemma_lex_transitive(a.drop_first(), b.drop_first(), c.drop_first());
    }
}

/// The order is total: of two different names one comes before the other.
pub proof fn lemma_lex_total(a: Seq<char>, b: Seq<char>)
    ensures
        a == b || lex_less(a, b) || lex_less(b, a),
    decreases a.len(),
{
    if a.len() == 0 || b.len() == 0 {
        if a.len() == 0 && b.len() == 0 {
            assert(a =~= b);
        }
    } else if a.first() == b.first() {
        lemma_lex_total(a.drop_first(), b.drop_first());
        if a.drop_first() == b.drop_first() {
            assert(a =~= seq![a.first()] + a.drop_first());
            assert(b =~= seq![b.first()] + b.drop_first());
        }
    }
}

/// Of two names at most one comes before the other.
pub proof fn lemma_lex_asymmetric(a: Seq<char>, b: Seq<char>)
    requires
        lex_less(a, b),
    ensures
        !lex_less(b, a),
{
    if lex_less(b, a) {
        lemma_lex_transitive(a, b, a);
        lemma_lex_irreflexive(a);
    }
}

/// What comes before `b` comes before everything that `b` does not follow.
pub proof fn lemma_lex_before_not_after(a: Seq<char>, b: Seq<char>, c: Seq<char>)
    requires
        lex_less(a, b),
        !lex_less(c, b),
    ensures
        lex_less(a, c),
{
    lemma_lex_total(b, c);
    if b != c {
        lemma_lex_transitive(a, b, c);
    }
}

/// What does not come before `b`, which does not come before `c`, does not
/// come before `c`.
pub proof fn lemma_lex_not_less_transitive(a: Seq<char>, b: Seq<char>, c: Seq<char>)
    requires
        !lex_less(a, b),
        !lex_less(b, c),
    ensures
        !lex_less(a, c),
{
    if lex_less(a, c) {
        lemma_lex_before_not_after(a, c, b);
    }
}

/// Comparing from a common prefix on decides the order.
proof fn lemma_lex_skip(a: Seq<char>, b: Seq<char>, i: int)
    requires
        0 <= i <= a.len(),
        i <= b.len(),
        a.take(i) == b.take(i),
    ensures
        lex_less(a, b) == lex_less(a.skip(i), b.skip(i)),
    decreases i,
{
    if i == 0 {
        assert(a.skip(0) =~= a);
        assert(b.skip(0) =~= b);
    } else {
        assert(a.first() == a.take(i)[0] && b.first() == b.take(i)[0]);
        assert(a.drop_first().take(i - 1) =~= a.take(i).drop_first());
        assert(b.drop_first().take(i - 1) =~= b.take(i).drop_first());
        lemma_lex_skip(a.drop_first(), b.drop_first(), i - 1);
        assert(a.drop_first().skip(i - 1) =~= a.skip(i));
        assert(b.drop_first().skip(i - 1) =~= b.skip(i));
    }
}

/// Whether `a` comes strictly before `b`.
pub fn less(a: &Vec<char>, b: &Vec<char>) -> (r: bool)
    ensures
        r == lex_less(a@, b@),
{
    let n: usize = a.len();
    let m: usize = b.len();
    let mut i: usize = 0;
    while i < n && i < m
        invariant
            i <= n == a.len(),
            i <= m == b.len(),
            a@.take(i as int) == b@.take(i as int),
        decreases n - i,
    {
        if a[i] != b[i] {
            proof {
                lemma_lex_skip(a@, b@, i as int);
            }
            return a[i] < b[i];
        }
        assert(a@.take(i + 1) =~= a@.take(i as int).push(a@[i as int]));
        assert(b@.take(i + 1) =~= b@.take(i as int).push(b@[i as int]));
        i += 1;
    }
    proof {
        lemma_lex_skip(a@, b@, i as int);
    }
    i < m
}

/// Whether `a` and `b` hold the same characters.
pub fn same(a: &Vec<char>, b: &Vec<char>) -> (r: bool)
    ensures
        r == (a@ == b@),
{
    let n: usize = a.len();
    if n != b.len() {
        return false;
    }
    let mut i: usize = 0;
    while i < n
        invariant
            i <= n == a.len() == b.len(),
            a@.take(i as int) == b@.take(i as int),
        decreases n - i,
    {
        if a[i] != b[i] {
            return false;
        }
        assert(a@.take(i + 1) =~= a@.take(i as int).push(a@[i as int]));
        assert(b@.take(i + 1) =~= b@.take(i as int).push(b@[i as int]));
        i += 1;
    }
    assert(a@.take(n as int) == a@ && b@.take(n as int) == b@);
    true
}

/// Moves the items of `left` and `right` to a new list, the last of all
/// first: where both lists are ascending, the new one is descending.
fn merge_backwards(left: Vec<Vec<char>>, right: Vec<Vec<char>>) -> (back: Vec<Vec<char>>)
    requires
        ascending(views(left@)),
        ascending(views(right@)),
    ensures
        descending(views(back@)),
        views(back@).to_multiset() == (views(left@) + views(right@)).to_multiset(),
{
    let ghost l0 = views(left@);
    let ghost r0 = views(right@);
    let mut left = left;
    let mut right = right;
    let mut back: Vec<Vec<char>> = Vec::new();
    assert(views(left@) + views(right@) + views(back@) == l0 + r0);
    while left.len() > 0 || right.len() > 0
        invariant
            ascending(views(left@)),
            ascending(views(right@)),
            descending(views(back@)),
            back.len() > 0 && left.len() > 0 ==> !lex_less(
                views(back@).last(),
                views(left@).last(),
            ),
            back.len() > 0 && right.len() > 0 ==> !lex_less(
                views(back@).last(),
                views(right@).last(),
            ),
            (views(left@) + views(right@) + views(back@)).to_multiset() == (l0 + r0).to_multiset(),
        decreases left.len() + right.len(),
    {
        let ghost l = views(left@);
        let ghost r = views(right@);
        let ghost b = views(back@);
        let from_right = if left.len() == 0 {
            true
        } else if right.len() == 0 {
            false
        } else {
            less(&left[left.len() - 1], &right[right.len() - 1])
        };
        let x = if from_right {
            right.pop().unwrap()
        } else {
            left.pop().unwrap()
        };
        back.push(x);
        proof {
            let l1 = views(left@);
            let r1 = views(right@);
            let b1 = views(back@);
            assert(b1 == b.push(x@));
            if from_right {
                assert(l1 == l);
                assert(r1 == r.drop_last() && r.last() == x@);
                assert(r == r1.push(x@));
                if l.len() > 0 {
                    lemma_lex_asymmetric(l.last(), x@);
                }
                if r1.len() > 0 {
                    assert(!lex_less(r[r.len() - 1], r[r.len() - 2]));
                }
                assert(l1 + r1 + b1 == (l + r1 + b).push(x@));
                vstd::seq_lib::to_multiset_build(l + r1 + b, x@);
                vstd::seq_lib::to_multiset_build(l + r1, x@);
                vstd::seq_lib::lemma_multiset_commutative(l + r, b);
                vstd::seq_lib::lemma_multiset_commutative(l + r1, b);
                assert(l + r == (l + r1).push(x@));
                assert((l1 + r1 + b1).to_multiset() =~= (l + r + b).to_multiset());
            } else {
                assert(r1 == r);
                assert(l1 == l.drop_last() && l.last() == x@);
                assert(l == l1.push(x@));
                if l1.len() > 0 {
                    assert(!lex_less(l[l.len() - 1], l[l.len() - 2]));
                }
                assert(l1 + r1 + b1 == (l1 + r + b).push(x@));
                vstd::seq_lib::to_multiset_build(l1 + r + b, x@);
                vstd::seq_lib::to_multiset_build(l1, x@);
                vstd::seq_lib::lemma_multiset_commutative(l, r + b);
                vstd::seq_lib::lemma_multiset_commutative(l1, r + b);
                assert(l + r + b == l + (r + b));
                assert(l1 + r + b == l1 + (r + b));
                assert((l1 + r1 + b1).to_multiset() =~= (l + r + b).to_multiset());
            }
            assert forall|i: int, j: int| 0 <= i < j < b1.len() implies !lex_less(
                #[trigger] b1[i],
                #[trigger] b1[j],
            ) by {
                if j == b.len() {
                    assert(!lex_less(b.last(), x@));
                    if i < b.len() - 1 {
                        assert(!lex_less(b[i], b[b.len() - 1]));
                        lemma_lex_not_less_transitive(b[i], b.last(), x@);
                    }
                } else {
                    assert(!lex_less(b[i], b[j]));
                }
            }
            assert forall|i: int, j: int| 0 <= i < j < l1.len() implies !lex_less(
                #[trigger] l1[j],
                #[trigger] l1[i],
            ) by {
                assert(!lex_less(l[j], l[i]));
            }
            assert forall|i: int, j: int| 0 <= i < j < r1.len() implies !lex_less(
                #[trigger] r1[j],
                #[trigger] r1[i],
            ) by {
                assert(!lex_less(r[j], r[i]));
            }
        }
    }
    assert(views(left@) + views(right@) + views(back@) == views(back@));
    back
}

/// Merges two ascending lists into one.
fn merge(left: Vec<Vec<char>>, right: Vec<Vec<char>>) -> (out: Vec<Vec<char>>)
    requires
        ascending(views(left@)),
        ascending(views(right@)),
    ensures
        ascending(views(out@)),
        views(out@).to_multiset() == (views(left@) + views(right@)).to_multiset(),
{
    let mut back = merge_backwards(left, right);
    let ghost b0 = views(back@);
    let mut out: Vec<Vec<char>> = Vec::new();
    assert(views(back@) + views(out@) == b0);
    while back.len() > 0
        invariant
            descending(views(back@)),
            ascending(views(out@)),
            back.len() > 0 && out.len() > 0 ==> !lex_less(
                views(back@).last(),
                views(out@).last(),
            ),
            (views(back@) + views(out@)).to_multiset() == b0.to_multiset(),
        decreases back.len(),
    {
        let ghost b = views(back@);
        let ghost o = views(out@);
        let x = back.pop().unwrap();
        out.push(x);
        proof {
            let b1 = views(back@);
            let o1 = views(out@);
            assert(b1 == b.drop_last() && b.last() == x@);
            assert(b == b1.push(x@));
            assert(o1 == o.push(x@));
            if b1.len() > 0 {
                assert(!lex_less(b[b.len() - 2], b[b.len() - 1]));
            }
            assert forall|i: int, j: int| 0 <= i < j < b1.len() implies !lex_less(
                #[trigger] b1[i],
                #[trigger] b1[j],
            ) by {
                assert(!lex_less(b[i], b[j]));
            }
            assert forall|i: int, j: int| 0 <= i < j < o1.len() implies !lex_less(
                #[trigger] o1[j],
                #[trigger] o1[i],
            ) by {
                if j == o.len() {
                    if i < o.len() - 1 {
                        assert(!lex_less(o[o.len() - 1], o[i]));
                        lemma_lex_not_less_transitive(x@, o.last(), o[i]);
                    }
                } else {
                    assert(!lex_less(o[j], o[i]));
                }
            }
            assert(b1 + o1 == (b1 + o).push(x@));
            vstd::seq_lib::to_multiset_build(b1 + o, x@);
            vstd::seq_lib::to_multiset_build(b1, x@);
            vstd::seq_lib::lemma_multiset_commutative(b, o);
            vstd::seq_lib::lemma_multiset_commutative(b1, o);
            assert((b1 + o1).to_multiset() =~= (b + o).to_multiset());
        }
    }
    assert(views(back@) + views(out@) == views(out@));
    out
}

/// Sorts names into ascending order, by merging.
pub fn sort(items: Vec<Vec<char>>) -> (out: Vec<Vec<char>>)
    ensures
        ascending(views(out@)),
        views(out@).to_multiset() == views(items@).to_multiset(),
    decreases items.len(),
{
    let n: usize = items.len();
    if n <= 1 {
        return items;
    }
    let ghost all = views(items@);
    let mut left = items;
    let right = left.split_off(n / 2);
    let ghost l = views(left@);
    let ghost r = views(right@);
    assert(l + r == all);
    let left = sort(left);
    let right = sort(right);
    proof {
        vstd::seq_lib::lemma_multiset_commutative(l, r);
        vstd::seq_lib::lemma_multiset_commutative(views(left@), views(right@));
    }
    merge(left, right)
}

/// A list that is not empty keeps its last item when repetitions go.
pub proof fn lemma_deduplicated_last(s: Seq<Seq<char>>)
    requires
        s.len() > 0,
    ensures
        deduplicated(s).len() > 0,
        deduplicated(s).last() == s.last(),
    decreases s.len(),
{
    if s.len() > 1 && s.last() == s[s.len() - 2] {
        lemma_deduplicated_last(s.drop_last());
    }
}

/// Removes each name that equals the one just before it.
pub fn dedup(items: Vec<Vec<char>>) -> (out: Vec<Vec<char>>)
    ensures
        views(out@) == deduplicated(views(items@)),
{
    let ghost all = views(items@);
    let mut out: Vec<Vec<char>> = Vec::new();
    for x in it: items
        invariant
            views(it.seq()) == all,
            views(out@) == deduplicated(all.take(it.index() as int)),
    {
        let ghost k = it.index() as int;
        proof {
            assert(all.take(k + 1).drop_last() =~= all.take(k));
            assert(all.take(k + 1).last() == x@);
            if k > 0 {
                lemma_deduplicated_last(all.take(k));
                assert(all.take(k).last() == all.take(k + 1)[k - 1]);
            }
        }
        let n: usize = out.len();
        if n == 0 || !same(&out[n - 1], &x) {
            out.push(x);
            assert(views(out@) =~= deduplicated(all.take(k + 1)));
        }
    }
    assert(all.take(all.len() as int) =~= all);
    out
}

/// A strictly ascending list holds nothing twice.
pub proof fn lemma_strictly_ascending_distinct(s: Seq<Seq<char>>)
    requires
        strictly_ascending(s),
    ensures
        s.no_duplicates(),
{
    assert forall|i: int, j: int| 0 <= i < s.len() && 0 <= j < s.len() && i != j implies s[i]
        != s[j] by {
        if i < j {
            lemma_lex_irreflexive(s[i]);
        } else {
            lemma_lex_irreflexive(s[j]);
        }
    }
}

/// In an ascending list equal names stand side by side, so that removing
/// each name that repeats the one before it leaves a strictly ascending list
/// of the same names.
pub proof fn lemma_deduplicated_ascending(s: Seq<Seq<char>>)
    requires
        ascending(s),
    ensures
        strictly_ascending(deduplicated(s)),
        deduplicated(s).to_set() == s.to_set(),
    decreases s.len(),
{
    if s.len() > 1 {
        let p = s.drop_last();
        let d = deduplicated(p);
        let last = s.last();
        assert forall|i: int, j: int| 0 <= i < j < p.len() implies !lex_less(
            #[trigger] p[j],
            #[trigger] p[i],
        ) by {
            assert(!lex_less(s[j], s[i]));
        }
        lemma_deduplicated_ascending(p);
        lemma_deduplicated_last(p);
        assert(s =~= p.push(last));
        p.lemma_push_to_set_commute(last);
        if last == s[s.len() - 2] {
            assert(p.contains(p.last()));
            assert(p.to_set().insert(last) =~= p.to_set());
        } else {
            d.lemma_push_to_set_commute(last);
            let e = d.push(last);
            assert(!lex_less(s[s.len() - 1], s[s.len() - 2]));
            lemma_lex_total(d.last(), last);
            assert forall|i: int, j: int| 0 <= i < j < e.len() implies lex_less(
                #[trigger] e[i],
                #[trigger] e[j],
            ) by {
                if j < d.len() {
                    assert(lex_less(d[i], d[j]));
                } else if i < d.len() - 1 {
                    assert(lex_less(d[i], d[d.len() - 1]));
                    lemma_lex_transitive(d[i], d.last(), last);
                }
            }
        }
    }
}

/// There is one strictly ascending list of given names: two such lists that
/// hold the same names are the same list.
pub proof fn lemma_strictly_ascending_unique(a: Seq<Seq<char>>, b: Seq<Seq<char>>)
    requires
        strictly_ascending(a),
        strictly_ascending(b),
        a.to_set() == b.to_set(),
    ensures
        a == b,
    decreases a.len(),
{
    if a.len() == 0 || b.len() == 0 {
        if a.len() > 0 {
            assert(a.contains(a[0]));
            assert(b.to_set().contains(a[0]));
        }
        if b.len() > 0 {
            assert(b.contains(b[0]));
            assert(a.to_set().contains(b[0]));
        }
        assert(a =~= b);
    } else {
        let x = a.last();
        let y = b.last();
        assert(a.contains(x) && b.contains(y));
        assert(b.to_set().contains(x) && a.to_set().contains(y));
        let kx = choose|k: int| 0 <= k < b.len() && b[k] == x;
        let ky = choose|k: int| 0 <= k < a.len() && a[k] == y;
        if x != y {
            assert(lex_less(b[kx], b[b.len() - 1]));
            assert(lex_less(a[ky], a[a.len() - 1]));
            lemma_lex_asymmetric(x, y);
        }
        let p = a.drop_last();
        let q = b.drop_last();
        assert forall|v: Seq<char>| p.contains(v) implies q.contains(v) by {
            let i = choose|i: int| 0 <= i < p.len() && p[i] == v;
            assert(lex_less(a[i], a[a.len() - 1]));
            lemma_lex_irreflexive(x);
            assert(a.contains(v));
            assert(b.to_set().contains(v));
            let k = choose|k: int| 0 <= k < b.len() && b[k] == v;
            assert(q[k] == v);
        }
        assert forall|v: Seq<char>| q.contains(v) implies p.contains(v) by {
            let i = choose|i: int| 0 <= i < q.len() && q[i] == v;
            assert(lex_less(b[i], b[b.len() - 1]));
            lemma_lex_irreflexive(y);
            assert(b.contains(v));
            assert(a.to_set().contains(v));
            let k = choose|k: int| 0 <= k < a.len() && a[k] == v;
            assert(p[k] == v);
        }
        assert(p.to_set() =~= q.to_set());
        assert forall|i: int, j: int| 0 <= i < j < p.len() implies lex_less(
            #[trigger] p[i],
            #[trigger] p[j],
        ) by {
            assert(lex_less(a[i], a[j]));
        }
        assert forall|i: int, j: int| 0 <= i < j < q.len() implies lex_less(
            #[trigger] q[i],
            #[trigger] q[j],
        ) by {
            assert(lex_less(b[i], b[j]));
        }
        lemma_strictly_ascending_unique(p, q);
        assert(a =~= p.push(x));
        assert(b =~= q.push(y));
    }
}

/// Removing repetitions makes no list longer.
pub proof fn lemma_deduplicated_length(s: Seq<Seq<char>>)
    ensures
        deduplicated(s).len() <= s.len(),
    decreases s.len(),
{
    if s.len() > 1 {
        lemma_deduplicated_length(s.drop_last());
    }
}

/// Sorts names and removes the repetitions: the result is the strictly
/// ascending list of the names that `items` holds.
pub fn sorted_distinct(items: Vec<Vec<char>>) -> (out: Vec<Vec<char>>)
    ensures
        strictly_ascending(views(out@)),
        views(out@).to_set() == views(items@).to_set(),
        out.len() <= items.len(),
{
    let ghost all = views(items@);
    let sorted = sort(items);
    let ghost mid = views(sorted@);
    let out = dedup(sorted);
    proof {
        lemma_deduplicated_ascending(mid);
        assert forall|v: Seq<char>| mid.contains(v) <==> all.contains(v) by {
            vstd::seq_lib::to_multiset_contains(mid, v);
            vstd::seq_lib::to_multiset_contains(all, v);
        }
        assert(mid.to_set() =~= all.to_set());
        lemma_deduplicated_length(mid);
        vstd::seq_lib::to_multiset_len(mid);
        vstd::seq_lib::to_multiset_len(all);
    }
    out
}

} // verus!
