//! Mathematical model of a parent-pointer forest.
//!
//! A forest is a sequence `s` of parent pointers: `s[i] == i` marks `i` as a
//! root. `repr(s, i)` is the canonical representative of `i`'s group — the
//! root reached by following parent pointers. The lemmas here say how the
//! representatives, the root flags and the root counts change under the three
//! updates the library performs: redirecting a node to its representative
//! (path compression), linking one root under another (a merge), and
//! appending fresh self-rooted indices (growth), plus how a contiguous
//! window of a forest behaves as a forest of its own.

use vstd::prelude::*;

verus! {

/// Every stored parent pointer is an index of the forest.
pub open spec fn in_bounds(s: Seq<int>) -> bool {
    forall|i: int| 0 <= i < s.len() ==> 0 <= #[trigger] s[i] < s.len()
}

/// Following parent pointers from `i` meets a self-loop within `d` steps.
pub open spec fn rooted(s: Seq<int>, i: int, d: nat) -> bool
    decreases d,
{
    if s[i] == i {
        true
    } else if d == 0 {
        false
    } else {
        rooted(s, s[i], (d - 1) as nat)
    }
}

/// The index reached from `i` after following parent pointers for at most
/// `d` steps, stopping at a self-loop.
pub open spec fn chase(s: Seq<int>, i: int, d: nat) -> int
    decreases d,
{
    if s[i] == i {
        i
    } else if d == 0 {
        i
    } else {
        chase(s, s[i], (d - 1) as nat)
    }
}

/// Some fuel suffices to reach a root from `i`.
pub open spec fn reaches_root(s: Seq<int>, i: int) -> bool {
    exists|d: nat| rooted(s, i, d)
}

/// A well-formed forest: all pointers in bounds, and every chain reaches a
/// root — there is no cycle except the self-loop at each root.
pub open spec fn wf(s: Seq<int>) -> bool {
    &&& in_bounds(s)
    &&& forall|i: int| 0 <= i < s.len() ==> #[trigger] reaches_root(s, i)
}

/// The canonical representative (root) of `i`'s group.
pub open spec fn repr(s: Seq<int>, i: int) -> int {
    chase(s, i, choose|d: nat| rooted(s, i, d))
}

/// How many roots lie in the index range `[lo, hi)`.
pub open spec fn roots_in(s: Seq<int>, lo: int, hi: int) -> nat
    decreases hi - lo,
{
    if hi <= lo {
        0
    } else {
        roots_in(s, lo, hi - 1) + (if s[hi - 1] == hi - 1 {
            1nat
        } else {
            0nat
        })
    }
}

/// How many roots the whole forest has: its number of groups.
pub open spec fn roots_total(s: Seq<int>) -> nat {
    roots_in(s, 0, s.len() as int)
}

/// The window `[lo, hi)` is closed under the parent relation: every parent
/// pointer inside it stays inside it.
pub open spec fn window_closed(s: Seq<int>, lo: int, hi: int) -> bool {
    forall|g: int| lo <= g < hi ==> lo <= #[trigger] s[g] < hi
}

/// The window `[lo, hi)` of `s`, re-based so that its first index is 0.
pub open spec fn window(s: Seq<int>, lo: int, hi: int) -> Seq<int> {
    Seq::new((hi - lo) as nat, |j: int| s[lo + j] - lo)
}

/// Once a chain is rooted, more fuel changes nothing.
pub proof fn lemma_rooted_mono(s: Seq<int>, i: int, d1: nat, d2: nat)
    requires
        rooted(s, i, d1),
        d1 <= d2,
    ensures
        rooted(s, i, d2),
        chase(s, i, d2) == chase(s, i, d1),
    decreases d1,
{
    if s[i] == i {
    } else {
        lemma_rooted_mono(s, s[i], (d1 - 1) as nat, (d2 - 1) as nat);
    }
}

/// Any two sufficient fuels chase to the same root.
pub proof fn lemma_chase_agrees(s: Seq<int>, i: int, d1: nat, d2: nat)
    requires
        rooted(s, i, d1),
        rooted(s, i, d2),
    ensures
        chase(s, i, d1) == chase(s, i, d2),
{
    if d1 <= d2 {
        lemma_rooted_mono(s, i, d1, d2);
    } else {
        lemma_rooted_mono(s, i, d2, d1);
    }
}

/// `repr` agrees with `chase` at any fuel that suffices.
pub proof fn lemma_repr_chase(s: Seq<int>, i: int, d: nat)
    requires
        rooted(s, i, d),
    ensures
        repr(s, i) == chase(s, i, d),
{
    let d0 = choose|dd: nat| rooted(s, i, dd);
    assert(rooted(s, i, d));
    lemma_chase_agrees(s, i, d0, d);
}

/// Chasing a rooted chain lands on a root, within bounds.
pub proof fn lemma_chase_props(s: Seq<int>, i: int, d: nat)
    requires
        in_bounds(s),
        0 <= i < s.len(),
        rooted(s, i, d),
    ensures
        0 <= chase(s, i, d) < s.len(),
        s[chase(s, i, d)] == chase(s, i, d),
    decreases d,
{
    if s[i] == i {
    } else {
        lemma_chase_props(s, s[i], (d - 1) as nat);
    }
}

/// The representative is a root of the forest.
pub proof fn lemma_repr_props(s: Seq<int>, i: int)
    requires
        wf(s),
        0 <= i < s.len(),
    ensures
        0 <= repr(s, i) < s.len(),
        s[repr(s, i)] == repr(s, i),
{
    assert(reaches_root(s, i));
    let d = choose|d: nat| rooted(s, i, d);
    lemma_chase_props(s, i, d);
}

/// One step along a parent pointer keeps the representative.
pub proof fn lemma_repr_step(s: Seq<int>, i: int)
    requires
        wf(s),
        0 <= i < s.len(),
    ensures
        s[i] == i ==> repr(s, i) == i,
        s[i] != i ==> repr(s, i) == repr(s, s[i]),
{
    assert(reaches_root(s, i));
    let d = choose|d: nat| rooted(s, i, d);
    assert(rooted(s, i, d));
    if s[i] == i {
        lemma_repr_chase(s, i, 0);
    } else {
        lemma_repr_chase(s, i, d);
        lemma_repr_chase(s, s[i], (d - 1) as nat);
    }
}

/// An index is its own representative exactly when its parent pointer is a
/// self-loop: the direct root check agrees with `find(v) == v`.
pub proof fn lemma_repr_self(s: Seq<int>, i: int)
    requires
        wf(s),
        0 <= i < s.len(),
    ensures
        (repr(s, i) == i) <==> (s[i] == i),
{
    lemma_repr_props(s, i);
    lemma_repr_step(s, i);
}

/// Idempotence law: a representative is its own representative, so
/// `find(find(v)) == find(v)` for every index of a well-formed forest.
pub proof fn lemma_repr_idempotent(s: Seq<int>, i: int)
    requires
        wf(s),
        0 <= i < s.len(),
    ensures
        repr(s, repr(s, i)) == repr(s, i),
{
    lemma_repr_props(s, i);
    lemma_repr_chase(s, repr(s, i), 0);
}

/// Root counts depend only on the root flags of the counted range.
pub proof fn lemma_roots_in_same_flags(s1: Seq<int>, s2: Seq<int>, lo: int, hi: int)
    requires
        forall|j: int| lo <= j < hi ==> ((#[trigger] s1[j] == j) <==> s2[j] == j),
    ensures
        roots_in(s1, lo, hi) == roots_in(s2, lo, hi),
    decreases hi - lo,
{
    if hi > lo {
        lemma_roots_in_same_flags(s1, s2, lo, hi - 1);
    }
}

/// How one pointer update moves a root count: the flag at the updated index
/// may flip, nothing else changes.
pub proof fn lemma_roots_in_update(s: Seq<int>, p: int, x: int, lo: int, hi: int)
    requires
        0 <= p < s.len(),
        0 <= lo,
        hi <= s.len(),
    ensures
        roots_in(s.update(p, x), lo, hi) as int == roots_in(s, lo, hi) + (if lo <= p < hi && x
            == p {
            1int
        } else {
            0int
        }) - (if lo <= p < hi && s[p] == p {
            1int
        } else {
            0int
        }),
    decreases hi - lo,
{
    if hi > lo {
        lemma_roots_in_update(s, p, x, lo, hi - 1);
    }
}

/// A range holding a root counts at least one.
pub proof fn lemma_roots_in_at_least(s: Seq<int>, lo: int, hi: int, p: int)
    requires
        lo <= p < hi,
        s[p] == p,
    ensures
        roots_in(s, lo, hi) >= 1,
    decreases hi - lo,
{
    if p < hi - 1 {
        lemma_roots_in_at_least(s, lo, hi - 1, p);
    }
}

/// Root counts add up over adjacent ranges.
pub proof fn lemma_roots_in_split(s: Seq<int>, lo: int, mid: int, hi: int)
    requires
        lo <= mid <= hi,
    ensures
        roots_in(s, lo, hi) == roots_in(s, lo, mid) + roots_in(s, mid, hi),
    decreases hi - mid,
{
    if hi > mid {
        lemma_roots_in_split(s, lo, mid, hi - 1);
    }
}

/// A range holding two distinct roots counts at least two.
pub proof fn lemma_roots_in_two(s: Seq<int>, lo: int, hi: int, p: int, q: int)
    requires
        lo <= p < hi,
        lo <= q < hi,
        p != q,
        s[p] == p,
        s[q] == q,
    ensures
        roots_in(s, lo, hi) >= 2,
{
    let a = if p < q { p } else { q };
    let b = if p < q { q } else { p };
    lemma_roots_in_split(s, lo, b, hi);
    lemma_roots_in_at_least(s, lo, b, a);
    lemma_roots_in_at_least(s, b, hi, b);
}

/// A range of nothing but roots counts its whole width.
pub proof fn lemma_roots_in_all(s: Seq<int>, lo: int, hi: int)
    requires
        lo <= hi,
        forall|j: int| lo <= j < hi ==> #[trigger] s[j] == j,
    ensures
        roots_in(s, lo, hi) == hi - lo,
    decreases hi - lo,
{
    if hi > lo {
        lemma_roots_in_all(s, lo, hi - 1);
    }
}

/// A root count never exceeds the width of its range.
pub proof fn lemma_roots_in_le(s: Seq<int>, lo: int, hi: int)
    requires
        lo <= hi,
    ensures
        roots_in(s, lo, hi) <= hi - lo,
    decreases hi - lo,
{
    if hi > lo {
        lemma_roots_in_le(s, lo, hi - 1);
    }
}

/// Shifted ranges with the same flags count the same roots.
pub proof fn lemma_roots_in_shift(w: Seq<int>, s: Seq<int>, lo: int, k: int)
    requires
        0 <= k,
        forall|j: int| 0 <= j < k ==> ((#[trigger] w[j] == j) <==> s[lo + j] == lo + j),
    ensures
        roots_in(w, 0, k) == roots_in(s, lo, lo + k),
    decreases k,
{
    if k > 0 {
        lemma_roots_in_shift(w, s, lo, k - 1);
        assert(w[k - 1] == k - 1 <==> s[lo + (k - 1)] == lo + (k - 1));
    }
}

/// Redirecting `v` to its representative leaves every chain rooted, with the
/// same destination.
proof fn lemma_compress_pointwise(s: Seq<int>, v: int, i: int, d: nat)
    requires
        in_bounds(s),
        0 <= v < s.len(),
        0 <= i < s.len(),
        reaches_root(s, v),
        rooted(s, i, d),
    ensures
        rooted(s.update(v, repr(s, v)), i, d),
        chase(s.update(v, repr(s, v)), i, d) == chase(s, i, d),
    decreases d,
{
    let r = repr(s, v);
    let s2 = s.update(v, r);
    let dv = choose|dd: nat| rooted(s, v, dd);
    lemma_repr_chase(s, v, dv);
    lemma_chase_props(s, v, dv);
    assert(s[r] == r);
    if i == v {
        if s[v] == v {
            lemma_repr_chase(s, v, 0);
            assert(r == v);
            assert(s2[v] == v);
        } else {
            lemma_repr_chase(s, v, d);
            assert(r == chase(s, v, d));
            assert(r != v);
            assert(d > 0);
            assert(s2[v] == r && s2[r] == r);
            assert(rooted(s2, r, (d - 1) as nat));
            assert(chase(s2, r, (d - 1) as nat) == r);
            assert(rooted(s2, v, d));
            assert(chase(s2, v, d) == r);
        }
    } else {
        assert(s2[i] == s[i]);
        if s[i] == i {
        } else {
            lemma_compress_pointwise(s, v, s[i], (d - 1) as nat);
            assert(rooted(s2, i, d));
            assert(chase(s2, i, d) == chase(s2, s[i], (d - 1) as nat));
        }
    }
}

/// Path compression: redirecting one node to its representative preserves
/// well-formedness, every representative, every root flag, and so the group
/// count.
pub proof fn lemma_compress_update(s: Seq<int>, v: int)
    requires
        wf(s),
        0 <= v < s.len(),
    ensures
        ({
            let s2 = s.update(v, repr(s, v));
            &&& wf(s2)
            &&& forall|i: int| 0 <= i < s.len() ==> repr(s2, i) == repr(s, i)
            &&& forall|i: int| 0 <= i < s.len() ==> ((#[trigger] s2[i] == i) <==> s[i] == i)
            &&& roots_total(s2) == roots_total(s)
        }),
{
    let r = repr(s, v);
    let s2 = s.update(v, r);
    lemma_repr_props(s, v);
    lemma_repr_self(s, v);
    assert forall|i: int| 0 <= i < s.len() implies reaches_root(s2, i) && repr(s2, i) == repr(
        s,
        i,
    ) by {
        assert(reaches_root(s, i));
        let d = choose|dd: nat| rooted(s, i, dd);
        lemma_compress_pointwise(s, v, i, d);
        lemma_repr_chase(s2, i, d);
        lemma_repr_chase(s, i, d);
    }
    lemma_roots_in_same_flags(s2, s, 0, s.len() as int);
}

/// Linking root `rv` under root `rt` keeps every chain rooted; destinations
/// in `rv`'s group move to `rt`, all others stay.
proof fn lemma_link_pointwise(s: Seq<int>, rv: int, rt: int, i: int, d: nat)
    requires
        in_bounds(s),
        0 <= rv < s.len(),
        0 <= rt < s.len(),
        s[rv] == rv,
        s[rt] == rt,
        rv != rt,
        0 <= i < s.len(),
        rooted(s, i, d),
    ensures
        rooted(s.update(rv, rt), i, (d + 1) as nat),
        chase(s.update(rv, rt), i, (d + 1) as nat) == (if chase(s, i, d) == rv {
            rt
        } else {
            chase(s, i, d)
        }),
    decreases d,
{
    let s2 = s.update(rv, rt);
    if s[i] == i {
        if i == rv {
            assert(s2[rv] == rt && s2[rt] == rt);
            assert(rooted(s2, rt, d));
            assert(chase(s2, rt, d) == rt);
            assert(rooted(s2, rv, (d + 1) as nat));
            assert(chase(s2, rv, (d + 1) as nat) == rt);
            assert(chase(s, i, d) == rv);
        } else {
            assert(s2[i] == i);
            assert(chase(s2, i, (d + 1) as nat) == i);
            assert(chase(s, i, d) == i);
        }
    } else {
        assert(i != rv);
        assert(s2[i] == s[i]);
        lemma_link_pointwise(s, rv, rt, s[i], (d - 1) as nat);
        assert(rooted(s2, i, (d + 1) as nat));
        assert(chase(s2, i, (d + 1) as nat) == chase(s2, s[i], d));
        assert(chase(s, i, d) == chase(s, s[i], (d - 1) as nat));
    }
}

/// A merge: linking root `rv` under root `rt` preserves well-formedness,
/// redirects exactly the group of `rv` to `rt`, unroots `rv` alone, and
/// lowers the group count by exactly one.
pub proof fn lemma_link_update(s: Seq<int>, rv: int, rt: int)
    requires
        wf(s),
        0 <= rv < s.len(),
        0 <= rt < s.len(),
        s[rv] == rv,
        s[rt] == rt,
        rv != rt,
    ensures
        ({
            let s2 = s.update(rv, rt);
            &&& wf(s2)
            &&& forall|i: int|
                0 <= i < s.len() ==> repr(s2, i) == (if repr(s, i) == rv {
                    rt
                } else {
                    repr(s, i)
                })
            &&& forall|i: int|
                0 <= i < s.len() ==> ((#[trigger] s2[i] == i) <==> (s[i] == i && i != rv))
            &&& roots_total(s2) + 1 == roots_total(s)
        }),
{
    let s2 = s.update(rv, rt);
    assert forall|i: int| 0 <= i < s.len() implies reaches_root(s2, i) && repr(s2, i) == (if repr(
        s,
        i,
    ) == rv {
        rt
    } else {
        repr(s, i)
    }) by {
        assert(reaches_root(s, i));
        let d = choose|dd: nat| rooted(s, i, dd);
        lemma_link_pointwise(s, rv, rt, i, d);
        lemma_repr_chase(s2, i, (d + 1) as nat);
        lemma_repr_chase(s, i, d);
    }
    lemma_roots_in_update(s, rv, rt, 0, s.len() as int);
    lemma_roots_in_at_least(s, 0, s.len() as int, rv);
}

/// Old chains are untouched by appending new indices.
proof fn lemma_extend_pointwise(s: Seq<int>, s2: Seq<int>, i: int, d: nat)
    requires
        in_bounds(s),
        s2.len() >= s.len(),
        forall|j: int| 0 <= j < s.len() ==> s2[j] == #[trigger] s[j],
        0 <= i < s.len(),
        rooted(s, i, d),
    ensures
        rooted(s2, i, d),
        chase(s2, i, d) == chase(s, i, d),
    decreases d,
{
    if s[i] == i {
    } else {
        lemma_extend_pointwise(s, s2, s[i], (d - 1) as nat);
    }
}

/// Growth: appending fresh self-rooted indices preserves well-formedness and
/// every old representative; each new index is its own group, so the group
/// count rises by the number appended.
pub proof fn lemma_extend(s: Seq<int>, s2: Seq<int>)
    requires
        wf(s),
        s2.len() >= s.len(),
        forall|j: int| 0 <= j < s.len() ==> s2[j] == #[trigger] s[j],
        forall|j: int| s.len() <= j < s2.len() ==> #[trigger] s2[j] == j,
    ensures
        wf(s2),
        forall|i: int| 0 <= i < s.len() ==> repr(s2, i) == repr(s, i),
        forall|i: int| s.len() <= i < s2.len() ==> repr(s2, i) == i,
        roots_total(s2) == roots_total(s) + (s2.len() - s.len()),
{
    assert forall|i: int| 0 <= i < s2.len() implies 0 <= #[trigger] s2[i] < s2.len() by {
        if i < s.len() {
            assert(s2[i] == s[i]);
            assert(0 <= s[i] < s.len());
        }
    }
    assert forall|i: int| 0 <= i < s2.len() implies reaches_root(s2, i) by {
        if i < s.len() {
            assert(reaches_root(s, i));
            let d = choose|dd: nat| rooted(s, i, dd);
            lemma_extend_pointwise(s, s2, i, d);
        } else {
            assert(rooted(s2, i, 0));
        }
    }
    assert forall|i: int| 0 <= i < s.len() implies repr(s2, i) == repr(s, i) by {
        assert(reaches_root(s, i));
        let d = choose|dd: nat| rooted(s, i, dd);
        lemma_extend_pointwise(s, s2, i, d);
        lemma_repr_chase(s2, i, d);
        lemma_repr_chase(s, i, d);
    }
    assert forall|i: int| s.len() <= i < s2.len() implies repr(s2, i) == i by {
        lemma_repr_chase(s2, i, 0);
    }
    lemma_roots_in_split(s2, 0, s.len() as int, s2.len() as int);
    lemma_roots_in_same_flags(s2, s, 0, s.len() as int);
    lemma_roots_in_all(s2, s.len() as int, s2.len() as int);
}

/// Inside a closed window, chains re-based to the window chase the same way.
proof fn lemma_window_pointwise(s: Seq<int>, lo: int, hi: int, g: int, d: nat)
    requires
        0 <= lo <= hi <= s.len(),
        window_closed(s, lo, hi),
        lo <= g < hi,
        rooted(s, g, d),
    ensures
        rooted(window(s, lo, hi), g - lo, d),
        chase(window(s, lo, hi), g - lo, d) == chase(s, g, d) - lo,
    decreases d,
{
    if s[g] == g {
    } else {
        lemma_window_pointwise(s, lo, hi, s[g], (d - 1) as nat);
    }
}

/// A closed window of a well-formed forest is a well-formed forest of its
/// own: representatives, root flags and root counts carry over, re-based to
/// the window, and every representative of a window element stays inside
/// the window.
pub proof fn lemma_window_model(s: Seq<int>, lo: int, hi: int)
    requires
        wf(s),
        0 <= lo <= hi <= s.len(),
        window_closed(s, lo, hi),
    ensures
        ({
            let w = window(s, lo, hi);
            &&& wf(w)
            &&& forall|j: int| 0 <= j < hi - lo ==> repr(w, j) == repr(s, lo + j) - lo
            &&& forall|j: int| 0 <= j < hi - lo ==> ((#[trigger] w[j] == j) <==> s[lo + j] == lo + j)
            &&& roots_total(w) == roots_in(s, lo, hi)
            &&& forall|g: int| lo <= g < hi ==> lo <= #[trigger] repr(s, g) < hi
        }),
{
    let w = window(s, lo, hi);
    assert forall|j: int| 0 <= j < hi - lo implies reaches_root(w, j) && repr(w, j) == repr(
        s,
        lo + j,
    ) - lo by {
        let g = lo + j;
        assert(reaches_root(s, g));
        let d = choose|dd: nat| rooted(s, g, dd);
        lemma_window_pointwise(s, lo, hi, g, d);
        lemma_repr_chase(w, j, d);
        lemma_repr_chase(s, g, d);
    }
    assert forall|g: int| lo <= g < hi implies lo <= #[trigger] repr(s, g) < hi by {
        lemma_repr_props(w, g - lo);
    }
    lemma_roots_in_shift(w, s, lo, hi - lo);
}

} // verus!
