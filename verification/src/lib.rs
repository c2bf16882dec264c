//! Disjoint-set (union-find) forests over a fixed universe of indices.
//!
//! The library tracks a partition of `0..capacity` into disjoint groups,
//! merges two groups on request, and answers "same group?" queries through
//! path-compressed parent-pointer forests. Variants: a platform-width owned
//! forest, a memory-dense `u32` forest, an owned checkout of a contiguous
//! sub-range, and an atomically stored forest.

use core::ops::Range;
use vstd::prelude::*;

pub mod atomic;
pub mod model;

pub use atomic::UnionFind as AtomicUnionFind;

use crate::model::lemma_compress_update;
use crate::model::lemma_extend;
use crate::model::lemma_link_update;
use crate::model::lemma_repr_chase;
use crate::model::lemma_repr_props;
use crate::model::lemma_repr_self;
use crate::model::lemma_roots_in_all;
use crate::model::lemma_roots_in_le;
use crate::model::lemma_roots_in_two;
use crate::model::lemma_roots_in_update;
use crate::model::lemma_window_model;
use crate::model::chase;
use crate::model::reaches_root;
use crate::model::repr;
use crate::model::rooted;
use crate::model::roots_in;
use crate::model::roots_total;
use crate::model::wf;
use crate::model::window;
use crate::model::window_closed;

verus! {

/// A disjoint-set forest over indices `0..capacity`, owned and sequential.
///
/// `ptrs[i]` is the parent pointer of `i`; a self-loop marks a root, the
/// canonical representative of its group. `len` is the number of groups.
/// The index type is either platform-width (`usize`) or dense 32-bit
/// (`u32`); behaviour differs only in the overflow bound on growth.
#[derive(Debug, Clone, PartialEq, Eq)]
pub struct UnionFind<T> {
    ptrs: Vec<T>,
    len: usize,
}

impl<T> UnionFind<T> {
    /// Number of elements the forest covers.
    pub closed spec fn spec_capacity(&self) -> nat {
        self.ptrs@.len()
    }

    /// The stored group count.
    pub closed spec fn spec_len(&self) -> nat {
        self.len as nat
    }

    /// Number of elements the forest covers.
    pub fn capacity(&self) -> (r: usize)
        ensures
            r == self.spec_capacity(),
    {
        self.ptrs.len()
    }

    /// Current number of groups.
    pub fn curr_len(&self) -> (r: usize)
        ensures
            r == self.spec_len(),
    {
        self.len
    }
}

impl View for UnionFind<usize> {
    type V = Seq<int>;

    closed spec fn view(&self) -> Seq<int> {
        self.ptrs@.map_values(|x: usize| x as int)
    }
}

impl UnionFind<usize> {
    /// Structural invariant: a well-formed forest whose stored group count
    /// equals its number of roots.
    pub closed spec fn inv(&self) -> bool {
        &&& wf(self@)
        &&& self.spec_len() == roots_total(self@)
    }

    /// Builds a forest of `size` singleton groups.
    pub fn new(size: usize) -> (r: Self)
        ensures
            r.inv(),
            r.spec_capacity() == size,
            r.spec_len() == size,
            forall|i: int| 0 <= i < size ==> r@[i] == i,
    {
        let mut ptrs: Vec<usize> = Vec::new();
        let mut i: usize = 0;
        while i < size
            invariant
                i <= size,
                ptrs@.len() == i,
                forall|j: int| 0 <= j < i ==> ptrs@[j] == j,
            decreases size - i,
        {
            ptrs.push(i);
            i += 1;
        }
        let r = UnionFind { ptrs, len: size };
        proof {
            assert forall|j: int| 0 <= j < size implies reaches_root(r@, j) by {
                assert(rooted(r@, j, 0));
            }
            lemma_roots_in_all(r@, 0, size as int);
        }
        r
    }

    /// Pure query: follows parent pointers from `v` to its group's root and
    /// returns it, changing nothing.
    pub fn get(&self, v: usize) -> (r: usize)
        requires
            self.inv(),
            v < self.spec_capacity(),
        ensures
            r as int == repr(self@, v as int),
            r < self.spec_capacity(),
    {
        let ghost s = self@;
        let mut cur: usize = v;
        proof {
            assert(reaches_root(s, v as int));
        }
        let ghost mut d: nat = choose|d: nat| rooted(s, v as int, d);
        proof {
            lemma_repr_chase(s, v as int, d);
        }
        let mut n: usize = self.ptrs[v];
        while n != cur
            invariant
                self.inv(),
                s == self@,
                cur < self.spec_capacity(),
                n as int == s[cur as int],
                n < self.spec_capacity(),
                rooted(s, cur as int, d),
                chase(s, cur as int, d) == repr(s, v as int),
            decreases d,
        {
            proof {
                assert(d > 0);
                d = (d - 1) as nat;
            }
            cur = n;
            n = self.ptrs[cur];
            proof {
                assert(s[cur as int] == self.ptrs@[cur as int] as int);
                assert(0 <= s[cur as int] < s.len());
            }
        }
        cur
    }

    /// Compressing query: finds the root of `v` as `get` does, then
    /// redirects `v` itself — and only `v` — straight to that root.
    pub fn get_compress(&mut self, v: usize) -> (r: usize)
        requires
            old(self).inv(),
            v < old(self).spec_capacity(),
        ensures
            final(self).inv(),
            r as int == repr(old(self)@, v as int),
            r < old(self).spec_capacity(),
            final(self)@ == old(self)@.update(v as int, r as int),
            final(self).spec_capacity() == old(self).spec_capacity(),
            final(self).spec_len() == old(self).spec_len(),
            forall|i: int|
                0 <= i < old(self)@.len() ==> repr(final(self)@, i) == repr(old(self)@, i),
            forall|i: int|
                0 <= i < old(self)@.len() ==> ((#[trigger] final(self)@[i] == i) <==> old(
                    self,
                )@[i] == i),
    {
        let dst = self.get(v);
        self.ptrs[v] = dst;
        proof {
            assert(self@ =~= old(self)@.update(v as int, dst as int));
            lemma_compress_update(old(self)@, v as int);
        }
        dst
    }

    /// Merge: the root of `v`'s group is attached under the root of `to`'s
    /// group, so the merged group keeps `to`'s representative. A request
    /// within one group changes no group. Both queried nodes are compressed
    /// on the way.
    pub fn set(&mut self, v: usize, to: usize)
        requires
            old(self).inv(),
            v < old(self).spec_capacity(),
            to < old(self).spec_capacity(),
        ensures
            final(self).inv(),
            final(self).spec_capacity() == old(self).spec_capacity(),
            forall|i: int|
                0 <= i < old(self)@.len() ==> repr(final(self)@, i) == (if repr(old(self)@, i)
                    == repr(old(self)@, v as int) {
                    repr(old(self)@, to as int)
                } else {
                    repr(old(self)@, i)
                }),
            repr(final(self)@, v as int) == repr(old(self)@, to as int),
            repr(final(self)@, to as int) == repr(old(self)@, to as int),
            final(self).spec_len() == (if repr(old(self)@, v as int) == repr(
                old(self)@,
                to as int,
            ) {
                old(self).spec_len()
            } else {
                (old(self).spec_len() - 1) as nat
            }),
            ({
                let s = old(self)@;
                let rt = repr(s, to as int);
                let rv = repr(s, v as int);
                let s2 = s.update(to as int, rt).update(v as int, rv);
                final(self)@ == (if rv == rt {
                    s2
                } else {
                    s2.update(rv, rt)
                })
            }),
    {
        let ghost s = self@;
        let root_to = self.get_compress(to);
        let ghost s1 = self@;
        let root_v = self.get_compress(v);
        let ghost s2 = self@;
        proof {
            lemma_repr_props(s, to as int);
            lemma_repr_props(s, v as int);
        }
        if root_v != root_to {
            proof {
                lemma_roots_in_two(s2, 0, s2.len() as int, root_v as int, root_to as int);
                lemma_link_update(s2, root_v as int, root_to as int);
            }
            self.ptrs[root_v] = root_to;
            self.len = self.len - 1;
            proof {
                assert(self@ =~= s2.update(root_v as int, root_to as int));
            }
        }
    }

    /// Reports whether `v` is a root by reading its parent slot directly;
    /// an index outside the forest is no root.
    pub fn is_root(&self, v: usize) -> (r: bool)
        ensures
            r == (v < self.spec_capacity() && self@[v as int] == v as int),
    {
        if v < self.ptrs.len() {
            self.ptrs[v] == v
        } else {
            false
        }
    }

    /// Maintenance sweep: flattens every chain, so that afterwards each
    /// node's parent pointer is exactly its group's representative. No group
    /// changes and the group count stays.
    pub fn compress(&mut self)
        requires
            old(self).inv(),
        ensures
            final(self).inv(),
            final(self).spec_capacity() == old(self).spec_capacity(),
            final(self).spec_len() == old(self).spec_len(),
            forall|i: int| 0 <= i < old(self)@.len() ==> final(self)@[i] == repr(old(self)@, i),
            forall|i: int|
                0 <= i < old(self)@.len() ==> repr(final(self)@, i) == repr(old(self)@, i),
    {
        let n = self.ptrs.len();
        let mut i: usize = 0;
        while i < n
            invariant
                self.inv(),
                self.spec_capacity() == n,
                n == old(self).spec_capacity(),
                self.spec_len() == old(self).spec_len(),
                forall|k: int| 0 <= k < n ==> repr(self@, k) == repr(old(self)@, k),
                forall|k: int| 0 <= k < i ==> self@[k] == repr(old(self)@, k),
            decreases n - i,
        {
            let ghost before = self@;
            let terminal = self.get(i);
            if terminal != i {
                proof {
                    lemma_repr_props(before, i as int);
                    lemma_repr_self(before, terminal as int);
                }
                self.set(i, terminal);
                proof {
                    assert(before.update(terminal as int, terminal as int) =~= before);
                    assert(self@ =~= before.update(i as int, terminal as int));
                }
            } else {
                proof {
                    lemma_repr_self(before, i as int);
                }
            }
            i += 1;
        }
    }

    /// Growth: appends `n` fresh indices, each its own singleton group, so
    /// capacity and group count both rise by `n`. Existing groups are
    /// untouched.
    pub fn extend_by(&mut self, n: usize)
        requires
            old(self).inv(),
            old(self).spec_capacity() + n <= usize::MAX,
        ensures
            final(self).inv(),
            final(self).spec_capacity() == old(self).spec_capacity() + n,
            final(self).spec_len() == old(self).spec_len() + n,
            forall|i: int| 0 <= i < old(self)@.len() ==> final(self)@[i] == old(self)@[i],
            forall|i: int|
                old(self)@.len() <= i < old(self)@.len() + n ==> #[trigger] final(self)@[i] == i,
            forall|i: int|
                0 <= i < old(self)@.len() ==> repr(final(self)@, i) == repr(old(self)@, i),
            forall|i: int|
                old(self)@.len() <= i < old(self)@.len() + n ==> #[trigger] repr(final(self)@, i)
                    == i,
    {
        let l = self.ptrs.len();
        let mut i: usize = 0;
        while i < n
            invariant
                i <= n,
                l + n <= usize::MAX,
                l == old(self)@.len(),
                self.ptrs@.len() == l + i,
                self.len == old(self).len,
                forall|j: int| 0 <= j < l ==> self@[j] == old(self)@[j],
                forall|j: int| l <= j < l + i ==> #[trigger] self@[j] == j,
            decreases n - i,
        {
            let ghost p = self@;
            self.ptrs.push(l + i);
            proof {
                assert(self@ =~= p.push((l + i) as int));
                assert forall|j: int| l <= j < l + i + 1 implies #[trigger] self@[j] == j by {
                    if j < l + i {
                        assert(self@[j] == p[j]);
                    }
                }
            }
            i += 1;
        }
        proof {
            lemma_extend(old(self)@, self@);
            lemma_roots_in_le(old(self)@, 0, old(self)@.len() as int);
        }
        self.len = self.len + n;
    }
}

impl View for UnionFind<u32> {
    type V = Seq<int>;

    closed spec fn view(&self) -> Seq<int> {
        self.ptrs@.map_values(|x: u32| x as int)
    }
}

impl UnionFind<u32> {
    /// Structural invariant: a well-formed forest, stored group count equal
    /// to the number of roots, and a capacity the narrow index type can
    /// still address.
    pub closed spec fn inv(&self) -> bool {
        &&& wf(self@)
        &&& self.spec_len() == roots_total(self@)
        &&& self.spec_capacity() < u32::MAX as nat
    }

    /// Builds a dense 32-bit-indexed forest of `len` singleton groups.
    pub fn new_u32(len: usize) -> (r: Self)
        requires
            len < u32::MAX as usize,
        ensures
            r.inv(),
            r.spec_capacity() == len,
            r.spec_len() == len,
            forall|i: int| 0 <= i < len ==> r@[i] == i,
    {
        let mut ptrs: Vec<u32> = Vec::new();
        let mut i: usize = 0;
        while i < len
            invariant
                i <= len,
                len < u32::MAX as usize,
                ptrs@.len() == i,
                forall|j: int| 0 <= j < i ==> ptrs@[j] == j,
            decreases len - i,
        {
            ptrs.push(i as u32);
            i += 1;
        }
        let r = UnionFind { ptrs, len };
        proof {
            assert forall|j: int| 0 <= j < len implies reaches_root(r@, j) by {
                assert(rooted(r@, j, 0));
            }
            lemma_roots_in_all(r@, 0, len as int);
        }
        r
    }

    /// Pure query: follows parent pointers from `v` to its group's root and
    /// returns it, changing nothing.
    pub fn get(&self, v: usize) -> (r: usize)
        requires
            self.inv(),
            v < self.spec_capacity(),
        ensures
            r as int == repr(self@, v as int),
            r < self.spec_capacity(),
    {
        let ghost s = self@;
        let mut cur: usize = v;
        proof {
            assert(reaches_root(s, v as int));
        }
        let ghost mut d: nat = choose|d: nat| rooted(s, v as int, d);
        proof {
            lemma_repr_chase(s, v as int, d);
        }
        let mut n: usize = self.ptrs[v] as usize;
        while n != cur
            invariant
                self.inv(),
                s == self@,
                cur < self.spec_capacity(),
                n as int == s[cur as int],
                n < self.spec_capacity(),
                rooted(s, cur as int, d),
                chase(s, cur as int, d) == repr(s, v as int),
            decreases d,
        {
            proof {
                assert(d > 0);
                d = (d - 1) as nat;
            }
            cur = n;
            n = self.ptrs[cur] as usize;
            proof {
                assert(s[cur as int] == self.ptrs@[cur as int] as int);
                assert(0 <= s[cur as int] < s.len());
            }
        }
        cur
    }

    /// Compressing query: finds the root of `v` as `get` does, then
    /// redirects `v` itself — and only `v` — straight to that root.
    pub fn get_compress(&mut self, v: usize) -> (r: usize)
        requires
            old(self).inv(),
            v < old(self).spec_capacity(),
        ensures
            final(self).inv(),
            r as int == repr(old(self)@, v as int),
            r < old(self).spec_capacity(),
            final(self)@ == old(self)@.update(v as int, r as int),
            final(self).spec_capacity() == old(self).spec_capacity(),
            final(self).spec_len() == old(self).spec_len(),
            forall|i: int|
                0 <= i < old(self)@.len() ==> repr(final(self)@, i) == repr(old(self)@, i),
            forall|i: int|
                0 <= i < old(self)@.len() ==> ((#[trigger] final(self)@[i] == i) <==> old(
                    self,
                )@[i] == i),
    {
        let dst = self.get(v);
        self.ptrs[v] = dst as u32;
        proof {
            assert(self@ =~= old(self)@.update(v as int, dst as int));
            lemma_compress_update(old(self)@, v as int);
        }
        dst
    }

    /// Merge: the root of `v`'s group is attached under the root of `to`'s
    /// group, so the merged group keeps `to`'s representative. A request
    /// within one group changes no group. Both queried nodes are compressed
    /// on the way.
    pub fn set(&mut self, v: usize, to: usize)
        requires
            old(self).inv(),
            v < old(self).spec_capacity(),
            to < old(self).spec_capacity(),
        ensures
            final(self).inv(),
            final(self).spec_capacity() == old(self).spec_capacity(),
            forall|i: int|
                0 <= i < old(self)@.len() ==> repr(final(self)@, i) == (if repr(old(self)@, i)
                    == repr(old(self)@, v as int) {
                    repr(old(self)@, to as int)
                } else {
                    repr(old(self)@, i)
                }),
            repr(final(self)@, v as int) == repr(old(self)@, to as int),
            repr(final(self)@, to as int) == repr(old(self)@, to as int),
            final(self).spec_len() == (if repr(old(self)@, v as int) == repr(
                old(self)@,
                to as int,
            ) {
                old(self).spec_len()
            } else {
                (old(self).spec_len() - 1) as nat
            }),
            ({
                let s = old(self)@;
                let rt = repr(s, to as int);
                let rv = repr(s, v as int);
                let s2 = s.update(to as int, rt).update(v as int, rv);
                final(self)@ == (if rv == rt {
                    s2
                } else {
                    s2.update(rv, rt)
                })
            }),
    {
        let ghost s = self@;
        let root_to = self.get_compress(to);
        let root_v = self.get_compress(v);
        let ghost s2 = self@;
        proof {
            lemma_repr_props(s, to as int);
            lemma_repr_props(s, v as int);
        }
        if root_v != root_to {
            proof {
                lemma_roots_in_two(s2, 0, s2.len() as int, root_v as int, root_to as int);
                lemma_link_update(s2, root_v as int, root_to as int);
            }
            self.ptrs[root_v] = root_to as u32;
            self.len = self.len - 1;
            proof {
                assert(self@ =~= s2.update(root_v as int, root_to as int));
            }
        }
    }

    /// Reports whether `v` is a root by reading its parent slot directly;
    /// an index outside the forest is no root.
    pub fn is_root(&self, v: usize) -> (r: bool)
        ensures
            r == (v < self.spec_capacity() && self@[v as int] == v as int),
    {
        if v < self.ptrs.len() {
            self.ptrs[v] as usize == v
        } else {
            false
        }
    }

    /// Maintenance sweep: flattens every chain, so that afterwards each
    /// node's parent pointer is exactly its group's representative. No group
    /// changes and the group count stays.
    pub fn compress(&mut self)
        requires
            old(self).inv(),
        ensures
            final(self).inv(),
            final(self).spec_capacity() == old(self).spec_capacity(),
            final(self).spec_len() == old(self).spec_len(),
            forall|i: int| 0 <= i < old(self)@.len() ==> final(self)@[i] == repr(old(self)@, i),
            forall|i: int|
                0 <= i < old(self)@.len() ==> repr(final(self)@, i) == repr(old(self)@, i),
    {
        let n = self.ptrs.len();
        let mut i: usize = 0;
        while i < n
            invariant
                self.inv(),
                self.spec_capacity() == n,
                n == old(self).spec_capacity(),
                self.spec_len() == old(self).spec_len(),
                forall|k: int| 0 <= k < n ==> repr(self@, k) == repr(old(self)@, k),
                forall|k: int| 0 <= k < i ==> self@[k] == repr(old(self)@, k),
            decreases n - i,
        {
            let ghost before = self@;
            let terminal = self.get(i);
            if terminal != i {
                proof {
                    lemma_repr_props(before, i as int);
                    lemma_repr_self(before, terminal as int);
                }
                self.set(i, terminal);
                proof {
                    assert(before.update(terminal as int, terminal as int) =~= before);
                    assert(self@ =~= before.update(i as int, terminal as int));
                }
            } else {
                proof {
                    lemma_repr_self(before, i as int);
                }
            }
            i += 1;
        }
    }

    /// Growth: appends `n` fresh indices, each its own singleton group, so
    /// capacity and group count both rise by `n`. Existing groups are
    /// untouched. The new capacity must stay below the 32-bit index bound.
    pub fn extend_by(&mut self, n: usize)
        requires
            old(self).inv(),
            old(self).spec_capacity() + n < u32::MAX as nat,
        ensures
            final(self).inv(),
            final(self).spec_capacity() == old(self).spec_capacity() + n,
            final(self).spec_len() == old(self).spec_len() + n,
            forall|i: int| 0 <= i < old(self)@.len() ==> final(self)@[i] == old(self)@[i],
            forall|i: int|
                old(self)@.len() <= i < old(self)@.len() + n ==> #[trigger] final(self)@[i] == i,
            forall|i: int|
                0 <= i < old(self)@.len() ==> repr(final(self)@, i) == repr(old(self)@, i),
            forall|i: int|
                old(self)@.len() <= i < old(self)@.len() + n ==> #[trigger] repr(final(self)@, i)
                    == i,
    {
        let l = self.ptrs.len();
        let mut i: usize = 0;
        while i < n
            invariant
                i <= n,
                l + n < u32::MAX as nat,
                l == old(self)@.len(),
                self.ptrs@.len() == l + i,
                self.len == old(self).len,
                forall|j: int| 0 <= j < l ==> self@[j] == old(self)@[j],
                forall|j: int| l <= j < l + i ==> #[trigger] self@[j] == j,
            decreases n - i,
        {
            let ghost p = self@;
            let s = (l + i) as u32;
            self.ptrs.push(s);
            proof {
                assert(self@ =~= p.push((l + i) as int));
                assert forall|j: int| l <= j < l + i + 1 implies #[trigger] self@[j] == j by {
                    if j < l + i {
                        assert(self@[j] == p[j]);
                    }
                }
            }
            i += 1;
        }
        proof {
            lemma_extend(old(self)@, self@);
            lemma_roots_in_le(old(self)@, 0, old(self)@.len() as int);
        }
        self.len = self.len + n;
    }
}

/// A checked-out contiguous window `[start, end)` of a `UnionFind<u32>`.
///
/// The checkout takes the owner by value, so nothing else can touch the
/// backing storage while the window is live; `release` hands the owner
/// back. Local index `j` stands for global index `start + j`. The window
/// must be closed under the parent relation: every parent pointer inside
/// it stays inside it. Merges through the window lower both the window's
/// own group count and the owner's global one.
#[derive(Debug, PartialEq, Eq)]
pub struct BorrowedUnionFind {
    owner: UnionFind<u32>,
    own_len: usize,
    start: usize,
    end: usize,
}

impl View for BorrowedUnionFind {
    type V = Seq<int>;

    closed spec fn view(&self) -> Seq<int> {
        window(self.owner@, self.start as int, self.end as int)
    }
}

impl BorrowedUnionFind {
    /// The checked-out owner.
    pub closed spec fn spec_owner(&self) -> UnionFind<u32> {
        self.owner
    }

    /// First global index of the window.
    pub closed spec fn spec_start(&self) -> int {
        self.start as int
    }

    /// One past the last global index of the window.
    pub closed spec fn spec_end(&self) -> int {
        self.end as int
    }

    /// The window's own group count.
    pub closed spec fn spec_len(&self) -> nat {
        self.own_len as nat
    }

    /// Structural invariant: the owner is valid, the window lies inside it
    /// and is closed under the parent relation, and the window's group
    /// count equals the number of roots inside the window.
    pub closed spec fn inv(&self) -> bool {
        &&& self.owner.inv()
        &&& self.start <= self.end
        &&& self.end as nat <= self.owner.spec_capacity()
        &&& window_closed(self.owner@, self.start as int, self.end as int)
        &&& self.own_len as nat == roots_in(self.owner@, self.start as int, self.end as int)
    }

    /// Number of elements the window covers.
    pub fn capacity(&self) -> (r: usize)
        requires
            self.inv(),
        ensures
            r as int == self@.len(),
    {
        self.end - self.start
    }

    /// Current number of groups inside the window.
    pub fn curr_len(&self) -> (r: usize)
        requires
            self.inv(),
        ensures
            r == self.spec_len(),
            r == roots_total(self@),
    {
        proof {
            lemma_window_model(self.owner@, self.start as int, self.end as int);
        }
        self.own_len
    }

    /// Ends the checkout and hands the owner back, with every merge made
    /// through the window applied.
    pub fn release(self) -> (r: UnionFind<u32>)
        ensures
            r == self.spec_owner(),
    {
        self.owner
    }

    /// Pure query in local indices: the window-relative root of `v`.
    pub fn get(&self, v: usize) -> (r: usize)
        requires
            self.inv(),
            v < self@.len(),
        ensures
            r as int == repr(self@, v as int),
            r < self@.len(),
    {
        proof {
            lemma_window_model(self.owner@, self.start as int, self.end as int);
        }
        let g = self.owner.get(self.start + v);
        g - self.start
    }

    /// Compressing query in local indices: redirects global node
    /// `start + v` to its root, and returns that root re-based to the
    /// window.
    pub fn get_compress(&mut self, v: usize) -> (r: usize)
        requires
            old(self).inv(),
            v < old(self)@.len(),
        ensures
            final(self).inv(),
            r as int == repr(old(self)@, v as int),
            r < old(self)@.len(),
            final(self)@ == old(self)@.update(v as int, r as int),
            final(self).spec_len() == old(self).spec_len(),
            final(self).spec_start() == old(self).spec_start(),
            final(self).spec_end() == old(self).spec_end(),
            final(self).spec_owner().spec_len() == old(self).spec_owner().spec_len(),
            final(self).spec_owner().spec_capacity() == old(self).spec_owner().spec_capacity(),
            forall|j: int| 0 <= j < old(self)@.len() ==> repr(final(self)@, j) == repr(old(self)@, j),
    {
        let ghost s = self.owner@;
        let ghost lo = self.start as int;
        let ghost hi = self.end as int;
        proof {
            lemma_window_model(s, lo, hi);
        }
        let g = self.owner.get_compress(self.start + v);
        proof {
            let s2 = self.owner@;
            let g0 = lo + v;
            assert forall|x: int| lo <= x < hi implies lo <= #[trigger] s2[x] < hi by {
                if x == g0 {
                    assert(s2[x] == g as int);
                } else {
                    assert(s2[x] == s[x]);
                }
            }
            assert forall|j: int| lo <= j < hi implies ((#[trigger] s2[j] == j) <==> s[j]
                == j) by {
                assert(0 <= j < s.len());
            }
            crate::model::lemma_roots_in_same_flags(s2, s, lo, hi);
            lemma_window_model(s2, lo, hi);
            assert(window(s2, lo, hi) =~= window(s, lo, hi).update(v as int, g - lo));
        }
        g - self.start
    }

    /// Merge in local indices: the root of `v`'s group is attached under
    /// the root of `to`'s group. When two distinct groups join, the
    /// window's count and the owner's global count both drop by one.
    pub fn set(&mut self, v: usize, to: usize)
        requires
            old(self).inv(),
            v < old(self)@.len(),
            to < old(self)@.len(),
        ensures
            final(self).inv(),
            final(self)@.len() == old(self)@.len(),
            final(self).spec_start() == old(self).spec_start(),
            final(self).spec_end() == old(self).spec_end(),
            final(self).spec_owner().spec_capacity() == old(self).spec_owner().spec_capacity(),
            forall|j: int|
                0 <= j < old(self)@.len() ==> repr(final(self)@, j) == (if repr(old(self)@, j)
                    == repr(old(self)@, v as int) {
                    repr(old(self)@, to as int)
                } else {
                    repr(old(self)@, j)
                }),
            repr(final(self)@, v as int) == repr(old(self)@, to as int),
            repr(final(self)@, to as int) == repr(old(self)@, to as int),
            final(self).spec_len() == (if repr(old(self)@, v as int) == repr(
                old(self)@,
                to as int,
            ) {
                old(self).spec_len()
            } else {
                (old(self).spec_len() - 1) as nat
            }),
            final(self).spec_owner().spec_len() == (if repr(old(self)@, v as int) == repr(
                old(self)@,
                to as int,
            ) {
                old(self).spec_owner().spec_len()
            } else {
                (old(self).spec_owner().spec_len() - 1) as nat
            }),
    {
        let ghost s = self.owner@;
        let ghost lo = self.start as int;
        let ghost hi = self.end as int;
        let ghost w = self@;
        proof {
            lemma_window_model(s, lo, hi);
        }
        let root_to = self.owner.get_compress(self.start + to);
        let ghost s1 = self.owner@;
        let root_v = self.owner.get_compress(self.start + v);
        let ghost s2 = self.owner@;
        proof {
            lemma_repr_props(s, lo + to);
            lemma_repr_props(s, lo + v);
            assert forall|x: int| lo <= x < hi implies lo <= #[trigger] s2[x] < hi by {
                if x == lo + v {
                    assert(s2[x] == root_v as int);
                } else if x == lo + to {
                    assert(s2[x] == s1[x] == root_to as int);
                } else {
                    assert(s2[x] == s1[x] == s[x]);
                }
            }
            assert forall|j: int| lo <= j < hi implies ((#[trigger] s2[j] == j) <==> s[j]
                == j) by {
                assert(0 <= j < s.len());
                assert((s2[j] == j) <==> (s1[j] == j));
            }
            crate::model::lemma_roots_in_same_flags(s2, s, lo, hi);
            lemma_window_model(s2, lo, hi);
        }
        if root_v != root_to {
            proof {
                assert(s2[root_v as int] == root_v as int && s2[root_to as int]
                    == root_to as int);
                lemma_roots_in_two(s2, 0, s2.len() as int, root_v as int, root_to as int);
                lemma_roots_in_two(s2, lo, hi, root_v as int, root_to as int);
                lemma_link_update(s2, root_v as int, root_to as int);
                lemma_roots_in_update(s2, root_v as int, root_to as int, lo, hi);
            }
            self.owner.ptrs[root_v] = root_to as u32;
            self.owner.len = self.owner.len - 1;
            self.own_len = self.own_len - 1;
            proof {
                let s3 = self.owner@;
                assert(s3 =~= s2.update(root_v as int, root_to as int));
                assert forall|x: int| lo <= x < hi implies lo <= #[trigger] s3[x] < hi by {
                    if x != root_v as int {
                        assert(s3[x] == s2[x]);
                    }
                }
                lemma_window_model(s3, lo, hi);
                assert(window(s3, lo, hi) =~= window(s2, lo, hi).update(
                    root_v - lo,
                    root_to - lo,
                ));
            }
        }
    }

    /// Reports whether local index `v` is a root by reading its parent
    /// slot directly; an index outside the window is no root.
    pub fn is_root(&self, v: usize) -> (r: bool)
        requires
            self.inv(),
        ensures
            r == (v < self@.len() && self@[v as int] == v as int),
    {
        if v < self.end - self.start {
            self.owner.ptrs[self.start + v] as usize == self.start + v
        } else {
            false
        }
    }
}

impl UnionFind<u32> {
    /// Sub-range snapshot: copies the closed window `[r.start, r.end)` into
    /// a fresh, independently owned forest, re-based to start at 0, and
    /// counts its local roots.
    pub fn subset_clone(&self, r: Range<usize>) -> (s: Self)
        requires
            self.inv(),
            r.start <= r.end,
            r.end as nat <= self.spec_capacity(),
            window_closed(self@, r.start as int, r.end as int),
        ensures
            s.inv(),
            s@ == window(self@, r.start as int, r.end as int),
            s.spec_capacity() == r.end - r.start,
            s.spec_len() == roots_in(self@, r.start as int, r.end as int),
            s.spec_len() == roots_total(s@),
    {
        let offset = r.start;
        let mut ptrs: Vec<u32> = Vec::new();
        let mut len: usize = 0;
        let mut new_i: usize = 0;
        while new_i < r.end - offset
            invariant
                self.inv(),
                offset == r.start,
                r.start <= r.end,
                r.end as nat <= self.spec_capacity(),
                window_closed(self@, r.start as int, r.end as int),
                new_i <= r.end - offset,
                ptrs@.len() == new_i,
                forall|j: int| 0 <= j < new_i ==> ptrs@[j] as int == self@[offset + j] - offset,
                len as int == roots_in(self@, offset as int, offset + new_i),
                len <= new_i,
            decreases r.end - offset - new_i,
        {
            let old_i = offset + new_i;
            let prev_v = self.ptrs[old_i];
            proof {
                assert(r.start as int <= self@[old_i as int] < r.end as int);
            }
            if prev_v as usize == old_i {
                len += 1;
            }
            ptrs.push(prev_v - offset as u32);
            new_i += 1;
        }
        let s = UnionFind { ptrs, len };
        proof {
            lemma_window_model(self@, r.start as int, r.end as int);
            assert(s@ =~= window(self@, r.start as int, r.end as int));
        }
        s
    }

    /// Checkout of the closed window `[r.start, r.end)` as a borrowed view:
    /// takes the owner, counts the window's local roots, and yields a
    /// handle that operates on the shared backing storage in local indices.
    pub fn subset(self, r: Range<usize>) -> (b: BorrowedUnionFind)
        requires
            self.inv(),
            r.start <= r.end,
            r.end as nat <= self.spec_capacity(),
            window_closed(self@, r.start as int, r.end as int),
        ensures
            b.inv(),
            b.spec_owner() == self,
            b.spec_start() == r.start as int,
            b.spec_end() == r.end as int,
            b@ == window(self@, r.start as int, r.end as int),
            b.spec_len() == roots_in(self@, r.start as int, r.end as int),
            b.spec_len() == roots_total(b@),
    {
        let mut own_len: usize = 0;
        let mut g: usize = r.start;
        while g < r.end
            invariant
                self.inv(),
                r.start <= g <= r.end,
                r.end as nat <= self.spec_capacity(),
                own_len as int == roots_in(self@, r.start as int, g as int),
                own_len <= g - r.start,
            decreases r.end - g,
        {
            let p = self.ptrs[g];
            if p as usize == g {
                own_len += 1;
            }
            g += 1;
        }
        proof {
            lemma_window_model(self@, r.start as int, r.end as int);
        }
        BorrowedUnionFind { owner: self, own_len, start: r.start, end: r.end }
    }
}

/// The capability interface every forest variant offers, so that algorithms
/// can be written generically over the storage representation.
///
/// `model()` is the variant's parent forest as a sequence; `valid()` its
/// structural invariant. `find` answers "which group?", `union` merges the
/// group of `v` into the group of `to` (keeping `to`'s representative),
/// `len` counts the groups and `capacity` the elements.
pub trait UnionFindOp: Sized {
    /// The variant's parent forest.
    spec fn model(&self) -> Seq<int>;

    /// The variant's structural invariant.
    spec fn valid(&self) -> bool;

    /// The canonical representative of `v`'s group.
    fn find(&self, v: usize) -> (r: usize)
        requires
            self.valid(),
            v < self.model().len(),
        ensures
            r as int == repr(self.model(), v as int),
            r < self.model().len(),
    ;

    /// Merges the group of `v` into the group of `to`; the merged group
    /// keeps `to`'s representative. Joining two distinct groups lowers the
    /// group count by exactly one, a request within one group by nothing.
    fn union(&mut self, v: usize, to: usize)
        requires
            old(self).valid(),
            v < old(self).model().len(),
            to < old(self).model().len(),
        ensures
            final(self).valid(),
            final(self).model().len() == old(self).model().len(),
            forall|i: int|
                0 <= i < old(self).model().len() ==> repr(final(self).model(), i) == (if repr(
                    old(self).model(),
                    i,
                ) == repr(old(self).model(), v as int) {
                    repr(old(self).model(), to as int)
                } else {
                    repr(old(self).model(), i)
                }),
            repr(final(self).model(), v as int) == repr(old(self).model(), to as int),
            repr(final(self).model(), to as int) == repr(old(self).model(), to as int),
            roots_total(final(self).model()) == (if repr(old(self).model(), v as int) == repr(
                old(self).model(),
                to as int,
            ) {
                roots_total(old(self).model())
            } else {
                (roots_total(old(self).model()) - 1) as nat
            }),
    ;

    /// Whether `v`'s parent slot is a self-loop; an index outside the
    /// forest is no root.
    fn is_root(&self, v: usize) -> (r: bool)
        requires
            self.valid(),
        ensures
            r == (v < self.model().len() && self.model()[v as int] == v as int),
    ;

    /// The number of groups: always the number of roots.
    fn len(&self) -> (r: usize)
        requires
            self.valid(),
        ensures
            r == roots_total(self.model()),
    ;

    /// The number of elements.
    fn capacity(&self) -> (r: usize)
        requires
            self.valid(),
        ensures
            r == self.model().len(),
    ;
}

impl UnionFindOp for UnionFind<usize> {
    open spec fn model(&self) -> Seq<int> {
        self@
    }

    open spec fn valid(&self) -> bool {
        self.inv()
    }

    fn find(&self, v: usize) -> (r: usize) {
        self.get(v)
    }

    fn union(&mut self, v: usize, to: usize) {
        self.set(v, to)
    }

    fn is_root(&self, v: usize) -> (r: bool) {
        self.is_root(v)
    }

    fn len(&self) -> (r: usize) {
        self.curr_len()
    }

    fn capacity(&self) -> (r: usize) {
        self.capacity()
    }
}

impl UnionFindOp for UnionFind<u32> {
    open spec fn model(&self) -> Seq<int> {
        self@
    }

    open spec fn valid(&self) -> bool {
        self.inv()
    }

    fn find(&self, v: usize) -> (r: usize) {
        self.get(v)
    }

    fn union(&mut self, v: usize, to: usize) {
        self.set(v, to)
    }

    fn is_root(&self, v: usize) -> (r: bool) {
        self.is_root(v)
    }

    fn len(&self) -> (r: usize) {
        self.curr_len()
    }

    fn capacity(&self) -> (r: usize) {
        self.capacity()
    }
}

impl UnionFindOp for BorrowedUnionFind {
    open spec fn model(&self) -> Seq<int> {
        self@
    }

    open spec fn valid(&self) -> bool {
        self.inv()
    }

    fn find(&self, v: usize) -> (r: usize) {
        self.get(v)
    }

    fn union(&mut self, v: usize, to: usize) {
        proof {
            lemma_window_model(self.owner@, self.start as int, self.end as int);
        }
        self.set(v, to);
        proof {
            lemma_window_model(self.owner@, self.start as int, self.end as int);
        }
    }

    fn is_root(&self, v: usize) -> (r: bool) {
        self.is_root(v)
    }

    fn len(&self) -> (r: usize) {
        self.curr_len()
    }

    fn capacity(&self) -> (r: usize) {
        self.capacity()
    }
}

} // verus!
