//! Lock-free variant of the forest: parent pointers in atomic cells.
//!
//! Functionally this is the dense 32-bit forest, but every parent pointer
//! lives in its own `AtomicU32`, loaded and stored with sequentially
//! consistent ordering. That storage discipline is what lets many threads
//! run compressing queries concurrently while one writer merges: each
//! compression is a single atomic store that only ever redirects one node
//! to a root of its own chain. The verified interface itself follows the
//! exclusive-owner regime — merges and compressions take the structure
//! `&mut` — so its contracts speak, like the other variants', of one
//! logical actor at a time.

use core::sync::atomic::AtomicU32;
use core::sync::atomic::Ordering;
use vstd::prelude::*;

use crate::model::lemma_compress_update;
use crate::model::lemma_link_update;
use crate::model::lemma_repr_chase;
use crate::model::lemma_repr_props;
use crate::model::lemma_roots_in_all;
use crate::model::lemma_roots_in_two;
use crate::model::chase;
use crate::model::reaches_root;
use crate::model::repr;
use crate::model::rooted;
use crate::model::roots_total;
use crate::model::wf;
use crate::UnionFindOp;

verus! {

/// The backing storage of the lock-free forest: one atomic cell per index.
/// Held behind a trusted facade because Verus gives atomic integers no
/// value-level specification of their own.
#[verifier::external_body]
pub struct AtomicCells {
    cells: Vec<AtomicU32>,
}

/// What the atomic cells hold, read in index order.
pub uninterp spec fn cells_model(c: AtomicCells) -> Seq<u32>;

/// Relies on alloc::vec::Vec::new: a fresh vector holds no cells.
#[verifier::external_body]
fn cells_new() -> (c: AtomicCells)
    ensures
        cells_model(c) == Seq::<u32>::empty(),
{
    AtomicCells { cells: Vec::new() }
}

/// Relies on alloc::vec::Vec::push: appends one cell, made by
/// core::sync::atomic::AtomicU32::new to hold `v`.
#[verifier::external_body]
fn cells_push(c: &mut AtomicCells, v: u32)
    ensures
        cells_model(*final(c)) == cells_model(*old(c)).push(v),
{
    c.cells.push(AtomicU32::new(v));
}

/// Relies on alloc::vec::Vec::len: the number of cells.
#[verifier::external_body]
fn cells_len(c: &AtomicCells) -> (n: usize)
    ensures
        n == cells_model(*c).len(),
{
    c.cells.len()
}

/// Relies on core::sync::atomic::AtomicU32::load with sequentially
/// consistent ordering: under exclusive ownership of the cells a load
/// returns the value the cell holds.
#[verifier::external_body]
fn cells_load(c: &AtomicCells, i: usize) -> (v: u32)
    requires
        i < cells_model(*c).len(),
    ensures
        v == cells_model(*c)[i as int],
{
    c.cells[i].load(Ordering::SeqCst)
}

/// Relies on core::sync::atomic::AtomicU32::store with sequentially
/// consistent ordering: the cell then holds `v`; no other cell changes.
#[verifier::external_body]
fn cells_store(c: &mut AtomicCells, i: usize, v: u32)
    requires
        i < cells_model(*old(c)).len(),
    ensures
        cells_model(*final(c)) == cells_model(*old(c)).update(i as int, v),
{
    c.cells[i].store(v, Ordering::SeqCst);
}

/// A disjoint-set forest over `0..capacity` whose parent pointers are
/// individually atomic 32-bit cells.
pub struct UnionFind {
    ptrs: AtomicCells,
    len: usize,
}

impl View for UnionFind {
    type V = Seq<int>;

    closed spec fn view(&self) -> Seq<int> {
        cells_model(self.ptrs).map_values(|x: u32| x as int)
    }
}

impl UnionFind {
    /// Number of elements the forest covers.
    pub closed spec fn spec_capacity(&self) -> nat {
        cells_model(self.ptrs).len()
    }

    /// The stored group count.
    pub closed spec fn spec_len(&self) -> nat {
        self.len as nat
    }

    /// Structural invariant: a well-formed forest, stored group count equal
    /// to the number of roots, and a capacity the 32-bit index type can
    /// still address.
    pub closed spec fn inv(&self) -> bool {
        &&& wf(self@)
        &&& self.spec_len() == roots_total(self@)
        &&& self.spec_capacity() < u32::MAX as nat
    }

    /// Builds an atomically stored forest of `len` singleton groups.
    pub fn new(len: usize) -> (r: Self)
        requires
            len < u32::MAX as usize,
        ensures
            r.inv(),
            r.spec_capacity() == len,
            r.spec_len() == len,
            forall|i: int| 0 <= i < len ==> r@[i] == i,
    {
        let mut ptrs = cells_new();
        let mut i: usize = 0;
        while i < len
            invariant
                i <= len,
                len < u32::MAX as usize,
                cells_model(ptrs).len() == i,
                forall|j: int| 0 <= j < i ==> cells_model(ptrs)[j] == j,
            decreases len - i,
        {
            let ghost p = cells_model(ptrs);
            cells_push(&mut ptrs, i as u32);
            proof {
                assert forall|j: int| 0 <= j < i + 1 implies #[trigger] cells_model(ptrs)[j]
                    == j by {
                    if j < i {
                        assert(cells_model(ptrs)[j] == p[j]);
                    }
                }
            }
            i += 1;
        }
        let r = UnionFind { ptrs, len };
        proof {
            assert forall|j: int| 0 <= j < len implies reaches_root(r@, j) by {
                assert(rooted(r@, j, 0));
            }
            lemma_roots_in_all(r@, 0, len as int);
        }
        r
    }

    /// Pure query: follows parent pointers from `v` to its group's root and
    /// returns it, changing nothing.
    pub fn get(&self, v: usize) -> (r: usize)
        requires
            self.inv(),
            v < self.spec_capacity(),
        ensures
            r as int == repr(self@, v as int),
            r < self.spec_capacity(),
    {
        let ghost s = self@;
        let mut cur: usize = v;
        proof {
            assert(reaches_root(s, v as int));
        }
        let ghost mut d: nat = choose|d: nat| rooted(s, v as int, d);
        proof {
            lemma_repr_chase(s, v as int, d);
        }
        let mut n: usize = cells_load(&self.ptrs, v) as usize;
        while n != cur
            invariant
                self.inv(),
                s == self@,
                cur < self.spec_capacity(),
                n as int == s[cur as int],
                n < self.spec_capacity(),
                rooted(s, cur as int, d),
                chase(s, cur as int, d) == repr(s, v as int),
            decreases d,
        {
            proof {
                assert(d > 0);
                d = (d - 1) as nat;
            }
            cur = n;
            n = cells_load(&self.ptrs, cur) as usize;
            proof {
                assert(s[cur as int] == cells_model(self.ptrs)[cur as int] as int);
                assert(0 <= s[cur as int] < s.len());
            }
        }
        cur
    }

    /// Compressing query: finds the root of `v` as `get` does, then
    /// redirects `v` itself — and only `v` — straight to that root with a
    /// single atomic store.
    pub fn get_compress(&mut self, v: usize) -> (r: usize)
        requires
            old(self).inv(),
            v < old(self).spec_capacity(),
        ensures
            final(self).inv(),
            r as int == repr(old(self)@, v as int),
            r < old(self).spec_capacity(),
            final(self)@ == old(self)@.update(v as int, r as int),
            final(self).spec_capacity() == old(self).spec_capacity(),
            final(self).spec_len() == old(self).spec_len(),
            forall|i: int|
                0 <= i < old(self)@.len() ==> repr(final(self)@, i) == repr(old(self)@, i),
            forall|i: int|
                0 <= i < old(self)@.len() ==> ((#[trigger] final(self)@[i] == i) <==> old(
                    self,
                )@[i] == i),
    {
        let dst = self.get(v);
        cells_store(&mut self.ptrs, v, dst as u32);
        proof {
            assert(self@ =~= old(self)@.update(v as int, dst as int));
            lemma_compress_update(old(self)@, v as int);
        }
        dst
    }

    /// Merge: the root of `v`'s group is attached under the root of `to`'s
    /// group, so the merged group keeps `to`'s representative. A request
    /// within one group changes no group. Safe only under single-writer
    /// discipline, which taking the forest `&mut` enforces here.
    pub fn set(&mut self, v: usize, to: usize)
        requires
            old(self).inv(),
            v < old(self).spec_capacity(),
            to < old(self).spec_capacity(),
        ensures
            final(self).inv(),
            final(self).spec_capacity() == old(self).spec_capacity(),
            forall|i: int|
                0 <= i < old(self)@.len() ==> repr(final(self)@, i) == (if repr(old(self)@, i)
                    == repr(old(self)@, v as int) {
                    repr(old(self)@, to as int)
                } else {
                    repr(old(self)@, i)
                }),
            repr(final(self)@, v as int) == repr(old(self)@, to as int),
            repr(final(self)@, to as int) == repr(old(self)@, to as int),
            final(self).spec_len() == (if repr(old(self)@, v as int) == repr(
                old(self)@,
                to as int,
            ) {
                old(self).spec_len()
            } else {
                (old(self).spec_len() - 1) as nat
            }),
    {
        let ghost s = self@;
        let root_to = self.get_compress(to);
        let root_v = self.get_compress(v);
        let ghost s2 = self@;
        proof {
            lemma_repr_props(s, to as int);
            lemma_repr_props(s, v as int);
        }
        if root_v != root_to {
            proof {
                lemma_roots_in_two(s2, 0, s2.len() as int, root_v as int, root_to as int);
                lemma_link_update(s2, root_v as int, root_to as int);
            }
            cells_store(&mut self.ptrs, root_v, root_to as u32);
            self.len = self.len - 1;
            proof {
                assert(self@ =~= s2.update(root_v as int, root_to as int));
            }
        }
    }
}

impl UnionFindOp for UnionFind {
    open spec fn model(&self) -> Seq<int> {
        self@
    }

    open spec fn valid(&self) -> bool {
        self.inv()
    }

    fn find(&self, v: usize) -> (r: usize) {
        self.get(v)
    }

    fn union(&mut self, v: usize, to: usize) {
        self.set(v, to)
    }

    fn is_root(&self, v: usize) -> (r: bool) {
        if v < cells_len(&self.ptrs) {
            cells_load(&self.ptrs, v) as usize == v
        } else {
            false
        }
    }

    fn len(&self) -> (r: usize) {
        self.len
    }

    fn capacity(&self) -> (r: usize) {
        cells_len(&self.ptrs)
    }
}

} // verus!
