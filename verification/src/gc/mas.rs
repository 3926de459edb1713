//! Mark and Sweep GC.
//!
//! Traces all reachable objects, marking them; then copies all marked objects to
//! a new heap, updating their pointers.

use crate::gc::collection::{
    collects, next_region, lemma_moved_keeps_pointers, lemma_pointer_relocated, lemma_relocation_sources,
    lemma_root_relocated, lemma_survivors, live, moved_ptr, relocation, rewritten, survivors,
    targets,
};
use crate::gc::graph::{
    awaits, closed, closed_upto, entry_of, is_path, lemma_closed_step, lemma_path_marked,
    lemma_reachable_extend, lemma_reachable_monotone, lemma_root_reachable, lemma_step_reachable,
    lemma_addresses_distinct, lemma_unmarked_bounds, lemma_unmarked_set, marks_of, names_entry,
    pointers_of, points_to, reachable, traceable, unmarked,
};
use crate::gc::relocation::{Relocation, holds_addr, image};
use crate::gc::{GcCandidate, ManagedMem};
use crate::heap::{Heap, HeapPtr, RawPtr, end_of, footprint, lemma_laid_out_distinct, resolves_to};
use std::collections::HashSet;
use vstd::prelude::*;

verus! {

/// Marks every value that is reachable from `root`, and returns how many values
/// were newly marked. `marked` holds the addresses of the marked values.
///
/// The marks that are set on entry must be closed: what a marked value points to
/// is marked. They are closed again on return.
pub fn mark_reachable<T: GcCandidate<Ptr>, Ptr: HeapPtr>(
    heap: &Heap<T, Ptr>,
    root: &Ptr,
    marked: &mut HashSet<usize>,
) -> (count: usize)
    requires
        heap.wf(),
        closed(*heap, marks_of(*heap, old(marked)@)),
        traceable(*heap, seq![*root]),
    ensures
        forall|j: int|
            0 <= j < heap.directory().len() ==> #[trigger] marks_of(*heap, final(marked)@)[j] == (
            marks_of(*heap, old(marked)@)[j] || reachable(*heap, seq![*root], j)),
        forall|a: usize| old(marked)@.contains(a) ==> final(marked)@.contains(a),
        forall|a: usize|
            final(marked)@.contains(a) && !old(marked)@.contains(a) ==> exists|j: int|
                0 <= j < heap.directory().len() && (#[trigger] heap.directory()[j]).raw().addr
                    == a,
        closed(*heap, marks_of(*heap, final(marked)@)),
        count == unmarked(marks_of(*heap, old(marked)@)) - unmarked(
            marks_of(*heap, final(marked)@),
        ),
{
    let ghost roots = seq![*root];
    let ghost m0 = marks_of(*heap, marked@);
    let ghost set0 = marked@;
    let n = heap.len();
    let mut count: usize = 0;
    // unprocessed objects
    let mut stack: Vec<Ptr> = Vec::new();
    stack.push(root.duplicate());
    proof {
        lemma_unmarked_bounds(m0);
        assert(roots[0] == *root);
        assert(heap.directory().contains(roots[0]));
        let r = heap.directory().index_of(*root);
        lemma_root_reachable(*heap, roots, r);
        assert(stack@[0] == *root);
        assert(stack@.contains(*root));
        assert(awaits(*heap, roots, stack@[0]));
    }
    while stack.len() > 0
        invariant
            heap.wf(),
            roots == seq![*root],
            traceable(*heap, roots),
            m0.len() == heap.directory().len(),
            forall|a: usize| set0.contains(a) ==> marked@.contains(a),
            forall|a: usize|
                marked@.contains(a) && !set0.contains(a) ==> exists|j: int|
                    0 <= j < heap.directory().len() && (#[trigger] heap.directory()[j]).raw().addr
                        == a,
            forall|j: int| 0 <= j < m0.len() && m0[j] ==> #[trigger] marks_of(*heap, marked@)[j],
            forall|j: int|
                0 <= j < m0.len() && #[trigger] marks_of(*heap, marked@)[j] ==> m0[j] || reachable(
                    *heap,
                    roots,
                    j,
                ),
            forall|s: int| 0 <= s < stack@.len() ==> awaits(*heap, roots, #[trigger] stack@[s]),
            closed_upto(*heap, marks_of(*heap, marked@), stack@),
            forall|t: int|
                0 <= t < m0.len() && #[trigger] heap.directory()[t] == *root ==> marks_of(*heap, marked@)[t]
                    || stack@.contains(*root),
            count == unmarked(m0) - unmarked(marks_of(*heap, marked@)),
            unmarked(m0) <= m0.len() == n,
        decreases unmarked(marks_of(*heap, marked@)), stack@.len(),
    {
        let ghost before = stack@;
        let ghost marks_before = marks_of(*heap, marked@);
        let current = stack.pop().unwrap();
        let ghost rest = stack@;
        proof {
            assert(current == before[before.len() - 1]);
            assert(awaits(*heap, roots, current));
            lemma_unmarked_bounds(marks_of(*heap, marked@));
        }
        let t = heap.position(&current).unwrap();
        proof {
            let t0 = choose|t0: int|
                0 <= t0 < heap.directory().len() && #[trigger] heap.directory()[t0] == current
                    && reachable(*heap, roots, t0);
            lemma_laid_out_distinct(heap.directory(), heap.used() as int, t0, t as int);
            assert(reachable(*heap, roots, t as int));
            assert forall|s: int| 0 <= s < before.len() - 1 implies rest.contains(
                #[trigger] before[s],
            ) by {
                assert(rest[s] == before[s]);
            }
        }
        let addr = current.to_raw_ptr().addr;
        // if not already marked,
        if !marked.contains(&addr) {
            // mark the object
            marked.insert(addr);
            proof {
                assert(marks_of(*heap, marked@) =~= marks_before.update(t as int, true)) by {
                    assert forall|j: int| 0 <= j < heap.directory().len() && j != t implies (
                    heap.directory()[j].raw().addr != addr) by {
                        if heap.directory()[j].raw().addr == addr {
                            lemma_addresses_distinct(*heap, j, t as int);
                        }
                    }
                }
                lemma_unmarked_set(marks_before, t as int);
                lemma_unmarked_bounds(marks_of(*heap, marked@));
            }
            count += 1;
            // schedule every pointee for marking
            let ptrs = heap.get(t).collect_managed_pointers(&current);
            assert(ptrs@ == pointers_of(*heap, t as int));
            let mut k: usize = 0;
            while k < ptrs.len()
                invariant
                    heap.wf(),
                    0 <= t < heap.directory().len(),
                    ptrs@ == pointers_of(*heap, t as int),
                    k <= ptrs@.len(),
                    forall|i: int| 0 <= i < ptrs@.len() ==> names_entry(*heap, #[trigger] ptrs@[i]),
                    stack@.len() == rest.len() + k,
                    forall|s: int| 0 <= s < rest.len() ==> #[trigger] stack@[s] == rest[s],
                    forall|i: int|
                        0 <= i < k ==> #[trigger] stack@[rest.len() + i]
                            == heap.directory()[entry_of(*heap, ptrs@[i])],
                decreases ptrs@.len() - k,
            {
                let ghost e = entry_of(*heap, ptrs@[k as int]);
                assert(names_entry(*heap, ptrs@[k as int]));
                let ptr = if Ptr::has_significant_meta() {
                    let full = heap.to_full_ptr(&ptrs[k]);
                    proof {
                        let i = heap.directory().index_of(full);
                        lemma_laid_out_distinct(heap.directory(), heap.used() as int, i, e);
                    }
                    full
                } else {
                    ptrs[k].duplicate()
                };
                assert(ptr == heap.directory()[e]);
                stack.push(ptr);
                k += 1;
            }
            proof {
                let after = stack@;
                assert forall|s: int| 0 <= s < before.len() - 1 implies after.contains(
                    #[trigger] before[s],
                ) by {
                    assert(after[s] == rest[s]);
                }
                assert forall|i: int| 0 <= i < pointers_of(*heap, t as int).len() implies {
                    &&& names_entry(*heap, #[trigger] pointers_of(*heap, t as int)[i])
                    &&& after.contains(
                        heap.directory()[entry_of(*heap, pointers_of(*heap, t as int)[i])],
                    )
                } by {
                    assert(after[rest.len() + i] == heap.directory()[entry_of(*heap, ptrs@[i])]);
                }
                lemma_closed_step(*heap, marks_before, before, marks_of(*heap, marked@), after, t as int);
                assert forall|s: int| 0 <= s < after.len() implies awaits(
                    *heap,
                    roots,
                    #[trigger] after[s],
                ) by {
                    if s < rest.len() {
                        assert(after[s] == rest[s]);
                        assert(rest[s] == before[s]);
                    } else {
                        let i = s - rest.len();
                        assert(after[rest.len() + i] == heap.directory()[entry_of(*heap, ptrs@[i])]);
                        let e = entry_of(*heap, ptrs@[i]);
                        assert(names_entry(*heap, ptrs@[i]));
                        assert(resolves_to(pointers_of(*heap, t as int)[i], heap.directory()[e]));
                        assert(points_to(*heap, t as int, e));
                        lemma_step_reachable(*heap, roots, t as int, e);
                    }
                }
            }
        } else {
            proof {
                lemma_closed_step(*heap, marks_before, before, marks_of(*heap, marked@), rest, t as int);
                assert forall|s: int| 0 <= s < rest.len() implies awaits(
                    *heap,
                    roots,
                    #[trigger] rest[s],
                ) by {
                    assert(rest[s] == before[s]);
                }
            }
        }
        proof {
            assert forall|r: int|
                0 <= r < m0.len() && #[trigger] heap.directory()[r] == *root implies marks_of(
                *heap,
                marked@,
            )[r] || stack@.contains(*root) by {
                if !marks_before[r] {
                    let s = choose|s: int| 0 <= s < before.len() && before[s] == *root;
                    if s == before.len() - 1 {
                        lemma_laid_out_distinct(heap.directory(), heap.used() as int, r, t as int);
                    } else {
                        assert(stack@[s] == before[s]);
                    }
                }
            }
        }
    }
    proof {
        assert(closed(*heap, marks_of(*heap, marked@)));
        assert forall|j: int| 0 <= j < heap.directory().len() implies #[trigger] marks_of(
            *heap,
            marked@,
        )[j] == (m0[j] || reachable(*heap, roots, j)) by {
            if reachable(*heap, roots, j) {
                let path = choose|path: Seq<int>| #[trigger]
                    is_path(*heap, roots, path) && path.last() == j;
                assert forall|t: int|
                    0 <= t < heap.directory().len() && roots.contains(
                        #[trigger] heap.directory()[t],
                    ) implies marks_of(*heap, marked@)[t] by {
                    assert(heap.directory()[t] == *root);
                }
                lemma_path_marked(*heap, roots, marks_of(*heap, marked@), path);
            }
        }
    }
    count
}

/// A memory that frees space by mark and sweep: a collection keeps the values
/// that are reachable from the strong roots and moves them to a new heap.
pub struct MarkAndSweepMem<T, Ptr = RawPtr> {
    active: Heap<T, Ptr>,
}

impl<T: GcCandidate<Ptr>, Ptr: HeapPtr> MarkAndSweepMem<T, Ptr> {
    /// Creates a new `MarkAndSweepMem` with the given capacity in bytes.
    pub fn new(size: usize) -> (mem: Self)
        ensures
            mem.heap().wf(),
            mem.heap().compact(),
            mem.heap().sized(),
            mem.heap().cap() == size,
            mem.heap().used() == 0,
            mem.heap().region() == 0,
            mem.heap().directory() =~= Seq::<Ptr>::empty(),
            mem.heap().values() =~= Seq::<T>::empty(),
    {
        MarkAndSweepMem { active: Heap::new(size) }
    }
}

impl<T: GcCandidate<Ptr>, Ptr: HeapPtr> ManagedMem<T, Ptr> for MarkAndSweepMem<T, Ptr> {
    closed spec fn heap(&self) -> Heap<T, Ptr> {
        self.active
    }

    open spec fn gc_requires(&self, roots: Seq<Ptr>) -> bool {
        traceable(self.heap(), roots)
    }

    open spec fn gc_ensures(
        &self,
        roots: Seq<Ptr>,
        weaks: Seq<Ptr>,
        after: Self,
        roots_after: Seq<Ptr>,
        weaks_after: Seq<Ptr>,
    ) -> bool {
        collects(self.heap(), roots, weaks, after.heap(), roots_after, weaks_after)
    }

    fn push(&mut self, v: Box<T>) -> (pushed: Option<Ptr>) {
        self.active.push(v)
    }

    fn push_with<F: FnOnce(Ptr) -> Ptr>(&mut self, v: Box<T>, with: F) -> (pushed: Option<Ptr>) {
        self.active.push_with(v, with)
    }

    fn get(&self, idx: usize) -> (v: &T) {
        self.active.get(idx)
    }

    fn get_mut(&mut self, idx: usize) -> (v: &mut T) {
        self.active.get_mut(idx)
    }

    fn get_by(&mut self, ptr: &Ptr) -> (found: Option<&mut T>) {
        self.active.get_by(ptr)
    }

    fn len(&self) -> (n: usize) {
        self.active.len()
    }

    fn contains_ptr(&self, ptr: &Ptr) -> (found: bool) {
        self.active.contains_ptr(ptr)
    }

    fn for_each<F: Fn(&T, &Ptr)>(&self, cb: F) {
        self.active.for_each(cb);
    }

    fn gc(&mut self, roots: Vec<&mut Ptr>, weaks: Vec<&mut Ptr>) {
        let mut roots = roots;
        let mut weaks = weaks;
        let ghost h0 = self.active;
        let ghost dir0 = h0.directory();
        let ghost vals0 = h0.values();
        let ghost root_refs = roots@;
        let ghost weak_refs = weaks@;
        let ghost root_ptrs = Seq::new(roots@.len(), |i: int| *roots@[i]);
        let ghost weak_ptrs = Seq::new(weaks@.len(), |i: int| *weaks@[i]);
        // new target heap, in another region than the active one
        let from = self.active.region_of();
        let to: usize = if from == usize::MAX {
            0
        } else {
            from + 1
        };
        let mut next: Heap<T, Ptr> = Heap::new_in(to, self.active.capacity());
        // mark phase: mark every reachable object
        let n = self.active.len();
        let mut marked: HashSet<usize> = HashSet::new();
        let mut r: usize = 0;
        proof {
            assert forall|j: int| 0 <= j < n implies #[trigger] marks_of(h0, marked@)[j] == reachable(
                h0,
                root_ptrs.take(0),
                j,
            ) by {
                if reachable(h0, root_ptrs.take(0), j) {
                    let path = choose|path: Seq<int>| #[trigger]
                        is_path(h0, root_ptrs.take(0), path) && path.last() == j;
                    assert(root_ptrs.take(0).contains(dir0[path[0]]));
                }
            }
        }
        while r < roots.len()
            invariant
                self.active == h0,
                h0.wf(),
                n == dir0.len(),
                dir0 == h0.directory(),
                traceable(h0, root_ptrs),
                roots@ == root_refs,
                root_ptrs == Seq::new(root_refs.len(), |i: int| *root_refs[i]),
                r <= roots@.len(),
                closed(h0, marks_of(h0, marked@)),
                forall|j: int|
                    0 <= j < n ==> #[trigger] marks_of(h0, marked@)[j] == reachable(
                        h0,
                        root_ptrs.take(r as int),
                        j,
                    ),
            decreases roots@.len() - r,
        {
            let ghost one = seq![root_ptrs[r as int]];
            proof {
                assert(one[0] == root_ptrs[r as int]);
                assert forall|p: Ptr| one.contains(p) implies root_ptrs.contains(p) by {}
                assert forall|i: int| 0 <= i < one.len() implies h0.directory().contains(
                    #[trigger] one[i],
                ) by {}
                assert forall|j: int, k: int|
                    0 <= j < h0.directory().len() && reachable(h0, one, j) && 0 <= k < pointers_of(
                        h0,
                        j,
                    ).len() implies names_entry(h0, #[trigger] pointers_of(h0, j)[k]) by {
                    lemma_reachable_monotone(h0, one, root_ptrs, j);
                }
            }
            mark_reachable(&self.active, &*roots[r], &mut marked);
            proof {
                assert forall|j: int| 0 <= j < n implies #[trigger] marks_of(h0, marked@)[j] == reachable(
                    h0,
                    root_ptrs.take(r + 1),
                    j,
                ) by {
                    lemma_reachable_extend(h0, root_ptrs, r as int, j);
                }
            }
            r += 1;
        }
        proof {
            assert(root_ptrs.take(roots@.len() as int) =~= root_ptrs);
            assert(marks_of(h0, marked@) =~= live(h0, root_ptrs));
        }
        let ghost marks = marks_of(h0, marked@);
        // sweep phase: copy marked objects to new heap and update pointers
        let mut rel: Relocation<Ptr> = Relocation::new();
        let mut i: usize = n;
        while i > 0
            invariant
                i <= n,
                n == dir0.len(),
                dir0 == h0.directory(),
                vals0 == h0.values(),
                h0.wf(),
                marks == marks_of(h0, marked@),
                marks.len() == n,
                self.active.wf(),
                self.active.directory() =~= dir0.take(i as int),
                self.active.values() =~= vals0.take(i as int),
                self.active.used() == h0.used(),
                self.active.cap() == h0.cap(),
                next.wf(),
                next.compact(),
                next.cap() == h0.cap(),
                next.region() == to,
                to == next_region(h0.region()),
                rel.wf(),
                rel.pairs() == relocation(to, dir0, marks, i as int),
                next.directory() == targets(rel.pairs()),
                next.values().len() == rel.pairs().len(),
                survivors(marks, i as int).len() == rel.pairs().len(),
                forall|m: int|
                    0 <= m < rel.pairs().len() ==> #[trigger] next.values()[m]
                        == vals0[survivors(marks, i as int)[m]],
                forall|m: int|
                    0 <= m < rel.pairs().len() ==> (#[trigger] next.directory()[m]).raw().size
                        == dir0[survivors(marks, i as int)[m]].raw().size,
                forall|j: int| 0 <= j < i ==> next.used() + end_of(#[trigger] dir0[j]) <= h0.used(),
            decreases i,
        {
            let ghost pairs_before = rel.pairs();
            let ghost moved_before = survivors(marks, i as int);
            let ghost next_before = next;
            i -= 1;
            let (obj, old_ptr) = self.active.take(i);
            assert(self.active.directory() =~= dir0.take(i as int));
            assert(self.active.values() =~= vals0.take(i as int));
            assert(old_ptr == dir0[i as int]);
            if marked.contains(&old_ptr.to_raw_ptr().addr) {
                let size = old_ptr.to_raw_ptr().size;
                proof {
                    assert(next.used() + end_of(dir0[i as int]) <= h0.used());
                    next.fresh_ptr(size).meta_keeps_raw(&old_ptr);
                    assert(dir0[i as int].raw().size > 0);
                }
                let keep_meta = |x: Ptr| -> (y: Ptr)
                    ensures
                        y == x.with_meta_of(&old_ptr),
                    {
                        let mut moved = x;
                        moved.copy_meta(&old_ptr);
                        moved
                    };
                let new_ptr = next.place(obj, size, keep_meta).unwrap();
                proof {
                    lemma_relocation_sources(to, dir0, marks, i + 1);
                    lemma_survivors(marks, i + 1);
                    if holds_addr(pairs_before, old_ptr.raw().addr) {
                        let m = choose|m: int|
                            0 <= m < pairs_before.len() && (#[trigger] pairs_before[m]).0.raw().addr
                                == old_ptr.raw().addr;
                        let j = moved_before[m];
                        assert(pairs_before[m].0 == dir0[j]);
                        assert(end_of(dir0[i as int]) <= dir0[j].raw().addr);
                    }
                }
                rel.insert(old_ptr, new_ptr);
                proof {
                    assert(targets(pairs_before) == next_before.directory());
                    assert(new_ptr == moved_ptr(to, footprint(targets(pairs_before)), dir0[i as int]));
                    assert(rel.pairs() == relocation(to, dir0, marks, i as int));
                    assert(next.directory() =~= targets(rel.pairs()));
                    assert forall|m: int| 0 <= m < rel.pairs().len() implies #[trigger] next.values()[m]
                        == vals0[survivors(marks, i as int)[m]] by {
                        if m < pairs_before.len() {
                            assert(next.values()[m] == next_before.values()[m]);
                            assert(survivors(marks, i as int)[m] == moved_before[m]);
                        }
                    }
                    assert forall|m: int| 0 <= m < rel.pairs().len() implies (
                    #[trigger] next.directory()[m]).raw().size == dir0[survivors(
                        marks,
                        i as int,
                    )[m]].raw().size by {
                        if m < pairs_before.len() {
                            assert(next.directory()[m] == next_before.directory()[m]);
                            assert(survivors(marks, i as int)[m] == moved_before[m]);
                        }
                    }
                    assert forall|j: int| 0 <= j < i implies next.used() + end_of(
                        #[trigger] dir0[j],
                    ) <= h0.used() by {
                        assert(end_of(dir0[j]) <= dir0[i as int].raw().addr);
                    }
                }
            } else {
                proof {
                    assert forall|j: int| 0 <= j < i implies next.used() + end_of(
                        #[trigger] dir0[j],
                    ) <= h0.used() by {
                        assert(end_of(dir0[j]) <= dir0[i as int].raw().addr);
                    }
                }
            }
        }
        let ghost pairs = rel.pairs();
        let ghost moved = survivors(marks, 0);
        proof {
            lemma_survivors(marks, 0);
            lemma_relocation_sources(to, dir0, marks, 0);
        }
        let count = next.len();
        let mut m: usize = 0;
        while m < count
            invariant
                m <= count,
                count == moved.len(),
                h0.wf(),
                dir0 == h0.directory(),
                vals0 == h0.values(),
                traceable(h0, root_ptrs),
                marks == live(h0, root_ptrs),
                rel.wf(),
                pairs == rel.pairs(),
                pairs == relocation(to, dir0, marks, 0),
                moved == survivors(marks, 0),
                moved.len() == pairs.len(),
                forall|x: int|
                    0 <= x < moved.len() ==> 0 <= #[trigger] moved[x] < dir0.len()
                        && marks[moved[x]],
                forall|x: int| 0 <= x < moved.len() ==> (#[trigger] pairs[x]).0 == dir0[moved[x]],
                forall|x: int|
                    0 <= x < moved.len() ==> (#[trigger] next.directory()[x]).raw().size
                        == dir0[moved[x]].raw().size,
                self.active.wf(),
                next.wf(),
                next.compact(),
                next.cap() == h0.cap(),
                next.region() == to,
                to == next_region(h0.region()),
                next.directory() == targets(pairs),
                next.values().len() == count,
                forall|x: int| m <= x < count ==> #[trigger] next.values()[x] == vals0[moved[x]],
                forall|x: int|
                    0 <= x < m ==> rewritten(
                        h0,
                        pairs,
                        #[trigger] moved[x],
                        next.values()[x],
                        next.directory()[x],
                    ),
            decreases count - m,
        {
            let this = next.ptr_at(m);
            let ghost s = moved[m as int];
            let ghost before = next.values();
            let find = |p: &Ptr| -> (q: Ptr)
                requires
                    rel.wf(),
                    image(rel.pairs(), *p, false) is Some,
                ensures
                    Some(q) == image(rel.pairs(), *p, false),
                { rel.find(p, false).unwrap() };
            proof {
                assert(next.values()[m as int] == vals0[s]);
                assert(pairs[m as int].0 == dir0[s]);
                assert(this == pairs[m as int].1);
                lemma_moved_keeps_pointers(to, dir0, marks, 0, m as int, vals0[s]);
                assert(vals0[s].managed_pointers(this) == pointers_of(h0, s));
                assert forall|k: int| 0 <= k < pointers_of(h0, s).len() implies image(
                    pairs,
                    #[trigger] pointers_of(h0, s)[k],
                    false,
                ) is Some by {
                    lemma_pointer_relocated(h0, root_ptrs, s, k);
                }
            }
            let v = next.get_mut(m);
            v.adjust_ptrs(find, &this);
            proof {
                let after = next.values()[m as int];
                assert(next.values() =~= before.update(m as int, after));
                assert forall|k: int| 0 <= k < pointers_of(h0, s).len() implies {
                    &&& image(pairs, pointers_of(h0, s)[k], false) is Some
                    &&& resolves_to(
                        #[trigger] after.managed_pointers(this)[k],
                        image(pairs, pointers_of(h0, s)[k], false).unwrap(),
                    )
                } by {
                    lemma_pointer_relocated(h0, root_ptrs, s, k);
                    let to = choose|to: Ptr|
                        call_ensures(find, (&pointers_of(h0, s)[k],), to) && resolves_to(
                            after.managed_pointers(this)[k],
                            to,
                        );
                    assert(Some(to) == image(pairs, pointers_of(h0, s)[k], false));
                }
                assert(rewritten(h0, pairs, s, next.values()[m as int], next.directory()[m as int]));
                assert forall|x: int| 0 <= x < m + 1 implies rewritten(
                    h0,
                    pairs,
                    #[trigger] moved[x],
                    next.values()[x],
                    next.directory()[x],
                ) by {
                    if x < m {
                        assert(next.values()[x] == before[x]);
                    }
                }
            }
            m += 1;
        }
        proof {
            if h0.sized() {
                assert forall|x: int| 0 <= x < next.directory().len() implies (
                #[trigger] next.values()[x]).size_spec() == next.directory()[x].raw().size by {
                    assert(rewritten(h0, pairs, moved[x], next.values()[x], next.directory()[x]));
                    assert(vals0[moved[x]].size_spec() == dir0[moved[x]].raw().size);
                }
            }
        }
        // reset the active heap - should not drop anything, since everything has been moved
        self.active.reset();
        // and swap them
        self.active = next;
        // update root pointers
        let mut r: usize = 0;
        while r < roots.len()
            invariant
                r <= roots@.len(),
                roots@.len() == root_refs.len(),
                h0.wf(),
                traceable(h0, root_ptrs),
                marks == live(h0, root_ptrs),
                dir0 == h0.directory(),
                to == next_region(h0.region()),
                rel.wf(),
                rel.pairs() == relocation(to, dir0, marks, 0),
                root_ptrs == Seq::new(root_refs.len(), |i: int| *root_refs[i]),
                forall|j: int|
                    0 <= j < roots@.len() ==> *final(#[trigger] roots@[j]) == *final(root_refs[j]),
                forall|j: int| r <= j < roots@.len() ==> *(#[trigger] roots@[j]) == *root_refs[j],
                forall|j: int|
                    0 <= j < r ==> Some(*(#[trigger] roots@[j])) == image(
                        rel.pairs(),
                        *root_refs[j],
                        false,
                    ),
            decreases roots@.len() - r,
        {
            proof {
                lemma_root_relocated(h0, root_ptrs, r as int);
                assert(root_ptrs[r as int] == *roots@[r as int]);
            }
            let moved_to = rel.find(&*roots[r], false).unwrap();
            *roots[r] = moved_to;
            r += 1;
        }
        let mut w: usize = 0;
        while w < weaks.len()
            invariant
                w <= weaks@.len(),
                rel.wf(),
                weaks@.len() == weak_refs.len(),
                forall|j: int|
                    0 <= j < weaks@.len() ==> *final(#[trigger] weaks@[j]) == *final(weak_refs[j]),
                forall|j: int| w <= j < weaks@.len() ==> *(#[trigger] weaks@[j]) == *weak_refs[j],
                forall|j: int|
                    0 <= j < w ==> *(#[trigger] weaks@[j]) == match image(
                        rel.pairs(),
                        *weak_refs[j],
                        true,
                    ) {
                        Some(ptr) => ptr,
                        None => *weak_refs[j],
                    },
            decreases weaks@.len() - w,
        {
            match rel.find(&*weaks[w], true) {
                None => {},
                Some(p) => {
                    *weaks[w] = p;
                },
            }
            w += 1;
        }
        proof {
            assert(has_resolved(roots));
            assert(has_resolved(weaks));
            let roots_after = Seq::new(root_refs.len(), |i: int| *final(root_refs[i]));
            let weaks_after = Seq::new(weak_refs.len(), |i: int| *final(weak_refs[i]));
            assert forall|i: int| 0 <= i < root_ptrs.len() implies Some(
                #[trigger] roots_after[i],
            ) == image(pairs, root_ptrs[i], false) by {
                assert(has_resolved(roots@[i]));
                assert(*roots@[i] == *final(roots@[i]));
            }
            assert forall|i: int| 0 <= i < weak_ptrs.len() implies #[trigger] weaks_after[i]
                == match image(pairs, weak_ptrs[i], true) {
                Some(ptr) => ptr,
                None => weak_ptrs[i],
            } by {
                assert(has_resolved(weaks@[i]));
                assert(*weaks@[i] == *final(weaks@[i]));
            }
            assert(collects(h0, root_ptrs, weak_ptrs, self.active, roots_after, weaks_after));
        }
    }
}

} // verus!
