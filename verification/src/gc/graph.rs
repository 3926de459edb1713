//! The reference graph of a heap: which values point to which, and which are
//! reachable from a set of roots.

use crate::gc::GcCandidate;
use crate::heap::{Heap, HeapPtr, end_of, lemma_laid_out_distinct, resolves_to};
use vstd::prelude::*;

verus! {

/// The managed pointers that the value at index `i` holds.
pub open spec fn pointers_of<T: GcCandidate<Ptr>, Ptr: HeapPtr>(heap: Heap<T, Ptr>, i: int) -> Seq<Ptr> {
    heap.values()[i].managed_pointers(heap.directory()[i])
}

/// Whether `ptr` names a value of the heap.
pub open spec fn names_entry<T: GcCandidate<Ptr>, Ptr: HeapPtr>(heap: Heap<T, Ptr>, ptr: Ptr) -> bool {
    exists|t: int| 0 <= t < heap.directory().len() && resolves_to(ptr, #[trigger] heap.directory()[t])
}

/// The index of the value that `ptr` names.
pub open spec fn entry_of<T: GcCandidate<Ptr>, Ptr: HeapPtr>(heap: Heap<T, Ptr>, ptr: Ptr) -> int {
    choose|t: int| 0 <= t < heap.directory().len() && resolves_to(ptr, #[trigger] heap.directory()[t])
}

/// Whether the value at index `i` holds a pointer that names the value at index `j`.
pub open spec fn points_to<T: GcCandidate<Ptr>, Ptr: HeapPtr>(heap: Heap<T, Ptr>, i: int, j: int) -> bool {
    exists|k: int|
        0 <= k < pointers_of(heap, i).len() && resolves_to(
            #[trigger] pointers_of(heap, i)[k],
            heap.directory()[j],
        )
}

/// Whether `path` lists indices of the heap that start at a value that one of
/// `roots` points to and go on from each value to one that it points to.
pub open spec fn is_path<T: GcCandidate<Ptr>, Ptr: HeapPtr>(
    heap: Heap<T, Ptr>,
    roots: Seq<Ptr>,
    path: Seq<int>,
) -> bool {
    &&& path.len() > 0
    &&& forall|s: int| 0 <= s < path.len() ==> 0 <= #[trigger] path[s] < heap.directory().len()
    &&& roots.contains(heap.directory()[path[0]])
    &&& forall|s: int| 0 <= s < path.len() - 1 ==> points_to(heap, #[trigger] path[s], path[s + 1])
}

/// Whether the value at index `j` is reachable from `roots` in the reference graph.
pub open spec fn reachable<T: GcCandidate<Ptr>, Ptr: HeapPtr>(
    heap: Heap<T, Ptr>,
    roots: Seq<Ptr>,
    j: int,
) -> bool {
    exists|path: Seq<int>| #[trigger] is_path(heap, roots, path) && path.last() == j
}

/// Whether every root, and every pointer held by a value reachable from `roots`,
/// names a value of the heap.
pub open spec fn traceable<T: GcCandidate<Ptr>, Ptr: HeapPtr>(heap: Heap<T, Ptr>, roots: Seq<Ptr>) -> bool {
    &&& forall|i: int| 0 <= i < roots.len() ==> heap.directory().contains(#[trigger] roots[i])
    &&& forall|j: int, k: int|
        0 <= j < heap.directory().len() && reachable(heap, roots, j) && 0 <= k < pointers_of(
            heap,
            j,
        ).len() ==> names_entry(heap, #[trigger] pointers_of(heap, j)[k])
}

/// Whether the marked values point to marked values only.
pub open spec fn closed<T: GcCandidate<Ptr>, Ptr: HeapPtr>(heap: Heap<T, Ptr>, marks: Seq<bool>) -> bool {
    forall|j: int, k: int|
        0 <= j < heap.directory().len() && marks[j] && 0 <= k < pointers_of(heap, j).len() ==> {
            &&& names_entry(heap, #[trigger] pointers_of(heap, j)[k])
            &&& marks[entry_of(heap, pointers_of(heap, j)[k])]
        }
}

/// For each index of the heap, whether the address of the value there is in
/// `marked`.
pub open spec fn marks_of<T: GcCandidate<Ptr>, Ptr: HeapPtr>(
    heap: Heap<T, Ptr>,
    marked: Set<usize>,
) -> Seq<bool> {
    Seq::new(heap.directory().len(), |j: int| marked.contains(heap.directory()[j].raw().addr))
}

/// In a well-formed heap no two values stand at the same address.
pub proof fn lemma_addresses_distinct<T: GcCandidate<Ptr>, Ptr: HeapPtr>(
    heap: Heap<T, Ptr>,
    i: int,
    j: int,
)
    requires
        heap.wf(),
        0 <= i < heap.directory().len(),
        0 <= j < heap.directory().len(),
        heap.directory()[i].raw().addr == heap.directory()[j].raw().addr,
    ensures
        i == j,
{
    if i < j {
        assert(end_of(heap.directory()[i]) <= heap.directory()[j].raw().addr);
    } else if j < i {
        assert(end_of(heap.directory()[j]) <= heap.directory()[i].raw().addr);
    }
}

/// The number of entries of `marks` that are not set.
pub open spec fn unmarked(marks: Seq<bool>) -> int
    decreases marks.len(),
{
    if marks.len() == 0 {
        0
    } else {
        unmarked(marks.drop_last()) + if marks.last() {
            0int
        } else {
            1int
        }
    }
}

pub proof fn lemma_unmarked_bounds(marks: Seq<bool>)
    ensures
        0 <= unmarked(marks) <= marks.len(),
    decreases marks.len(),
{
    if marks.len() > 0 {
        lemma_unmarked_bounds(marks.drop_last());
    }
}

/// Marking one more entry lowers the number of unmarked entries by one.
pub proof fn lemma_unmarked_set(marks: Seq<bool>, t: int)
    requires
        0 <= t < marks.len(),
        !marks[t],
    ensures
        unmarked(marks.update(t, true)) == unmarked(marks) - 1,
    decreases marks.len(),
{
    let after = marks.update(t, true);
    if t == marks.len() - 1 {
        assert(after.drop_last() =~= marks.drop_last());
    } else {
        assert(after.drop_last() =~= marks.drop_last().update(t, true));
        lemma_unmarked_set(marks.drop_last(), t);
    }
}

/// In a well-formed heap a pointer names at most one value.
pub proof fn lemma_entry_unique<T: GcCandidate<Ptr>, Ptr: HeapPtr>(heap: Heap<T, Ptr>, ptr: Ptr, t: int)
    requires
        heap.wf(),
        0 <= t < heap.directory().len(),
        resolves_to(ptr, heap.directory()[t]),
    ensures
        names_entry(heap, ptr),
        entry_of(heap, ptr) == t,
{
    let e = entry_of(heap, ptr);
    lemma_laid_out_distinct(heap.directory(), heap.used() as int, e, t);
}

/// The value that a root points to is reachable.
pub proof fn lemma_root_reachable<T: GcCandidate<Ptr>, Ptr: HeapPtr>(
    heap: Heap<T, Ptr>,
    roots: Seq<Ptr>,
    t: int,
)
    requires
        0 <= t < heap.directory().len(),
        roots.contains(heap.directory()[t]),
    ensures
        reachable(heap, roots, t),
{
    let path = seq![t];
    assert(is_path(heap, roots, path));
    assert(path.last() == t);
}

/// What a reachable value points to is reachable.
pub proof fn lemma_step_reachable<T: GcCandidate<Ptr>, Ptr: HeapPtr>(
    heap: Heap<T, Ptr>,
    roots: Seq<Ptr>,
    i: int,
    j: int,
)
    requires
        reachable(heap, roots, i),
        0 <= j < heap.directory().len(),
        points_to(heap, i, j),
    ensures
        reachable(heap, roots, j),
{
    let path = choose|path: Seq<int>| #[trigger] is_path(heap, roots, path) && path.last() == i;
    let longer = path.push(j);
    assert forall|s: int| 0 <= s < longer.len() - 1 implies points_to(
        heap,
        #[trigger] longer[s],
        longer[s + 1],
    ) by {
        if s < path.len() - 1 {
            assert(longer[s] == path[s]);
            assert(longer[s + 1] == path[s + 1]);
        }
    }
    assert(longer[0] == path[0]);
    assert(is_path(heap, roots, longer));
    assert(longer.last() == j);
}

/// A closed set of marks that holds what the roots point to holds the end of
/// every path.
pub proof fn lemma_path_marked<T: GcCandidate<Ptr>, Ptr: HeapPtr>(
    heap: Heap<T, Ptr>,
    roots: Seq<Ptr>,
    marks: Seq<bool>,
    path: Seq<int>,
)
    requires
        heap.wf(),
        closed(heap, marks),
        forall|t: int|
            0 <= t < heap.directory().len() && roots.contains(#[trigger] heap.directory()[t])
                ==> marks[t],
        is_path(heap, roots, path),
    ensures
        marks[path.last()],
    decreases path.len(),
{
    if path.len() > 1 {
        let front = path.drop_last();
        assert(is_path(heap, roots, front)) by {
            assert(front[0] == path[0]);
            assert forall|s: int| 0 <= s < front.len() - 1 implies points_to(
                heap,
                #[trigger] front[s],
                front[s + 1],
            ) by {
                assert(front[s] == path[s]);
                assert(front[s + 1] == path[s + 1]);
            }
        }
        lemma_path_marked(heap, roots, marks, front);
        let i = path[path.len() - 2];
        let j = path.last();
        assert(front.last() == i);
        assert(points_to(heap, i, j));
        let k = choose|k: int|
            0 <= k < pointers_of(heap, i).len() && resolves_to(
                #[trigger] pointers_of(heap, i)[k],
                heap.directory()[j],
            );
        lemma_entry_unique(heap, pointers_of(heap, i)[k], j);
    } else {
        assert(path.last() == path[0]);
    }
}

/// Reachability grows with the roots.
pub proof fn lemma_reachable_monotone<T: GcCandidate<Ptr>, Ptr: HeapPtr>(
    heap: Heap<T, Ptr>,
    fewer: Seq<Ptr>,
    roots: Seq<Ptr>,
    j: int,
)
    requires
        forall|p: Ptr| fewer.contains(p) ==> roots.contains(p),
        reachable(heap, fewer, j),
    ensures
        reachable(heap, roots, j),
{
    let path = choose|path: Seq<int>| #[trigger] is_path(heap, fewer, path) && path.last() == j;
    assert(is_path(heap, roots, path));
}

/// Whether `ptr` is the pointer of a value that is reachable from `roots`.
pub open spec fn awaits<T: GcCandidate<Ptr>, Ptr: HeapPtr>(
    heap: Heap<T, Ptr>,
    roots: Seq<Ptr>,
    ptr: Ptr,
) -> bool {
    exists|t: int|
        0 <= t < heap.directory().len() && #[trigger] heap.directory()[t] == ptr && reachable(
            heap,
            roots,
            t,
        )
}

/// Whether each pointer held by a marked value names a value that is marked or
/// whose pointer waits on `stack`.
pub open spec fn closed_upto<T: GcCandidate<Ptr>, Ptr: HeapPtr>(
    heap: Heap<T, Ptr>,
    marks: Seq<bool>,
    stack: Seq<Ptr>,
) -> bool {
    forall|j: int, k: int|
        0 <= j < heap.directory().len() && marks[j] && 0 <= k < pointers_of(heap, j).len() ==> {
            &&& names_entry(heap, #[trigger] pointers_of(heap, j)[k])
            &&& (marks[entry_of(heap, pointers_of(heap, j)[k])] || stack.contains(
                heap.directory()[entry_of(heap, pointers_of(heap, j)[k])],
            ))
        }
}

/// One step of the marking loop keeps the marks closed up to the stack: the
/// pointer of the value at `t` leaves the stack, the value is marked, and where
/// it was not marked before, what it points to waits on the stack.
pub proof fn lemma_closed_step<T: GcCandidate<Ptr>, Ptr: HeapPtr>(
    heap: Heap<T, Ptr>,
    marks: Seq<bool>,
    before: Seq<Ptr>,
    marks_after: Seq<bool>,
    after: Seq<Ptr>,
    t: int,
)
    requires
        heap.wf(),
        marks.len() == heap.directory().len(),
        marks_after.len() == marks.len(),
        closed_upto(heap, marks, before),
        before.len() > 0,
        0 <= t < heap.directory().len(),
        heap.directory()[t] == before.last(),
        marks_after[t],
        forall|j: int| 0 <= j < marks.len() && j != t ==> marks_after[j] == marks[j],
        forall|s: int| 0 <= s < before.len() - 1 ==> after.contains(#[trigger] before[s]),
        marks[t] || forall|k: int|
            0 <= k < pointers_of(heap, t).len() ==> {
                &&& names_entry(heap, #[trigger] pointers_of(heap, t)[k])
                &&& after.contains(heap.directory()[entry_of(heap, pointers_of(heap, t)[k])])
            },
    ensures
        closed_upto(heap, marks_after, after),
{
    assert forall|j: int, k: int|
        0 <= j < heap.directory().len() && marks_after[j] && 0 <= k < pointers_of(
            heap,
            j,
        ).len() implies {
        &&& names_entry(heap, #[trigger] pointers_of(heap, j)[k])
        &&& (marks_after[entry_of(heap, pointers_of(heap, j)[k])] || after.contains(
            heap.directory()[entry_of(heap, pointers_of(heap, j)[k])],
        ))
    } by {
        let q = pointers_of(heap, j)[k];
        if marks[j] {
            let e = entry_of(heap, q);
            if !marks[e] {
                let s = choose|s: int| 0 <= s < before.len() && before[s] == heap.directory()[e];
                if s == before.len() - 1 {
                    lemma_laid_out_distinct(heap.directory(), heap.used() as int, e, t);
                } else {
                    assert(after.contains(before[s]));
                }
            } else if e != t {
                assert(marks_after[e] == marks[e]);
            }
        }
    }
}

/// What is reachable from the first `i + 1` roots is reachable from the first
/// `i` roots or from the root after them.
pub proof fn lemma_reachable_extend<T: GcCandidate<Ptr>, Ptr: HeapPtr>(
    heap: Heap<T, Ptr>,
    roots: Seq<Ptr>,
    i: int,
    j: int,
)
    requires
        0 <= i < roots.len(),
    ensures
        reachable(heap, roots.take(i + 1), j) == (reachable(heap, roots.take(i), j) || reachable(
            heap,
            seq![roots[i]],
            j,
        )),
{
    let more = roots.take(i + 1);
    let fewer = roots.take(i);
    let one = seq![roots[i]];
    if reachable(heap, more, j) {
        let path = choose|path: Seq<int>| #[trigger] is_path(heap, more, path) && path.last() == j;
        let r = heap.directory()[path[0]];
        let x = choose|x: int| 0 <= x < more.len() && more[x] == r;
        if x < i {
            assert(fewer[x] == r);
            assert(is_path(heap, fewer, path));
        } else {
            assert(one[0] == r);
            assert(is_path(heap, one, path));
        }
    }
    if reachable(heap, fewer, j) {
        assert forall|p: Ptr| fewer.contains(p) implies more.contains(p) by {
            let x = choose|x: int| 0 <= x < fewer.len() && fewer[x] == p;
            assert(more[x] == p);
        }
        lemma_reachable_monotone(heap, fewer, more, j);
    }
    if reachable(heap, one, j) {
        assert forall|p: Ptr| one.contains(p) implies more.contains(p) by {
            assert(more[i] == roots[i]);
        }
        lemma_reachable_monotone(heap, one, more, j);
    }
}

} // verus!
