//! The field-state tree: a prefix tree of values that may be missing, whose
//! nodes below the root live in one arena and are handed out in runs by a
//! range allocator.

use crate::fieldvalue::FieldValue;
use crate::rangealloc::{can_fit, first_fit, fits, span, RangeAlloc, RangeAllocError};
use std::ops::Range;
use vstd::prelude::*;

verus! {

/// One node of the tree: a value that may be missing, and the run of arena
/// slots that holds its children, if it has any.
#[derive(Debug, Clone)]
pub struct FieldState {
    pub value: Option<FieldValue>,
    pub children: Option<Range<usize>>,
}

/// The node without a value and without children.
pub open spec fn empty_node() -> FieldState {
    FieldState { value: None, children: None }
}

/// How many children a node has room for.
pub open spec fn child_count(node: FieldState) -> nat {
    match node.children {
        Some(r) => if r.start <= r.end {
            (r.end - r.start) as nat
        } else {
            0
        },
        None => 0,
    }
}

/// The arena slot of child `c` of `node`, where the node has that child.
pub open spec fn child_slot(node: FieldState, arena_len: nat, c: usize) -> Option<int> {
    if c < child_count(node) && node.children->0.start + c < arena_len {
        Some(node.children->0.start + c)
    } else {
        None
    }
}

/// The node that `path` leads to from `root`, where there is one.
pub open spec fn node_at(root: FieldState, arena: Seq<FieldState>, path: Seq<usize>) -> Option<
    FieldState,
>
    decreases path.len(),
{
    if path.len() == 0 {
        Some(root)
    } else {
        match node_at(root, arena, path.drop_last()) {
            Some(parent) => match child_slot(parent, arena.len(), path.last()) {
                Some(k) => Some(arena[k]),
                None => None,
            },
            None => None,
        }
    }
}

/// The arena slot of the node that a non-empty `path` leads to.
pub open spec fn slot_at(root: FieldState, arena: Seq<FieldState>, path: Seq<usize>) -> Option<
    int,
> {
    if path.len() == 0 {
        None
    } else {
        match node_at(root, arena, path.drop_last()) {
            Some(parent) => child_slot(parent, arena.len(), path.last()),
            None => None,
        }
    }
}

/// The value stored at `path`, `None` where nothing was ever written there.
pub open spec fn value_at(root: FieldState, arena: Seq<FieldState>, path: Seq<usize>) -> Option<
    FieldValue,
> {
    match node_at(root, arena, path) {
        Some(n) => n.value,
        None => None,
    }
}

/// How many children the node at `path` has room for; zero where no node is.
pub open spec fn count_at(root: FieldState, arena: Seq<FieldState>, path: Seq<usize>) -> nat {
    match node_at(root, arena, path) {
        Some(n) => child_count(n),
        None => 0,
    }
}

/// `q` is `path` cut short by at least one component.
pub open spec fn is_proper_prefix(q: Seq<usize>, path: Seq<usize>) -> bool {
    q.len() < path.len() && path.take(q.len() as int) == q
}

/// The room for children that a node with room for `count` has once child
/// `c` must fit: eight at least for a node that had none, else the old room
/// doubled until `c` is inside.
pub open spec fn grown_count(count: nat, c: nat) -> nat
    decreases (if c >= count {
        c + 1 - count
    } else {
        0
    }),
{
    if count == 0 {
        if c + 1 > 8 {
            c + 1
        } else {
            8
        }
    } else if c < count {
        count
    } else {
        grown_count(2 * count, c)
    }
}

/// The grown room holds child `c`, and is no smaller than the old room.
pub proof fn lemma_grown_count_bounds(count: nat, c: nat)
    ensures
        grown_count(count, c) > c,
        grown_count(count, c) >= count,
        c < count ==> grown_count(count, c) == count,
    decreases (if c >= count {
        c + 1 - count
    } else {
        0
    }),
{
    if count != 0 && c >= count {
        lemma_grown_count_bounds(2 * count, c);
    }
}

/// The arena slots that the children of the node at `path` take.
pub open spec fn run_at(root: FieldState, arena: Seq<FieldState>, path: Seq<usize>) -> Set<int> {
    match node_at(root, arena, path) {
        Some(n) => span(first_child(n), child_count(n) as int),
        None => Set::empty(),
    }
}

/// Whether the pool has room for the walk along `path` from component `i`
/// on, where every node from there on is new: each takes the lowest free run
/// that holds its child, out of what the nodes before it left.
pub open spec fn fresh_fits(free: Set<int>, path: Seq<usize>, i: int) -> bool
    decreases path.len() - i,
{
    if i < 0 || i >= path.len() {
        true
    } else {
        let g = grown_count(0, path[i] as nat) as int;
        can_fit(free, g) && fresh_fits(free.difference(span(first_fit(free, g), g)), path, i + 1)
    }
}

/// Whether the pool has room for the walk along `path` from component `i`
/// on. A node that has the child asked for takes nothing. The first node that
/// lacks it takes the lowest free run that holds its grown room and gives
/// back the run it had, and every node after it is new.
pub open spec fn walk_fits(
    root: FieldState,
    arena: Seq<FieldState>,
    free: Set<int>,
    path: Seq<usize>,
    i: int,
) -> bool
    decreases path.len() - i,
{
    if i < 0 || i >= path.len() {
        true
    } else if path[i] < count_at(root, arena, path.take(i)) {
        walk_fits(root, arena, free, path, i + 1)
    } else {
        let g = grown_count(count_at(root, arena, path.take(i)), path[i] as nat) as int;
        can_fit(free, g) && fresh_fits(
            free.difference(span(first_fit(free, g), g)).union(run_at(root, arena, path.take(i))),
            path,
            i + 1,
        )
    }
}

/// The children's run of a node is non-empty and inside the arena.
pub open spec fn range_ok(node: FieldState, arena_len: nat) -> bool {
    match node.children {
        Some(r) => r.start < r.end <= arena_len,
        None => true,
    }
}

spec fn free_is_blank(arena: Seq<FieldState>, free: Set<int>) -> bool {
    forall|k: int| 0 <= k < arena.len() && free.contains(k) ==> #[trigger] arena[k] == empty_node()
}

spec fn slots_taken(root: FieldState, arena: Seq<FieldState>, free: Set<int>) -> bool {
    forall|q: Seq<usize>|
        (#[trigger] slot_at(root, arena, q)) matches Some(k) ==> !free.contains(k)
}

spec fn ranges_ok(root: FieldState, arena: Seq<FieldState>) -> bool {
    forall|q: Seq<usize>|
        (#[trigger] node_at(root, arena, q)) matches Some(n) ==> range_ok(n, arena.len())
}

spec fn slots_distinct(root: FieldState, arena: Seq<FieldState>) -> bool {
    forall|q1: Seq<usize>, q2: Seq<usize>|
        (#[trigger] slot_at(root, arena, q1)) is Some && slot_at(root, arena, q1) == (
        #[trigger] slot_at(root, arena, q2)) ==> q1 == q2
}

spec fn shape_inv(root: FieldState, arena: Seq<FieldState>, free: Set<int>) -> bool {
    &&& free_is_blank(arena, free)
    &&& slots_taken(root, arena, free)
    &&& ranges_ok(root, arena)
    &&& slots_distinct(root, arena)
}

spec fn tail_is_free(arena_len: nat, limit: nat, free: Set<int>) -> bool {
    forall|k: int| arena_len <= k < limit ==> free.contains(k)
}

/// The tree under `root` is sound in `arena` with `alloc`: every run of
/// children lies inside the arena, no two paths lead to the same slot, no
/// slot of the tree is free, every free slot of the arena holds the empty
/// node, and the pool beyond the arena's end is free.
pub closed spec fn tree_inv(root: FieldState, arena: Seq<FieldState>, alloc: RangeAlloc) -> bool {
    &&& alloc.wf()
    &&& arena.len() <= alloc.limit()
    &&& shape_inv(root, arena, alloc@)
    &&& tail_is_free(arena.len(), alloc.limit(), alloc@)
}

/// An upper bound on the slots that making room for child `c` takes.
pub open spec fn room_for(c: usize) -> nat {
    (2 * c + 8) as nat
}

/// An upper bound on the slots that walking `path` takes from the arena.
pub open spec fn demand(path: Seq<usize>) -> nat
    decreases path.len(),
{
    if path.len() == 0 {
        0
    } else {
        demand(path.drop_last()) + room_for(path.last())
    }
}

/// A longer walk demands no less.
pub proof fn lemma_demand_prefix(path: Seq<usize>, i: int)
    requires
        0 <= i <= path.len(),
    ensures
        demand(path.take(i)) <= demand(path),
    decreases path.len() - i,
{
    if i < path.len() {
        assert(path.take(i + 1).drop_last() =~= path.take(i));
        lemma_demand_prefix(path, i + 1);
    } else {
        assert(path.take(i) =~= path);
    }
}

/// The grown room stays within the bound.
pub proof fn lemma_grown_count_room(count: nat, c: usize)
    requires
        count <= c,
    ensures
        grown_count(count, c as nat) <= room_for(c),
    decreases c - count,
{
    if count != 0 {
        if 2 * count <= c {
            lemma_grown_count_room(2 * count, c);
        } else {
            assert(grown_count(2 * count, c as nat) == 2 * count);
        }
    }
}

/// A node that nothing leads to has nothing below it.
pub proof fn lemma_none_extends(root: FieldState, arena: Seq<FieldState>, path: Seq<usize>, i: int)
    requires
        0 <= i <= path.len(),
        node_at(root, arena, path.take(i)) is None,
    ensures
        node_at(root, arena, path) is None,
    decreases path.len() - i,
{
    if i < path.len() {
        assert(path.take(i + 1).drop_last() =~= path.take(i));
        lemma_none_extends(root, arena, path, i + 1);
    } else {
        assert(path.take(i) =~= path);
    }
}

/// A root without children is sound in an empty arena with a fresh allocator.
pub proof fn lemma_fresh_tree(root: FieldState, alloc: RangeAlloc)
    requires
        root.children is None,
        alloc.wf(),
        alloc@ == span(0, alloc.limit() as int),
    ensures
        tree_inv(root, Seq::<FieldState>::empty(), alloc),
        forall|q: Seq<usize>| q.len() > 0 ==> node_at(root, Seq::<FieldState>::empty(), q) is None,
{
    let arena = Seq::<FieldState>::empty();
    assert forall|q: Seq<usize>| q.len() > 0 implies node_at(root, arena, q) is None by {
        assert(q.take(1).drop_last() =~= Seq::<usize>::empty());
        assert(node_at(root, arena, q.take(1).drop_last()) == Some(root));
        lemma_none_extends(root, arena, q, 1);
    }
    assert forall|q: Seq<usize>| slot_at(root, arena, q) is None by {
        if q.len() > 0 {
            if q.len() > 1 {
                assert(node_at(root, arena, q.drop_last()) is None);
            }
        }
    }
}

/// A sound tree has a sound allocator, and its arena fits the pool.
pub proof fn lemma_tree_inv_alloc(root: FieldState, arena: Seq<FieldState>, alloc: RangeAlloc)
    requires
        tree_inv(root, arena, alloc),
    ensures
        alloc.wf(),
        arena.len() <= alloc.limit(),
{
}

/// Soundness speaks of the arena's contents and of the free indices only.
pub proof fn lemma_tree_inv_same(
    root: FieldState,
    arena: Seq<FieldState>,
    alloc: RangeAlloc,
    arena2: Seq<FieldState>,
    alloc2: RangeAlloc,
)
    requires
        tree_inv(root, arena, alloc),
        arena2 == arena,
        alloc2.wf(),
        alloc2.limit() == alloc.limit(),
        alloc2@ == alloc@,
    ensures
        tree_inv(root, arena2, alloc2),
{
}

// ---------------------------------------------------------------------------
// Giving a node a longer run of children
// ---------------------------------------------------------------------------

spec fn repointed(n: FieldState, b: int, new_len: int) -> FieldState {
    FieldState { value: n.value, children: Some(Range { start: b as usize, end: (b + new_len) as usize }) }
}

/// The first slot of a node's children; zero for a node without children.
pub open spec fn first_child(n: FieldState) -> int {
    if child_count(n) > 0 {
        n.children->0.start as int
    } else {
        0
    }
}

/// What slot `k` holds once the children of `n` have moved from the run at
/// `a` to the run of `new_len` slots at `b`.
spec fn regrown_cell(
    arena: Seq<FieldState>,
    n: FieldState,
    pslot: Option<int>,
    b: int,
    new_len: int,
    k: int,
) -> FieldState {
    let a = first_child(n);
    let old_len = child_count(n) as int;
    if b <= k < b + old_len {
        arena[k - b + a]
    } else if b + old_len <= k < b + new_len {
        empty_node()
    } else if a <= k < a + old_len {
        empty_node()
    } else if pslot == Some(k) {
        repointed(n, b, new_len)
    } else if k < arena.len() {
        arena[k]
    } else {
        empty_node()
    }
}

/// The node at `p` got the free run of `new_len` slots at `b` for its
/// children, and `root2`, `arena2` are what came of it.
spec fn regrow_step(
    root: FieldState,
    arena: Seq<FieldState>,
    free: Set<int>,
    root2: FieldState,
    arena2: Seq<FieldState>,
    p: Seq<usize>,
    b: int,
    new_len: int,
) -> bool {
    let n = node_at(root, arena, p)->0;
    &&& shape_inv(root, arena, free)
    &&& node_at(root, arena, p) is Some
    &&& child_count(n) < new_len
    &&& 0 <= b
    &&& b + new_len <= usize::MAX
    &&& fits(free, b, new_len)
    &&& arena.len() <= arena2.len()
    &&& b + new_len <= arena2.len()
    &&& root2 == (if p.len() == 0 {
        repointed(root, b, new_len)
    } else {
        root
    })
    &&& forall|k: int|
        0 <= k < arena2.len() ==> #[trigger] arena2[k] == regrown_cell(
            arena,
            n,
            slot_at(root, arena, p),
            b,
            new_len,
            k,
        )
}

/// The slots of the children of the node at `p` are taken, and none of them
/// is the slot of the node itself.
proof fn lemma_children_slots(
    root: FieldState,
    arena: Seq<FieldState>,
    free: Set<int>,
    p: Seq<usize>,
    k: int,
)
    requires
        shape_inv(root, arena, free),
        node_at(root, arena, p) is Some,
        first_child(node_at(root, arena, p)->0) <= k < first_child(node_at(root, arena, p)->0)
            + child_count(node_at(root, arena, p)->0),
    ensures
        0 <= k < arena.len(),
        !free.contains(k),
        slot_at(root, arena, p) != Some(k),
        slot_at(root, arena, p.push((k - first_child(node_at(root, arena, p)->0)) as usize))
            == Some(k),
{
    let n = node_at(root, arena, p)->0;
    let a = first_child(n);
    let j = (k - a) as usize;
    let pj = p.push(j);
    assert(range_ok(n, arena.len()));
    assert(pj.drop_last() =~= p);
    assert(pj.last() == j);
    assert(child_slot(n, arena.len(), j) == Some(k));
    assert(slot_at(root, arena, pj) == Some(k));
    if slot_at(root, arena, p) == Some(k) {
        assert(pj == p);
        assert(false);
    }
}

/// A slot of the old tree that is neither the slot of the node at `p` nor of
/// one of its children holds what it held.
proof fn lemma_slot_untouched(
    root: FieldState,
    arena: Seq<FieldState>,
    free: Set<int>,
    root2: FieldState,
    arena2: Seq<FieldState>,
    p: Seq<usize>,
    b: int,
    new_len: int,
    q: Seq<usize>,
)
    requires
        regrow_step(root, arena, free, root2, arena2, p, b, new_len),
        slot_at(root, arena, q) is Some,
        q != p,
        q.len() == 0 || q.drop_last() != p,
    ensures
        0 <= slot_at(root, arena, q)->0 < arena.len(),
        !(b <= slot_at(root, arena, q)->0 < b + new_len),
        arena2[slot_at(root, arena, q)->0] == arena[slot_at(root, arena, q)->0],
{
    let k = slot_at(root, arena, q)->0;
    let n = node_at(root, arena, p)->0;
    let a = first_child(n);
    assert(!free.contains(k));
    if a <= k < a + child_count(n) {
        lemma_children_slots(root, arena, free, p, k);
        let pj = p.push((k - a) as usize);
        assert(pj.drop_last() =~= p);
        assert(q == pj);
        assert(false);
    }
    if slot_at(root, arena, p) == Some(k) {
        assert(q == p);
    }
    assert(arena2[k] == regrown_cell(arena, n, slot_at(root, arena, p), b, new_len, k));
}

/// How the node and the slot at `q` after the step relate to those before.
spec fn regrown_at(
    root: FieldState,
    arena: Seq<FieldState>,
    root2: FieldState,
    arena2: Seq<FieldState>,
    p: Seq<usize>,
    b: int,
    new_len: int,
    q: Seq<usize>,
) -> bool {
    let n = node_at(root, arena, p)->0;
    if q == p {
        &&& node_at(root2, arena2, q) == Some(repointed(n, b, new_len))
        &&& slot_at(root2, arena2, q) == slot_at(root, arena, q)
    } else if q.len() > 0 && q.drop_last() == p && q.last() < new_len {
        &&& slot_at(root2, arena2, q) == Some(b + q.last())
        &&& node_at(root2, arena2, q) == Some(
            if q.last() < child_count(n) {
                node_at(root, arena, q)->0
            } else {
                empty_node()
            },
        )
        &&& q.last() < child_count(n) ==> node_at(root, arena, q) is Some
        &&& q.last() >= child_count(n) ==> node_at(root, arena, q) is None
    } else {
        &&& node_at(root2, arena2, q) == node_at(root, arena, q)
        &&& slot_at(root2, arena2, q) == slot_at(root, arena, q)
    }
}

proof fn lemma_regrown_at(
    root: FieldState,
    arena: Seq<FieldState>,
    free: Set<int>,
    root2: FieldState,
    arena2: Seq<FieldState>,
    p: Seq<usize>,
    b: int,
    new_len: int,
    q: Seq<usize>,
)
    requires
        regrow_step(root, arena, free, root2, arena2, p, b, new_len),
    ensures
        regrown_at(root, arena, root2, arena2, p, b, new_len, q),
    decreases q.len(),
{
    let n = node_at(root, arena, p)->0;
    let a = first_child(n);
    let old_len = child_count(n) as int;
    let n2 = repointed(n, b, new_len);
    assert(range_ok(n, arena.len()));
    if q.len() == 0 {
        if p.len() == 0 {
            assert(q =~= p);
        }
    } else {
        let q0 = q.drop_last();
        let c = q.last();
        lemma_regrown_at(root, arena, free, root2, arena2, p, b, new_len, q0);
        if q0 == p {
            assert(node_at(root2, arena2, q0) == Some(n2));
            if c < new_len {
                assert(child_slot(n2, arena2.len(), c) == Some(b + c));
                assert(arena2[b + c] == regrown_cell(arena, n, slot_at(root, arena, p), b, new_len, b + c));
                if c < old_len {
                    assert(child_slot(n, arena.len(), c) == Some(a + c));
                } else {
                    assert(child_slot(n, arena.len(), c) is None);
                }
            } else {
                assert(child_slot(n2, arena2.len(), c) is None);
                assert(child_slot(n, arena.len(), c) is None);
            }
        } else if q0.len() > 0 && q0.drop_last() == p && q0.last() < new_len {
            if q0.last() < old_len {
                let x = node_at(root, arena, q0)->0;
                assert(node_at(root2, arena2, q0) == Some(x));
                assert(range_ok(x, arena.len()));
                assert(child_slot(x, arena2.len(), c) == child_slot(x, arena.len(), c));
                if child_slot(x, arena.len(), c) is Some {
                    lemma_slot_untouched(root, arena, free, root2, arena2, p, b, new_len, q);
                }
            } else {
                assert(node_at(root2, arena2, q0) == Some(empty_node()));
                assert(node_at(root, arena, q0) is None);
            }
        } else {
            assert(node_at(root2, arena2, q0) == node_at(root, arena, q0));
            if node_at(root, arena, q0) is Some {
                let x = node_at(root, arena, q0)->0;
                assert(range_ok(x, arena.len()));
                assert(child_slot(x, arena2.len(), c) == child_slot(x, arena.len(), c));
                if child_slot(x, arena.len(), c) is Some {
                    let k = child_slot(x, arena.len(), c)->0;
                    assert(slot_at(root, arena, q) == Some(k));
                    if q == p {
                        assert(!free.contains(k));
                        if a <= k < a + old_len {
                            lemma_children_slots(root, arena, free, p, k);
                        }
                        assert(arena2[k] == regrown_cell(arena, n, slot_at(root, arena, p), b, new_len, k));
                    } else {
                        lemma_slot_untouched(root, arena, free, root2, arena2, p, b, new_len, q);
                    }
                }
            }
        }
    }
}

/// What holds of the tree once a node has its longer run.
proof fn lemma_regrow(
    root: FieldState,
    arena: Seq<FieldState>,
    free: Set<int>,
    root2: FieldState,
    arena2: Seq<FieldState>,
    free2: Set<int>,
    p: Seq<usize>,
    b: int,
    new_len: int,
)
    requires
        regrow_step(root, arena, free, root2, arena2, p, b, new_len),
        free2 == free.difference(span(b, new_len)).union(
            span(
                first_child(node_at(root, arena, p)->0),
                child_count(node_at(root, arena, p)->0) as int,
            ),
        ),
    ensures
        shape_inv(root2, arena2, free2),
        forall|q: Seq<usize>| value_at(root2, arena2, q) == value_at(root, arena, q),
        forall|q: Seq<usize>|
            count_at(root2, arena2, q) == (if q == p {
                new_len as nat
            } else {
                count_at(root, arena, q)
            }),
        forall|c: usize| c < new_len ==> slot_at(root2, arena2, p.push(c)) == Some(b + c),
        node_at(root2, arena2, p) is Some,
        slot_at(root2, arena2, p) == slot_at(root, arena, p),
{
    let n = node_at(root, arena, p)->0;
    let a = first_child(n);
    let old_len = child_count(n) as int;
    assert forall|q: Seq<usize>| regrown_at(root, arena, root2, arena2, p, b, new_len, q) by {
        lemma_regrown_at(root, arena, free, root2, arena2, p, b, new_len, q);
    }
    assert(regrown_at(root, arena, root2, arena2, p, b, new_len, p));
    assert(range_ok(n, arena.len()));
    // the old run and the new run share no slot
    assert forall|k: int| a <= k < a + old_len implies !free.contains(k) && 0 <= k < arena.len()
        && slot_at(root, arena, p) != Some(k) by {
        lemma_children_slots(root, arena, free, p, k);
    }
    assert forall|k: int| 0 <= k < arena2.len() && free2.contains(k) implies #[trigger] arena2[k]
        == empty_node() by {
        assert(arena2[k] == regrown_cell(arena, n, slot_at(root, arena, p), b, new_len, k));
        if !(a <= k < a + old_len) {
            assert(free.contains(k));
            if slot_at(root, arena, p) == Some(k) {
                assert(false);
            }
        }
    }
    assert forall|q: Seq<usize>| (#[trigger] slot_at(root2, arena2, q)) is Some implies !free2.contains(
        slot_at(root2, arena2, q)->0,
    ) by {
        assert(regrown_at(root, arena, root2, arena2, p, b, new_len, q));
        let k = slot_at(root2, arena2, q)->0;
        if q == p {
            assert(slot_at(root, arena, q) == Some(k));
            assert(!free.contains(k));
        } else if q.len() > 0 && q.drop_last() == p && q.last() < new_len {
            assert(b <= k < b + new_len);
            assert(free.contains(k));
        } else {
            assert(slot_at(root, arena, q) == Some(k));
            assert(!free.contains(k));
            if a <= k < a + old_len {
                lemma_children_slots(root, arena, free, p, k);
                let pj = p.push((k - a) as usize);
                assert(pj.drop_last() =~= p);
                assert(q == pj);
                assert(false);
            }
        }
    }
    assert forall|q: Seq<usize>| (#[trigger] node_at(root2, arena2, q)) is Some implies range_ok(
        node_at(root2, arena2, q)->0,
        arena2.len(),
    ) by {
        assert(regrown_at(root, arena, root2, arena2, p, b, new_len, q));
        if q == p {
        } else if q.len() > 0 && q.drop_last() == p && q.last() < new_len {
            if q.last() < old_len {
                assert(range_ok(node_at(root, arena, q)->0, arena.len()));
            }
        } else {
            assert(range_ok(node_at(root, arena, q)->0, arena.len()));
        }
    }
    assert forall|q1: Seq<usize>, q2: Seq<usize>|
        (#[trigger] slot_at(root2, arena2, q1)) is Some && slot_at(root2, arena2, q1) == (
        #[trigger] slot_at(root2, arena2, q2)) implies q1 == q2 by {
        assert(regrown_at(root, arena, root2, arena2, p, b, new_len, q1));
        assert(regrown_at(root, arena, root2, arena2, p, b, new_len, q2));
        let k = slot_at(root2, arena2, q1)->0;
        let moved1 = q1 != p && q1.len() > 0 && q1.drop_last() == p && q1.last() < new_len;
        let moved2 = q2 != p && q2.len() > 0 && q2.drop_last() == p && q2.last() < new_len;
        if moved1 && moved2 {
            assert(q1.last() == q2.last());
            assert(q1 =~= q1.drop_last().push(q1.last()));
            assert(q2 =~= q2.drop_last().push(q2.last()));
        } else if moved1 {
            assert(free.contains(k));
            assert(slot_at(root, arena, q2) == Some(k));
        } else if moved2 {
            assert(free.contains(k));
            assert(slot_at(root, arena, q1) == Some(k));
        } else {
            assert(slot_at(root, arena, q1) == Some(k));
            assert(slot_at(root, arena, q2) == Some(k));
        }
    }
    assert forall|q: Seq<usize>| value_at(root2, arena2, q) == value_at(root, arena, q) by {
        assert(regrown_at(root, arena, root2, arena2, p, b, new_len, q));
    }
    assert forall|q: Seq<usize>|
        count_at(root2, arena2, q) == (if q == p {
            new_len as nat
        } else {
            count_at(root, arena, q)
        }) by {
        assert(regrown_at(root, arena, root2, arena2, p, b, new_len, q));
    }
    assert forall|c: usize| c < new_len implies slot_at(root2, arena2, p.push(c)) == Some(
        b + c,
    ) by {
        let pc = p.push(c);
        assert(pc.drop_last() =~= p);
        assert(regrown_at(root, arena, root2, arena2, p, b, new_len, pc));
    }
}

// ---------------------------------------------------------------------------
// Writing the value of one node
// ---------------------------------------------------------------------------

spec fn with_value(n: FieldState, v: Option<FieldValue>) -> FieldState {
    FieldState { value: v, children: n.children }
}

/// The node at `p` got the value `v`, and `root2`, `arena2` are what came of it.
spec fn write_step(
    root: FieldState,
    arena: Seq<FieldState>,
    free: Set<int>,
    root2: FieldState,
    arena2: Seq<FieldState>,
    p: Seq<usize>,
    v: Option<FieldValue>,
) -> bool {
    let n = node_at(root, arena, p)->0;
    &&& shape_inv(root, arena, free)
    &&& node_at(root, arena, p) is Some
    &&& root2 == (if p.len() == 0 {
        with_value(n, v)
    } else {
        root
    })
    &&& arena2 == (if p.len() == 0 {
        arena
    } else {
        arena.update(slot_at(root, arena, p)->0, with_value(n, v))
    })
}

spec fn written_at(
    root: FieldState,
    arena: Seq<FieldState>,
    root2: FieldState,
    arena2: Seq<FieldState>,
    p: Seq<usize>,
    v: Option<FieldValue>,
    q: Seq<usize>,
) -> bool {
    &&& slot_at(root2, arena2, q) == slot_at(root, arena, q)
    &&& node_at(root2, arena2, q) == (if q == p {
        Some(with_value(node_at(root, arena, p)->0, v))
    } else {
        node_at(root, arena, q)
    })
}

proof fn lemma_written_at(
    root: FieldState,
    arena: Seq<FieldState>,
    free: Set<int>,
    root2: FieldState,
    arena2: Seq<FieldState>,
    p: Seq<usize>,
    v: Option<FieldValue>,
    q: Seq<usize>,
)
    requires
        write_step(root, arena, free, root2, arena2, p, v),
    ensures
        written_at(root, arena, root2, arena2, p, v, q),
    decreases q.len(),
{
    if q.len() == 0 {
        if p.len() == 0 {
            assert(q =~= p);
        }
    } else {
        let q0 = q.drop_last();
        let c = q.last();
        lemma_written_at(root, arena, free, root2, arena2, p, v, q0);
        if node_at(root, arena, q0) is Some {
            let x = node_at(root, arena, q0)->0;
            let x2 = node_at(root2, arena2, q0)->0;
            assert(x2.children == x.children);
            assert(child_slot(x2, arena2.len(), c) == child_slot(x, arena.len(), c));
            if child_slot(x, arena.len(), c) is Some {
                let k = child_slot(x, arena.len(), c)->0;
                assert(slot_at(root, arena, q) == Some(k));
                if p.len() > 0 {
                    assert(node_at(root, arena, p) == Some(arena[slot_at(root, arena, p)->0]));
                    if slot_at(root, arena, p) == Some(k) {
                        assert(q == p);
                    }
                }
            }
        }
    }
}

/// What holds of the tree once a node has its new value.
proof fn lemma_write(
    root: FieldState,
    arena: Seq<FieldState>,
    free: Set<int>,
    root2: FieldState,
    arena2: Seq<FieldState>,
    p: Seq<usize>,
    v: Option<FieldValue>,
)
    requires
        write_step(root, arena, free, root2, arena2, p, v),
    ensures
        shape_inv(root2, arena2, free),
        forall|q: Seq<usize>|
            value_at(root2, arena2, q) == (if q == p {
                v
            } else {
                value_at(root, arena, q)
            }),
        forall|q: Seq<usize>| count_at(root2, arena2, q) == count_at(root, arena, q),
{
    let n = node_at(root, arena, p)->0;
    assert forall|q: Seq<usize>| written_at(root, arena, root2, arena2, p, v, q) by {
        lemma_written_at(root, arena, free, root2, arena2, p, v, q);
    }
    assert(written_at(root, arena, root2, arena2, p, v, p));
    assert forall|k: int| 0 <= k < arena2.len() && free.contains(k) implies #[trigger] arena2[k]
        == empty_node() by {
        if p.len() > 0 && slot_at(root, arena, p) == Some(k) {
            assert(false);
        }
    }
    assert forall|q: Seq<usize>| (#[trigger] slot_at(root2, arena2, q)) is Some implies !free.contains(
        slot_at(root2, arena2, q)->0,
    ) by {
        assert(written_at(root, arena, root2, arena2, p, v, q));
    }
    assert forall|q: Seq<usize>| (#[trigger] node_at(root2, arena2, q)) is Some implies range_ok(
        node_at(root2, arena2, q)->0,
        arena2.len(),
    ) by {
        assert(written_at(root, arena, root2, arena2, p, v, q));
        if q == p {
            assert(range_ok(n, arena.len()));
        } else {
            assert(range_ok(node_at(root, arena, q)->0, arena.len()));
        }
    }
    assert forall|q1: Seq<usize>, q2: Seq<usize>|
        (#[trigger] slot_at(root2, arena2, q1)) is Some && slot_at(root2, arena2, q1) == (
        #[trigger] slot_at(root2, arena2, q2)) implies q1 == q2 by {
        assert(written_at(root, arena, root2, arena2, p, v, q1));
        assert(written_at(root, arena, root2, arena2, p, v, q2));
    }
    assert forall|q: Seq<usize>|
        value_at(root2, arena2, q) == (if q == p {
            v
        } else {
            value_at(root, arena, q)
        }) by {
        assert(written_at(root, arena, root2, arena2, p, v, q));
    }
    assert forall|q: Seq<usize>| count_at(root2, arena2, q) == count_at(root, arena, q) by {
        assert(written_at(root, arena, root2, arena2, p, v, q));
    }
}

// ---------------------------------------------------------------------------
// The operations
// ---------------------------------------------------------------------------

/// The room for children at `q` once the first `i` components of `path` are
/// walked.
spec fn count_goal(
    root: FieldState,
    arena: Seq<FieldState>,
    path: Seq<usize>,
    i: int,
    q: Seq<usize>,
) -> nat {
    if is_proper_prefix(q, path) && q.len() < i {
        grown_count(count_at(root, arena, q), path[q.len() as int] as nat)
    } else {
        count_at(root, arena, q)
    }
}

/// `cur` names the node at `p`: nothing for the root, else its arena slot.
spec fn cur_is(root: FieldState, arena: Seq<FieldState>, p: Seq<usize>, cur: Option<usize>) -> bool {
    match cur {
        None => p.len() == 0,
        Some(k) => p.len() > 0 && slot_at(root, arena, p) == Some(k as int),
    }
}

/// The walk along `path` stops at component `i`: the node before it has no
/// room for that child, and no run long enough to give it room is free.
pub open spec fn stuck(
    root: FieldState,
    arena: Seq<FieldState>,
    free: Set<int>,
    path: Seq<usize>,
    i: int,
) -> bool {
    &&& 0 <= i < path.len()
    &&& node_at(root, arena, path.take(i)) is Some
    &&& count_at(root, arena, path.take(i)) <= path[i]
    &&& forall|s: int|
        !fits(free, s, grown_count(count_at(root, arena, path.take(i)), path[i] as nat) as int)
}

/// Where a node's children start and how many it has room for.
fn run_of(node: &FieldState) -> (r: (usize, usize))
    ensures
        r.1 == child_count(*node),
        r.0 == first_child(*node),
{
    match &node.children {
        Some(run) => if run.start < run.end {
            (run.start, run.end - run.start)
        } else {
            (0, 0)
        },
        None => (0, 0),
    }
}

/// The arena slot of child `c` of `node`.
fn slot_of(node: &FieldState, arena_len: usize, c: usize) -> (r: Option<usize>)
    ensures
        match r {
            Some(k) => child_slot(*node, arena_len as nat, c) == Some(k as int),
            None => child_slot(*node, arena_len as nat, c) is None,
        },
{
    match &node.children {
        Some(run) => if run.start <= run.end && c < run.end - run.start && run.start + c
            < arena_len {
            Some(run.start + c)
        } else {
            None
        },
        None => None,
    }
}

/// The room that a node with room for `count` children needs for child `c`.
fn grown_len(count: usize, c: usize) -> (r: Option<usize>)
    requires
        count <= c,
    ensures
        match r {
            Some(v) => v == grown_count(count as nat, c as nat),
            None => grown_count(count as nat, c as nat) > usize::MAX,
        },
{
    if count == 0 {
        if c >= 8 {
            c.checked_add(1)
        } else {
            Some(8)
        }
    } else {
        let mut v: usize = count;
        while v <= c
            invariant
                v >= 1,
                grown_count(v as nat, c as nat) == grown_count(count as nat, c as nat),
            decreases
                    (if v <= c {
                        c + 1 - v
                    } else {
                        0
                    }),
        {
            match v.checked_mul(2) {
                Some(d) => {
                    v = d;
                },
                None => {
                    proof {
                        lemma_grown_count_bounds(2 * (v as nat), c as nat);
                    }
                    return None;
                },
            }
        }
        Some(v)
    }
}

/// Makes sure that the node at `p` has child `c`, and returns that child's
/// slot. The node's children move to a longer run where `c` was out of reach.
fn ensure_child(
    root: &mut FieldState,
    buf: &mut Vec<FieldState>,
    alloc: &mut RangeAlloc,
    cur: Option<usize>,
    c: usize,
    Ghost(p): Ghost<Seq<usize>>,
) -> (r: Result<usize, RangeAllocError>)
    requires
        tree_inv(*old(root), old(buf)@, *old(alloc)),
        node_at(*old(root), old(buf)@, p) is Some,
        cur_is(*old(root), old(buf)@, p, cur),
    ensures
        tree_inv(*final(root), final(buf)@, *final(alloc)),
        final(alloc).limit() == old(alloc).limit(),
        old(buf)@.len() <= final(buf)@.len(),
        final(buf)@.len() <= old(buf)@.len() + room_for(c),
        forall|q: Seq<usize>|
            value_at(*final(root), final(buf)@, q) == value_at(*old(root), old(buf)@, q),
        match r {
            Ok(k) => {
                &&& slot_at(*final(root), final(buf)@, p.push(c)) == Some(k as int)
                &&& forall|q: Seq<usize>|
                    count_at(*final(root), final(buf)@, q) == (if q == p {
                        grown_count(count_at(*old(root), old(buf)@, p), c as nat)
                    } else {
                        count_at(*old(root), old(buf)@, q)
                    })
                &&& c < count_at(*old(root), old(buf)@, p) ==> *final(root) == *old(root)
                    && final(buf)@ == old(buf)@ && final(alloc)@ == old(alloc)@
                &&& c >= count_at(*old(root), old(buf)@, p) ==> can_fit(
                    old(alloc)@,
                    grown_count(count_at(*old(root), old(buf)@, p), c as nat) as int,
                )
                &&& c >= count_at(*old(root), old(buf)@, p) ==> final(alloc)@ == old(
                    alloc,
                )@.difference(
                    span(
                        first_fit(
                            old(alloc)@,
                            grown_count(count_at(*old(root), old(buf)@, p), c as nat) as int,
                        ),
                        grown_count(count_at(*old(root), old(buf)@, p), c as nat) as int,
                    ),
                ).union(run_at(*old(root), old(buf)@, p))
            },
            Err(_) => {
                &&& *final(root) == *old(root)
                &&& final(buf)@ == old(buf)@
                &&& final(alloc)@ == old(alloc)@
                &&& count_at(*old(root), old(buf)@, p) <= c
                &&& forall|s: int|
                    !fits(
                        old(alloc)@,
                        s,
                        grown_count(count_at(*old(root), old(buf)@, p), c as nat) as int,
                    )
                &&& old(buf)@.len() + room_for(c) > old(alloc).limit()
            },
        },
{
    let ghost root0 = *root;
    let ghost arena0 = buf@;
    let ghost free0 = alloc@;
    let ghost n = node_at(root0, arena0, p)->0;
    proof {
        alloc.lemma_free_in_pool();
        assert(range_ok(n, arena0.len()));
        if p.len() > 0 {
            assert(node_at(root0, arena0, p) == Some(arena0[slot_at(root0, arena0, p)->0]));
        }
    }
    let (a, old_len): (usize, usize) = match cur {
        None => run_of(root),
        Some(k) => run_of(&buf[k]),
    };
    if c < old_len {
        proof {
            assert(p.push(c).drop_last() =~= p);
            lemma_grown_count_bounds(old_len as nat, c as nat);
        }
        return Ok(a + c);
    }
    let new_len: usize = match grown_len(old_len, c) {
        Some(v) => v,
        None => {
            proof {
                let g = grown_count(old_len as nat, c as nat) as int;
                assert forall|s: int| !fits(free0, s, g) by {
                    if fits(free0, s, g) {
                        assert(free0.contains(s));
                        assert(free0.contains(s + g - 1));
                    }
                }
                lemma_grown_count_room(old_len as nat, c);
            }
            return Err(RangeAllocError::Exhausted);
        },
    };
    proof {
        lemma_grown_count_bounds(old_len as nat, c as nat);
        lemma_grown_count_room(old_len as nat, c);
    }
    let range = match alloc.allocate(new_len) {
        Ok(range) => range,
        Err(e) => {
            proof {
                // the free tail is too short, or the run would fit there
                if arena0.len() + new_len <= alloc.limit() {
                    assert(fits(free0, arena0.len() as int, new_len as int));
                }
            }
            return Err(e);
        },
    };
    let b: usize = range.start;
    proof {
        // the lowest fit lies no higher than the free tail
        if b > arena0.len() {
            assert(fits(free0, arena0.len() as int, new_len as int));
            assert(false);
        }
        // the old run is taken and the new run was free, so they lie apart
        assert forall|k: int| a <= k < a + old_len implies !free0.contains(k) && 0 <= k
            < arena0.len() && slot_at(root0, arena0, p) != Some(k) by {
            lemma_children_slots(root0, arena0, free0, p, k);
        }
        if a < b + new_len && b < a + old_len {
            let k = if a <= b { b as int } else { a as int };
            assert(free0.contains(k));
            assert(false);
        }
    }
    while buf.len() < b + new_len
        invariant
            b + new_len <= usize::MAX,
            arena0.len() <= buf@.len(),
            buf@.len() <= arena0.len() || buf@.len() <= b + new_len,
            forall|k: int| 0 <= k < arena0.len() ==> #[trigger] buf@[k] == arena0[k],
            forall|k: int| arena0.len() <= k < buf@.len() ==> #[trigger] buf@[k] == empty_node(),
        decreases b + new_len - buf@.len(),
    {
        buf.push(FieldState::new());
    }
    let ghost arena1 = buf@;
    let mut j: usize = 0;
    while j < old_len
        invariant
            j <= old_len,
            buf@.len() == arena1.len(),
            a + old_len <= usize::MAX,
            b + new_len <= usize::MAX,
            a + old_len <= arena0.len(),
            arena0.len() <= arena1.len(),
            b + new_len <= arena1.len(),
            old_len < new_len,
            a + old_len <= b || b + new_len <= a,
            forall|k: int|
                0 <= k < buf@.len() ==> #[trigger] buf@[k] == (if b <= k < b + j {
                    arena1[k - b + a]
                } else if a <= k < a + j {
                    empty_node()
                } else {
                    arena1[k]
                }),
        decreases old_len - j,
    {
        let mut moved = FieldState::new();
        std::mem::swap(&mut buf[a + j], &mut moved);
        buf.set(b + j, moved);
        j += 1;
    }
    let run = Range { start: b, end: b + new_len };
    match cur {
        None => {
            root.children = Some(run);
        },
        Some(k) => {
            buf[k].children = Some(run);
        },
    }
    if old_len > 0 {
        alloc.deallocate(Range { start: a, end: a + old_len });
    }
    proof {
        let pslot = slot_at(root0, arena0, p);
        assert forall|k: int| 0 <= k < buf@.len() implies #[trigger] buf@[k] == regrown_cell(
            arena0,
            n,
            pslot,
            b as int,
            new_len as int,
            k,
        ) by {
            if b <= k < b + new_len {
                assert(free0.contains(k));
                if pslot == Some(k) {
                    assert(false);
                }
            }
        }
        assert(regrow_step(root0, arena0, free0, *root, buf@, p, b as int, new_len as int));
        assert(alloc@ =~= free0.difference(span(b as int, new_len as int)).union(
            span(first_child(n), child_count(n) as int),
        ));
        lemma_regrow(root0, arena0, free0, *root, buf@, alloc@, p, b as int, new_len as int);
    }
    Ok(b + c)
}

impl FieldState {
    /// The node without a value and without children.
    pub fn new() -> (r: FieldState)
        ensures
            r == empty_node(),
    {
        FieldState { value: None, children: None }
    }

    /// A copy of the node: its value, and the same run of children.
    pub fn duplicate(&self) -> (r: FieldState)
        ensures
            r == *self,
    {
        let value = match &self.value {
            Some(v) => Some(v.duplicate()),
            None => None,
        };
        let children = match &self.children {
            Some(run) => Some(Range { start: run.start, end: run.end }),
            None => None,
        };
        FieldState { value, children }
    }

    /// The node that `fp` leads to from this root, where there is one.
    pub fn get<'a>(&'a self, fp: &[usize], buf: &'a Vec<FieldState>) -> (r: Option<&'a FieldState>)
        ensures
            match r {
                Some(node) => node_at(*self, buf@, fp@) == Some(*node),
                None => node_at(*self, buf@, fp@) is None,
            },
    {
        let mut node: &FieldState = self;
        let mut i: usize = 0;
        while i < fp.len()
            invariant
                i <= fp@.len(),
                node_at(*self, buf@, fp@.take(i as int)) == Some(*node),
            decreases fp@.len() - i,
        {
            proof {
                assert(fp@.take(i + 1).drop_last() =~= fp@.take(i as int));
            }
            match slot_of(node, buf.len(), fp[i]) {
                Some(k) => {
                    node = &buf[k];
                },
                None => {
                    proof {
                        lemma_none_extends(*self, buf@, fp@, i + 1);
                    }
                    return None;
                },
            }
            i += 1;
        }
        proof {
            assert(fp@.take(i as int) =~= fp@);
        }
        Some(node)
    }

    /// Writes `fv` at the node that `fp` leads to from this root, making the
    /// nodes on the way as needed.
    ///
    /// Every other path keeps its value. A node on the way that lacks room for
    /// its next child gets a longer run of children; where no free run is long
    /// enough the walk stops there, no value is written, and every path still
    /// has the value it had.
    pub fn set(
        &mut self,
        fp: &[usize],
        fv: FieldValue,
        buf: &mut Vec<FieldState>,
        alloc: &mut RangeAlloc,
    ) -> (r: Result<(), RangeAllocError>)
        requires
            tree_inv(*old(self), old(buf)@, *old(alloc)),
        ensures
            tree_inv(*final(self), final(buf)@, *final(alloc)),
            final(alloc).limit() == old(alloc).limit(),
            old(buf)@.len() <= final(buf)@.len(),
            final(buf)@.len() <= old(buf)@.len() + demand(fp@),
            r is Ok <==> walk_fits(*old(self), old(buf)@, old(alloc)@, fp@, 0),
            old(buf)@.len() + demand(fp@) <= old(alloc).limit() ==> r is Ok,
            match r {
                Ok(_) => {
                    &&& forall|q: Seq<usize>|
                        value_at(*final(self), final(buf)@, q) == (if q == fp@ {
                            Some(fv)
                        } else {
                            value_at(*old(self), old(buf)@, q)
                        })
                    &&& forall|q: Seq<usize>|
                        count_at(*final(self), final(buf)@, q) == (if is_proper_prefix(q, fp@) {
                            grown_count(
                                count_at(*old(self), old(buf)@, q),
                                fp@[q.len() as int] as nat,
                            )
                        } else {
                            count_at(*old(self), old(buf)@, q)
                        })
                    &&& forall|q: Seq<usize>|
                        is_proper_prefix(q, fp@) ==> #[trigger] count_at(
                            *final(self),
                            final(buf)@,
                            q,
                        ) > fp@[q.len() as int]
                },
                Err(_) => {
                    &&& forall|q: Seq<usize>|
                        value_at(*final(self), final(buf)@, q) == value_at(
                            *old(self),
                            old(buf)@,
                            q,
                        )
                    &&& exists|i: int| stuck(*final(self), final(buf)@, final(alloc)@, fp@, i)
                },
            },
            node_at(*old(self), old(buf)@, fp@) is Some ==> r is Ok,
    {
        let ghost root0 = *self;
        let ghost arena0 = buf@;
        let ghost free0 = alloc@;
        let ghost touched = false;
        let mut cur: Option<usize> = None;
        let mut i: usize = 0;
        while i < fp.len()
            invariant
                i <= fp@.len(),
                root0 == *old(self),
                arena0 == old(buf)@,
                free0 == old(alloc)@,
                !touched ==> *self == root0 && buf@ == arena0 && alloc@ == free0 && (walk_fits(
                    root0,
                    arena0,
                    free0,
                    fp@,
                    0,
                ) <==> walk_fits(root0, arena0, free0, fp@, i as int)),
                touched ==> count_at(*self, buf@, fp@.take(i as int)) == 0 && (walk_fits(
                    root0,
                    arena0,
                    free0,
                    fp@,
                    0,
                ) <==> fresh_fits(alloc@, fp@, i as int)),
                tree_inv(*self, buf@, *alloc),
                alloc.limit() == old(alloc).limit(),
                arena0.len() <= buf@.len(),
                buf@.len() <= arena0.len() + demand(fp@.take(i as int)),
                node_at(*self, buf@, fp@.take(i as int)) is Some,
                cur_is(*self, buf@, fp@.take(i as int), cur),
                forall|q: Seq<usize>| value_at(*self, buf@, q) == value_at(root0, arena0, q),
                forall|q: Seq<usize>|
                    #[trigger] count_at(*self, buf@, q) == count_goal(root0, arena0, fp@, i as int, q),
            decreases fp@.len() - i,
        {
            let ghost p = fp@.take(i as int);
            let ghost root1 = *self;
            let ghost arena1 = buf@;
            let ghost free1 = alloc@;
            proof {
                assert(fp@.take(i + 1) =~= p.push(fp@[i as int]));
                assert(fp@.take(i + 1).drop_last() =~= p);
                lemma_demand_prefix(fp@, i + 1);
                assert(is_proper_prefix(p, fp@)) by {
                    assert(fp@.take(p.len() as int) =~= p);
                }
                if node_at(root0, arena0, fp@) is Some {
                    // the path is there already, so this node has the child
                    if node_at(root0, arena0, fp@.take(i + 1)) is None {
                        lemma_none_extends(root0, arena0, fp@, i + 1);
                    }
                    assert(fp@.take(i + 1).drop_last() =~= p);
                    assert(count_at(root0, arena0, p) > fp@[i as int]);
                }
            }
            match ensure_child(self, buf, alloc, cur, fp[i], Ghost(p)) {
                Ok(k) => {
                    cur = Some(k);
                },
                Err(e) => {
                    proof {
                        assert(stuck(*self, buf@, alloc@, fp@, i as int));
                        let g = grown_count(count_at(root1, arena1, p), fp@[i as int] as nat) as int;
                        assert(!can_fit(free1, g));
                    }
                    return Err(e);
                },
            }
            proof {
                if fp@[i as int] >= count_at(root1, arena1, p) {
                    // the node got a new run: its child is new and has no children
                    let pc = p.push(fp@[i as int]);
                    assert(pc.drop_last() =~= p);
                    assert(node_at(root1, arena1, pc) is None);
                    assert(count_at(*self, buf@, pc) == 0);
                    if touched {
                        assert(run_at(root1, arena1, p) =~= Set::<int>::empty());
                        let g = grown_count(0, fp@[i as int] as nat) as int;
                        assert(alloc@ =~= free1.difference(span(first_fit(free1, g), g)));
                    }
                    touched = true;
                }
                assert(node_at(*self, buf@, p.push(fp@[i as int])) == Some(buf@[cur->0 as int]));
                assert forall|q: Seq<usize>|
                    #[trigger] count_at(*self, buf@, q) == count_goal(
                        root0,
                        arena0,
                        fp@,
                        i + 1,
                        q,
                    ) by {
                    assert(count_at(root1, arena1, q) == count_goal(root0, arena0, fp@, i as int, q));
                    assert(count_at(*self, buf@, q) == (if q == p {
                        grown_count(count_at(root1, arena1, p), fp@[i as int] as nat)
                    } else {
                        count_at(root1, arena1, q)
                    }));
                    if is_proper_prefix(q, fp@) && q.len() == i {
                        assert(q == p);
                    }
                    if q == p {
                        assert(q.len() == i);
                    }
                }
            }
            i += 1;
        }
        let ghost root1 = *self;
        let ghost arena1 = buf@;
        proof {
            assert(fp@.take(i as int) =~= fp@);
            if fp@.len() > 0 {
                assert(node_at(root1, arena1, fp@) == Some(arena1[slot_at(root1, arena1, fp@)->0]));
            }
        }
        match cur {
            None => {
                self.value = Some(fv);
            },
            Some(k) => {
                buf[k].value = Some(fv);
            },
        }
        proof {
            assert(buf@ =~= (if fp@.len() == 0 {
                arena1
            } else {
                arena1.update(
                    slot_at(root1, arena1, fp@)->0,
                    with_value(node_at(root1, arena1, fp@)->0, Some(fv)),
                )
            }));
            assert(write_step(root1, arena1, alloc@, *self, buf@, fp@, Some(fv)));
            lemma_write(root1, arena1, alloc@, *self, buf@, fp@, Some(fv));
            assert forall|q: Seq<usize>|
                count_at(*self, buf@, q) == (if is_proper_prefix(q, fp@) {
                    grown_count(count_at(root0, arena0, q), fp@[q.len() as int] as nat)
                } else {
                    count_at(root0, arena0, q)
                }) by {
                assert(count_at(*self, buf@, q) == count_at(root1, arena1, q));
                assert(count_at(root1, arena1, q) == count_goal(root0, arena0, fp@, i as int, q));
            }
            assert forall|q: Seq<usize>| is_proper_prefix(q, fp@) implies #[trigger] count_at(
                *self,
                buf@,
                q,
            ) > fp@[q.len() as int] by {
                lemma_grown_count_bounds(count_at(root0, arena0, q), fp@[q.len() as int] as nat);
            }
        }
        Ok(())
    }
}

impl Default for FieldState {
    fn default() -> (r: FieldState)
        ensures
            r == empty_node(),
    {
        FieldState::new()
    }
}

} // verus!
