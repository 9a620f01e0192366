//! An indexed binary min-heap: a binary heap ordered by distance that also
//! knows, for every vertex it holds, the slot that vertex occupies.

use crate::distance::Distance;
use std::collections::HashMap;
use vstd::prelude::*;
use vstd::std_specs::hash::group_hash_axioms;

verus! {

broadcast use group_hash_axioms;

/// A vertex identifier that the heap can track: it names itself by a 64-bit
/// key, and distinct identifiers have distinct keys.
pub trait VertexId: Copy + Sized {
    spec fn key_of(self) -> u64;

    fn key(&self) -> (k: u64)
        ensures
            k == self.key_of(),
    ;

    proof fn lemma_key_injective(a: Self, b: Self)
        requires
            a.key_of() == b.key_of(),
        ensures
            a == b,
    ;
}

impl VertexId for u32 {
    open spec fn key_of(self) -> u64 {
        self as u64
    }

    fn key(&self) -> (k: u64) {
        *self as u64
    }

    proof fn lemma_key_injective(a: u32, b: u32) {
    }
}

/// What an algorithm records about one vertex: through which vertex it was
/// reached, and at what distance.
#[derive(Clone, Copy, Debug, PartialEq, Eq)]
pub struct VertAttributes<T> {
    pub id: T,
    pub predecessor: Option<T>,
    pub distance: Distance,
}

impl<T: Copy> VertAttributes<T> {
    /// The record of `vert` at infinite distance.
    pub fn new_inf(vert: T) -> (a: VertAttributes<T>)
        ensures
            a == (VertAttributes { id: vert, predecessor: None, distance: Distance::Inf }),
    {
        VertAttributes { id: vert, predecessor: None, distance: Distance::Inf }
    }

    /// The record of `vert` at distance zero.
    pub fn new_zero(vert: T) -> (a: VertAttributes<T>)
        ensures
            a == (VertAttributes { id: vert, predecessor: None, distance: Distance::Dist(0) }),
    {
        VertAttributes { id: vert, predecessor: None, distance: Distance::Dist(0) }
    }

    /// The record of `vert` at the given distance.
    pub fn new_dist(vert: T, distance: Distance) -> (a: VertAttributes<T>)
        ensures
            a == (VertAttributes { id: vert, predecessor: None, distance }),
    {
        VertAttributes { id: vert, predecessor: None, distance }
    }
}

/// Whether some slot of `s` holds the vertex `id`.
pub open spec fn holds<T>(s: Seq<VertAttributes<T>>, id: T) -> bool {
    exists|i: int| 0 <= i < s.len() && (#[trigger] s[i]).id == id
}

/// A slot of `s` that holds the vertex `id`.
pub open spec fn slot<T>(s: Seq<VertAttributes<T>>, id: T) -> int {
    choose|i: int| 0 <= i < s.len() && (#[trigger] s[i]).id == id
}

/// The records of `s`, keyed by vertex.
pub open spec fn entries<T>(s: Seq<VertAttributes<T>>) -> Map<T, VertAttributes<T>> {
    Map::new(|id: T| holds(s, id), |id: T| s[slot(s, id)])
}

/// No vertex occupies two slots of `s`.
pub open spec fn ids_distinct<T>(s: Seq<VertAttributes<T>>) -> bool {
    forall|i: int, j: int|
        0 <= i < s.len() && 0 <= j < s.len() && i != j ==> (#[trigger] s[i]).id != (
        #[trigger] s[j]).id
}

/// Heap order: apart from the root, no slot's distance is below that of its
/// parent, the slot at half its index.
#[verifier::opaque]
pub open spec fn ordered<T>(s: Seq<VertAttributes<T>>) -> bool {
    forall|j: int| 1 <= j < s.len() ==> s[j / 2].distance.spec_le((#[trigger] s[j]).distance)
}

/// Heap order holds everywhere except possibly between slot `i` and its
/// children, and no child of `i` is below the parent of `i`.
#[verifier::opaque]
pub open spec fn ordered_below<T>(s: Seq<VertAttributes<T>>, i: int) -> bool {
    &&& forall|j: int|
        1 <= j < s.len() && j / 2 != i ==> s[j / 2].distance.spec_le((#[trigger] s[j]).distance)
    &&& forall|j: int|
        1 <= i && 1 <= j < s.len() && j / 2 == i ==> s[i / 2].distance.spec_le(
            (#[trigger] s[j]).distance,
        )
}

/// Heap order holds everywhere except possibly between slot `i` and its
/// parent, and no child of `i` is below the parent of `i`.
#[verifier::opaque]
pub open spec fn ordered_above<T>(s: Seq<VertAttributes<T>>, i: int) -> bool {
    &&& forall|j: int|
        1 <= j < s.len() && j != i ==> s[j / 2].distance.spec_le((#[trigger] s[j]).distance)
    &&& forall|j: int|
        1 <= i && 1 <= j < s.len() && j / 2 == i ==> s[i / 2].distance.spec_le(
            (#[trigger] s[j]).distance,
        )
}

/// `s` with the contents of slots `i` and `j` exchanged.
pub open spec fn swapped<T>(s: Seq<VertAttributes<T>>, i: int, j: int) -> Seq<VertAttributes<T>> {
    s.update(i, s[j]).update(j, s[i])
}

/// `s` after the record in slot `i` has risen: as long as it is nearer than
/// its parent, the two change places.
pub open spec fn risen<T>(s: Seq<VertAttributes<T>>, i: int) -> Seq<VertAttributes<T>>
    decreases i,
{
    if 0 < i < s.len() && s[i].distance.spec_lt(s[i / 2].distance) {
        risen(swapped(s, i, i / 2), i / 2)
    } else {
        s
    }
}

/// The slot, among `i` and its children, that sinking compares as least:
/// the left child where it is nearer than `i`, else `i`; but the right child
/// where it is nearer than that.
pub open spec fn least_of<T>(s: Seq<VertAttributes<T>>, i: int) -> int {
    let first = if 2 * i < s.len() && s[2 * i].distance.spec_lt(s[i].distance) {
        2 * i
    } else {
        i
    };
    if 2 * i + 1 < s.len() && s[2 * i + 1].distance.spec_lt(s[first].distance) {
        2 * i + 1
    } else {
        first
    }
}

/// `s` after the record in slot `i` has sunk: as long as a child is nearer,
/// it changes places with the least of its children.
pub open spec fn sunk<T>(s: Seq<VertAttributes<T>>, i: int) -> Seq<VertAttributes<T>>
    decreases s.len() - i,
{
    if 0 <= i < s.len() && least_of(s, i) != i {
        sunk(swapped(s, least_of(s, i), i), least_of(s, i))
    } else {
        s
    }
}

/// With distinct vertices, the slot of the vertex found at `i` is `i`.
pub proof fn lemma_slot<T>(s: Seq<VertAttributes<T>>, i: int)
    requires
        ids_distinct(s),
        0 <= i < s.len(),
    ensures
        holds(s, s[i].id),
        slot(s, s[i].id) == i,
        entries(s).contains_key(s[i].id),
        entries(s)[s[i].id] == s[i],
{
    assert(s[i].id == s[i].id);
    let k = slot(s, s[i].id);
    assert(s[k].id == s[i].id);
}

/// Exchanging two slots leaves the records unchanged.
pub proof fn lemma_entries_swapped<T>(s: Seq<VertAttributes<T>>, i: int, j: int)
    requires
        ids_distinct(s),
        0 <= i < s.len(),
        0 <= j < s.len(),
    ensures
        ids_distinct(swapped(s, i, j)),
        entries(swapped(s, i, j)) == entries(s),
{
    let t = swapped(s, i, j);
    let perm = |k: int|
        if k == i {
            j
        } else if k == j {
            i
        } else {
            k
        };
    assert forall|k: int| 0 <= k < s.len() implies #[trigger] t[k] == s[perm(k)] by {}
    assert forall|a: int, b: int| 0 <= a < t.len() && 0 <= b < t.len() && a != b implies (
    #[trigger] t[a]).id != (#[trigger] t[b]).id by {
        assert(t[a] == s[perm(a)]);
        assert(t[b] == s[perm(b)]);
    }
    assert forall|id: T| holds(t, id) == holds(s, id) && (holds(s, id) ==> t[slot(t, id)]
        == s[slot(s, id)]) by {
        if holds(t, id) {
            let k = slot(t, id);
            assert(t[k] == s[perm(k)]);
            assert(s[perm(k)].id == id);
            lemma_slot(s, perm(k));
        }
        if holds(s, id) {
            let k = slot(s, id);
            assert(t[perm(k)] == s[k]);
            assert(t[perm(k)].id == id);
            lemma_slot(t, perm(k));
        }
    }
    assert(entries(t) =~= entries(s));
}

/// Replacing the record in a slot by another record of the same vertex
/// replaces that vertex's record and no other.
pub proof fn lemma_entries_updated<T>(s: Seq<VertAttributes<T>>, i: int, v: VertAttributes<T>)
    requires
        ids_distinct(s),
        0 <= i < s.len(),
        v.id == s[i].id,
    ensures
        ids_distinct(s.update(i, v)),
        entries(s.update(i, v)) == entries(s).insert(v.id, v),
{
    let t = s.update(i, v);
    assert forall|a: int, b: int| 0 <= a < t.len() && 0 <= b < t.len() && a != b implies (
    #[trigger] t[a]).id != (#[trigger] t[b]).id by {
        assert(t[a].id == s[a].id);
        assert(t[b].id == s[b].id);
    }
    assert forall|id: T| holds(t, id) == (holds(s, id) || id == v.id) && (holds(t, id) ==> t[slot(
        t,
        id,
    )] == if id == v.id {
        v
    } else {
        s[slot(s, id)]
    }) by {
        if holds(t, id) {
            let k = slot(t, id);
            assert(s[k].id == id);
            lemma_slot(s, k);
            lemma_slot(t, k);
        }
        if holds(s, id) {
            let k = slot(s, id);
            assert(t[k].id == id);
        }
        if id == v.id {
            assert(t[i].id == id);
        }
    }
    assert(entries(t) =~= entries(s).insert(v.id, v));
}

/// Appending the record of a vertex that `s` does not hold adds that record.
pub proof fn lemma_entries_pushed<T>(s: Seq<VertAttributes<T>>, v: VertAttributes<T>)
    requires
        ids_distinct(s),
        !holds(s, v.id),
    ensures
        ids_distinct(s.push(v)),
        entries(s.push(v)) == entries(s).insert(v.id, v),
{
    let t = s.push(v);
    assert forall|a: int, b: int| 0 <= a < t.len() && 0 <= b < t.len() && a != b implies (
    #[trigger] t[a]).id != (#[trigger] t[b]).id by {
        if a < s.len() {
            assert(t[a] == s[a]);
        }
        if b < s.len() {
            assert(t[b] == s[b]);
        }
    }
    assert forall|id: T| holds(t, id) == (holds(s, id) || id == v.id) && (holds(t, id) ==> t[slot(
        t,
        id,
    )] == if id == v.id {
        v
    } else {
        s[slot(s, id)]
    }) by {
        if holds(t, id) {
            let k = slot(t, id);
            lemma_slot(t, k);
            if k < s.len() {
                assert(s[k].id == id);
                lemma_slot(s, k);
            }
        }
        if holds(s, id) {
            let k = slot(s, id);
            assert(t[k].id == id);
        }
        if id == v.id {
            assert(t[s.len() as int].id == id);
        }
    }
    assert(entries(t) =~= entries(s).insert(v.id, v));
}

/// Moving the last record into the first slot and dropping the last slot
/// removes the first record and no other.
pub proof fn lemma_entries_root_removed<T>(s: Seq<VertAttributes<T>>)
    requires
        ids_distinct(s),
        s.len() > 0,
    ensures
        ids_distinct(s.update(0, s.last()).drop_last()),
        entries(s.update(0, s.last()).drop_last()) == entries(s).remove(s[0].id),
{
    let t = s.update(0, s.last()).drop_last();
    let n = s.len() as int;
    let src = |k: int|
        if k == 0 {
            n - 1
        } else {
            k
        };
    assert forall|k: int| 0 <= k < t.len() implies #[trigger] t[k] == s[src(k)] by {}
    assert forall|a: int, b: int| 0 <= a < t.len() && 0 <= b < t.len() && a != b implies (
    #[trigger] t[a]).id != (#[trigger] t[b]).id by {
        assert(t[a] == s[src(a)]);
        assert(t[b] == s[src(b)]);
    }
    assert forall|id: T| holds(t, id) == (holds(s, id) && id != s[0].id) && (holds(t, id) ==> t[slot(
        t,
        id,
    )] == s[slot(s, id)]) by {
        if holds(t, id) {
            let k = slot(t, id);
            assert(t[k] == s[src(k)]);
            assert(s[src(k)].id == id);
            lemma_slot(s, src(k));
            assert(src(k) != 0);
        }
        if holds(s, id) && id != s[0].id {
            let k = slot(s, id);
            if k == n - 1 {
                assert(t[0].id == id);
            } else {
                assert(t[k].id == id);
            }
        }
    }
    assert(entries(t) =~= entries(s).remove(s[0].id));
}

/// In heap order the root's distance is below or equal to every other.
pub proof fn lemma_root_is_min<T>(s: Seq<VertAttributes<T>>, i: int)
    requires
        ordered(s),
        0 <= i < s.len(),
    ensures
        s[0].distance.spec_le(s[i].distance),
    decreases i,
{
    reveal(ordered);
    if i >= 1 {
        assert(s[i / 2].distance.spec_le(s[i].distance));
        lemma_root_is_min(s, i / 2);
    }
}

/// Where heap order can fail only below slot `i` and no child of `i` is below
/// it, the whole array is in heap order.
pub proof fn lemma_sink_done<T>(s: Seq<VertAttributes<T>>, i: int)
    requires
        ordered_below(s, i),
        0 <= i,
        2 * i < s.len() && i >= 1 ==> s[i].distance.spec_le(s[2 * i].distance),
        2 * i + 1 < s.len() ==> s[i].distance.spec_le(s[2 * i + 1].distance),
    ensures
        ordered(s),
{
    reveal(ordered);
    reveal(ordered_below);
    assert forall|j: int| 1 <= j < s.len() implies s[j / 2].distance.spec_le(
        (#[trigger] s[j]).distance,
    ) by {
        if j / 2 == i {
            assert(j == 2 * i || j == 2 * i + 1);
        }
    }
}

/// Exchanging slot `i` with its least child `c`, which is below it, moves the
/// only place where heap order can fail down to `c`.
pub proof fn lemma_sink_step<T>(s: Seq<VertAttributes<T>>, i: int, c: int)
    requires
        ordered_below(s, i),
        0 <= i < c < s.len(),
        c == 2 * i || c == 2 * i + 1,
        s[c].distance.spec_lt(s[i].distance),
        2 * i < s.len() && i >= 1 ==> s[c].distance.spec_le(s[2 * i].distance),
        2 * i + 1 < s.len() ==> s[c].distance.spec_le(s[2 * i + 1].distance),
    ensures
        ordered_below(swapped(s, c, i), c),
{
    reveal(ordered_below);
    let t = swapped(s, c, i);
    assert(t[i] == s[c]);
    assert(t[c] == s[i]);
    assert forall|j: int| 1 <= j < t.len() && j / 2 != c implies t[j / 2].distance.spec_le(
        (#[trigger] t[j]).distance,
    ) by {
        if j / 2 == i {
            assert(j == 2 * i || j == 2 * i + 1);
            if j != c {
                assert(t[j] == s[j]);
            }
        } else if j == i {
            assert(i >= 1);
            assert(t[j / 2] == s[j / 2]);
            assert(s[i / 2].distance.spec_le(s[c].distance));
        } else {
            assert(j != c);
            assert(t[j] == s[j]);
            assert(t[j / 2] == s[j / 2]);
            assert(s[j / 2].distance.spec_le(s[j].distance));
        }
    }
    assert forall|j: int| 1 <= c && 1 <= j < t.len() && j / 2 == c implies t[c / 2].distance.spec_le(
        (#[trigger] t[j]).distance,
    ) by {
        assert(c / 2 == i);
        assert(j != i && j != c);
        assert(t[j] == s[j]);
        assert(s[j / 2].distance.spec_le(s[j].distance));
    }
}

/// Exchanging slot `i` with its parent, which is above it, moves the only
/// place where heap order can fail up to the parent.
pub proof fn lemma_rise_step<T>(s: Seq<VertAttributes<T>>, i: int)
    requires
        ordered_above(s, i),
        1 <= i < s.len(),
        s[i].distance.spec_lt(s[i / 2].distance),
    ensures
        ordered_above(swapped(s, i, i / 2), i / 2),
{
    reveal(ordered_above);
    let p = i / 2;
    let t = swapped(s, i, p);
    assert(t[p] == s[i]);
    assert(t[i] == s[p]);
    assert forall|j: int| 1 <= j < t.len() && j != p implies t[j / 2].distance.spec_le(
        (#[trigger] t[j]).distance,
    ) by {
        if j == i {
        } else if j / 2 == i {
            assert(t[j] == s[j]);
            assert(s[i / 2].distance.spec_le(s[j].distance));
        } else if j / 2 == p {
            assert(t[j] == s[j]);
            assert(s[j / 2].distance.spec_le(s[j].distance));
        } else {
            assert(t[j] == s[j]);
            assert(t[j / 2] == s[j / 2]);
            assert(s[j / 2].distance.spec_le(s[j].distance));
        }
    }
    assert forall|j: int| 1 <= p && 1 <= j < t.len() && j / 2 == p implies t[p / 2].distance.spec_le(
        (#[trigger] t[j]).distance,
    ) by {
        assert(t[p / 2] == s[p / 2]);
        assert(s[p / 2].distance.spec_le(s[p].distance));
        if j == i {
        } else {
            assert(t[j] == s[j]);
            assert(s[j / 2].distance.spec_le(s[j].distance));
        }
    }
}

/// Where heap order can fail only above slot `i` and the parent of `i` is not
/// above it, the whole array is in heap order.
pub proof fn lemma_rise_done<T>(s: Seq<VertAttributes<T>>, i: int)
    requires
        ordered_above(s, i),
        0 <= i < s.len(),
        i >= 1 ==> s[i / 2].distance.spec_le(s[i].distance),
    ensures
        ordered(s),
{
    reveal(ordered);
    reveal(ordered_above);
}

/// Overwriting the root of an ordered array with its last record and dropping
/// the last slot leaves the root as the only place where heap order can fail.
pub proof fn lemma_root_replaced<T>(s: Seq<VertAttributes<T>>)
    requires
        ordered(s),
        s.len() > 0,
    ensures
        ordered_below(s.update(0, s.last()).drop_last(), 0),
{
    reveal(ordered);
    reveal(ordered_below);
    let t = s.update(0, s.last()).drop_last();
    assert forall|j: int| 1 <= j < t.len() && j / 2 != 0 implies t[j / 2].distance.spec_le(
        (#[trigger] t[j]).distance,
    ) by {
        assert(t[j] == s[j]);
        assert(t[j / 2] == s[j / 2]);
        assert(s[j / 2].distance.spec_le(s[j].distance));
    }
}

/// Lowering the distance in slot `i` of an ordered array leaves the link to
/// its parent as the only place where heap order can fail.
pub proof fn lemma_lowered<T>(s: Seq<VertAttributes<T>>, i: int, v: VertAttributes<T>)
    requires
        ordered(s),
        0 <= i < s.len(),
        v.distance.spec_le(s[i].distance),
    ensures
        ordered_above(s.update(i, v), i),
{
    reveal(ordered);
    reveal(ordered_above);
    let t = s.update(i, v);
    assert forall|j: int| 1 <= j < t.len() && j != i implies t[j / 2].distance.spec_le(
        (#[trigger] t[j]).distance,
    ) by {
        assert(t[j] == s[j]);
        assert(s[j / 2].distance.spec_le(s[j].distance));
    }
    assert forall|j: int| 1 <= i && 1 <= j < t.len() && j / 2 == i implies t[i / 2].distance.spec_le(
        (#[trigger] t[j]).distance,
    ) by {
        assert(t[j] == s[j]);
        assert(t[i / 2] == s[i / 2]);
        assert(s[j / 2].distance.spec_le(s[j].distance));
        assert(s[i / 2].distance.spec_le(s[i].distance));
    }
}

/// Appending a record to an ordered array leaves the link to the new slot's
/// parent as the only place where heap order can fail.
pub proof fn lemma_appended<T>(s: Seq<VertAttributes<T>>, v: VertAttributes<T>)
    requires
        ordered(s),
    ensures
        ordered_above(s.push(v), s.len() as int),
{
    reveal(ordered);
    reveal(ordered_above);
    let t = s.push(v);
    assert forall|j: int| 1 <= j < t.len() && j != s.len() implies t[j / 2].distance.spec_le(
        (#[trigger] t[j]).distance,
    ) by {
        assert(t[j] == s[j]);
        assert(t[j / 2] == s[j / 2]);
        assert(s[j / 2].distance.spec_le(s[j].distance));
    }
}

/// An array in heap order is in heap order around every slot.
pub proof fn lemma_ordered_everywhere<T>(s: Seq<VertAttributes<T>>, i: int)
    requires
        ordered(s),
        0 <= i,
    ensures
        ordered_below(s, i),
        ordered_above(s, i),
{
    reveal(ordered);
    reveal(ordered_below);
    reveal(ordered_above);
    assert forall|j: int| 1 <= i && 1 <= j < s.len() && j / 2 == i implies s[i / 2].distance.spec_le(
        (#[trigger] s[j]).distance,
    ) by {
        assert(s[j / 2].distance.spec_le(s[j].distance));
        assert(s[i / 2].distance.spec_le(s[i].distance));
    }
}

/// An empty array is in heap order.
pub proof fn lemma_empty_ordered<T>(s: Seq<VertAttributes<T>>)
    requires
        s.len() <= 1,
    ensures
        ordered(s),
{
    reveal(ordered);
}

/// A binary min-heap of vertex records ordered by distance, which tracks the
/// slot of every vertex it holds. A vertex is held at most once.
pub struct PositionTrackingMinHeap<T: VertexId> {
    items: Vec<VertAttributes<T>>,
    positions: HashMap<u64, usize>,
}

impl<T: VertexId> View for PositionTrackingMinHeap<T> {
    type V = Seq<VertAttributes<T>>;

    closed spec fn view(&self) -> Seq<VertAttributes<T>> {
        self.items@
    }
}

impl<T: VertexId> PositionTrackingMinHeap<T> {
    /// The position table names exactly the vertices in the array, each with
    /// the slot it occupies.
    pub closed spec fn positions_ok(&self) -> bool {
        &&& forall|i: int|
            0 <= i < self.items@.len() ==> self.positions@.contains_key(
                (#[trigger] self.items@[i]).id.key_of(),
            ) && self.positions@[self.items@[i].id.key_of()] == i
        &&& forall|k: u64| #[trigger]
            self.positions@.contains_key(k) ==> self.positions@[k] < self.items@.len()
                && self.items@[self.positions@[k] as int].id.key_of() == k
    }

    /// Well-formedness: the position table is exact and the array is in heap
    /// order.
    pub open spec fn wf(&self) -> bool {
        &&& self.positions_ok()
        &&& ordered(self@)
    }

    /// Whether the heap holds the vertex `id`.
    pub open spec fn contains(&self, id: T) -> bool {
        self.entries().contains_key(id)
    }

    /// The records in the heap, keyed by vertex.
    pub open spec fn entries(&self) -> Map<T, VertAttributes<T>> {
        entries(self@)
    }

    /// An exact position table leaves no vertex in two slots.
    pub proof fn lemma_ids_distinct(&self)
        requires
            self.positions_ok(),
        ensures
            ids_distinct(self@),
    {
        assert forall|i: int, j: int|
            0 <= i < self@.len() && 0 <= j < self@.len() && i != j implies (#[trigger] self@[i]).id
            != (#[trigger] self@[j]).id by {
            if self@[i].id == self@[j].id {
                assert(self.positions@[self.items@[i].id.key_of()] == i);
                assert(self.positions@[self.items@[j].id.key_of()] == j);
            }
        }
    }

    /// In a well-formed heap no record has a distance below that of the
    /// record at the root.
    pub proof fn lemma_min_at_root(&self, i: int)
        requires
            self.wf(),
            0 <= i < self@.len(),
        ensures
            self@[0].distance.spec_le(self@[i].distance),
    {
        lemma_root_is_min(self@, i);
    }

    /// A well-formed heap holds a vertex exactly when one of its slots does,
    /// and then in one slot only.
    pub proof fn lemma_held_once(&self, id: T)
        requires
            self.wf(),
        ensures
            self.contains(id) <==> exists|i: int| 0 <= i < self@.len() && (#[trigger] self@[i]).id
                == id,
            forall|i: int, j: int|
                0 <= i < self@.len() && 0 <= j < self@.len() && (#[trigger] self@[i]).id == id && (
                #[trigger] self@[j]).id == id ==> i == j,
    {
        self.lemma_ids_distinct();
    }

    /// The empty heap.
    pub fn new() -> (h: PositionTrackingMinHeap<T>)
        ensures
            h.wf(),
            h@ == Seq::<VertAttributes<T>>::empty(),
    {
        proof {
            lemma_empty_ordered(Seq::<VertAttributes<T>>::empty());
        }
        PositionTrackingMinHeap { items: Vec::new(), positions: HashMap::new() }
    }

    /// Whether the heap holds no record.
    pub fn is_empty(&self) -> (b: bool)
        ensures
            b == (self@.len() == 0),
    {
        self.items.len() == 0
    }

    /// The number of records in the heap.
    pub fn len(&self) -> (n: usize)
        ensures
            n == self@.len(),
    {
        self.items.len()
    }

    /// The record in slot `index`, if there is such a slot.
    pub fn get(&self, index: usize) -> (r: Option<&VertAttributes<T>>)
        ensures
            index < self@.len() ==> r == Some(&self@[index as int]),
            index >= self@.len() ==> r is None,
    {
        if index < self.items.len() {
            Some(&self.items[index])
        } else {
            None
        }
    }

    /// Exchanges two slots and keeps the position table exact.
    fn swap_slots(&mut self, first: usize, second: usize)
        requires
            old(self).positions_ok(),
            first < old(self)@.len(),
            second < old(self)@.len(),
        ensures
            final(self).positions_ok(),
            final(self)@ == swapped(old(self)@, first as int, second as int),
    {
        let a = self.items[first];
        let b = self.items[second];
        self.positions.insert(a.id.key(), second);
        self.positions.insert(b.id.key(), first);
        self.items[first] = b;
        self.items[second] = a;
        proof {
            old(self).lemma_ids_distinct();
            assert(self.items@ =~= swapped(old(self)@, first as int, second as int));
            assert forall|i: int| 0 <= i < self.items@.len() implies self.positions@.contains_key(
                (#[trigger] self.items@[i]).id.key_of(),
            ) && self.positions@[self.items@[i].id.key_of()] == i by {
                if i != first && i != second {
                    assert(self.items@[i] == old(self).items@[i]);
                    if old(self).items@[i].id.key_of() == a.id.key_of() {
                        assert(old(self).positions@[old(self).items@[first as int].id.key_of()]
                            == first);
                    }
                    if old(self).items@[i].id.key_of() == b.id.key_of() {
                        assert(old(self).positions@[old(self).items@[second as int].id.key_of()]
                            == second);
                    }
                }
            }
        }
    }

    /// Restores heap order below slot `index`, where the record may be above
    /// its children: the record sinks until neither child is below it.
    pub fn min_heapify(&mut self, index: usize)
        requires
            old(self).positions_ok(),
            ordered_below(old(self)@, index as int),
        ensures
            final(self).wf(),
            final(self).entries() == old(self).entries(),
            final(self)@.len() == old(self)@.len(),
            final(self)@ == sunk(old(self)@, index as int),
        decreases old(self)@.len() - index,
    {
        let vec_len = self.items.len();
        if index >= vec_len || index > (usize::MAX - 1) / 2 {
            proof {
                lemma_sink_done(self@, index as int);
            }
            return ;
        }
        let left = 2 * index;
        let right = 2 * index + 1;
        let mut smallest = index;
        if left < vec_len && self.items[left].distance < self.items[index].distance {
            smallest = left;
        }
        if right < vec_len && self.items[right].distance < self.items[smallest].distance {
            smallest = right;
        }
        if smallest != index {
            proof {
                self.lemma_ids_distinct();
                lemma_entries_swapped(self@, smallest as int, index as int);
                lemma_sink_step(self@, index as int, smallest as int);
            }
            self.swap_slots(smallest, index);
            self.min_heapify(smallest);
        } else {
            proof {
                lemma_sink_done(self@, index as int);
            }
        }
    }

    /// Removes and returns the record with the least distance.
    pub fn extract_min(&mut self) -> (min: VertAttributes<T>)
        requires
            old(self).wf(),
            old(self)@.len() > 0,
        ensures
            final(self).wf(),
            min == old(self)@[0],
            old(self).entries().contains_key(min.id),
            old(self).entries()[min.id] == min,
            forall|id: T| #[trigger]
                old(self).entries().contains_key(id) ==> min.distance.spec_le(
                    old(self).entries()[id].distance,
                ),
            final(self).entries() == old(self).entries().remove(min.id),
            final(self)@.len() == old(self)@.len() - 1,
            final(self)@ == sunk(old(self)@.update(0, old(self)@.last()).drop_last(), 0),
    {
        let len = self.items.len();
        let last_id = self.items[len - 1].id;
        let min = self.items.swap_remove(0);
        self.positions.insert(last_id.key(), 0);
        self.positions.remove(&min.id.key());
        proof {
            old(self).lemma_ids_distinct();
            lemma_entries_root_removed(old(self)@);
            lemma_root_replaced(old(self)@);
            lemma_slot(old(self)@, 0);
            assert forall|id: T| #[trigger]
                old(self).entries().contains_key(id) implies min.distance.spec_le(
                old(self).entries()[id].distance,
            ) by {
                lemma_root_is_min(old(self)@, slot(old(self)@, id));
            }
            assert forall|i: int| 0 <= i < self.items@.len() implies self.positions@.contains_key(
                (#[trigger] self.items@[i]).id.key_of(),
            ) && self.positions@[self.items@[i].id.key_of()] == i by {
                if i == 0 {
                    assert(old(self).items@[len - 1].id.key_of() != min.id.key_of());
                } else {
                    assert(self.items@[i] == old(self).items@[i]);
                    assert(old(self).positions@[old(self).items@[i].id.key_of()] == i);
                    assert(old(self).positions@[old(self).items@[0].id.key_of()] == 0);
                    assert(old(self).positions@[old(self).items@[len - 1].id.key_of()] == len - 1);
                }
            }
        }
        self.min_heapify(0);
        min
    }

    /// Lets the record in slot `index` rise until its parent is not above it.
    fn sift_up(&mut self, index: usize)
        requires
            old(self).positions_ok(),
            index < old(self)@.len(),
            ordered_above(old(self)@, index as int),
        ensures
            final(self).wf(),
            final(self).entries() == old(self).entries(),
            final(self)@.len() == old(self)@.len(),
            final(self)@ == risen(old(self)@, index as int),
    {
        let mut idx = index;
        while idx > 0 && self.items[idx / 2].distance > self.items[idx].distance
            invariant
                self.positions_ok(),
                idx < self@.len(),
                ordered_above(self@, idx as int),
                self.entries() == old(self).entries(),
                self@.len() == old(self)@.len(),
                risen(self@, idx as int) == risen(old(self)@, index as int),
            decreases idx,
        {
            let parent = idx / 2;
            proof {
                self.lemma_ids_distinct();
                lemma_entries_swapped(self@, idx as int, parent as int);
                lemma_rise_step(self@, idx as int);
            }
            self.swap_slots(idx, parent);
            idx = parent;
        }
        proof {
            lemma_rise_done(self@, idx as int);
        }
    }

    /// Adds a record. The heap must not hold the record's vertex already.
    pub fn insert(&mut self, value: VertAttributes<T>)
        requires
            old(self).wf(),
            !old(self).contains(value.id),
        ensures
            final(self).wf(),
            final(self).entries() == old(self).entries().insert(value.id, value),
            final(self)@.len() == old(self)@.len() + 1,
            final(self)@ == risen(old(self)@.push(value), old(self)@.len() as int),
    {
        let at = self.items.len();
        self.items.push(value);
        self.positions.insert(value.id.key(), at);
        proof {
            old(self).lemma_ids_distinct();
            lemma_entries_pushed(old(self)@, value);
            lemma_appended(old(self)@, value);
            assert forall|i: int| 0 <= i < at implies old(self).items@[i].id.key_of()
                != value.id.key_of() by {
                if old(self).items@[i].id.key_of() == value.id.key_of() {
                    T::lemma_key_injective(old(self).items@[i].id, value.id);
                }
            }
            assert forall|i: int| 0 <= i < self.items@.len() implies self.positions@.contains_key(
                (#[trigger] self.items@[i]).id.key_of(),
            ) && self.positions@[self.items@[i].id.key_of()] == i by {
                if i < at {
                    assert(self.items@[i] == old(self).items@[i]);
                }
            }
        }
        self.sift_up(at);
    }

    /// Replaces the record in slot `index` by `value`, a record of the same
    /// vertex whose distance is not above the current one, and restores heap
    /// order.
    pub fn heap_decrease_key(&mut self, index: usize, value: VertAttributes<T>)
        requires
            old(self).wf(),
            index < old(self)@.len(),
            value.id == old(self)@[index as int].id,
            value.distance.spec_le(old(self)@[index as int].distance),
        ensures
            final(self).wf(),
            final(self).entries() == old(self).entries().insert(value.id, value),
            final(self)@.len() == old(self)@.len(),
            final(self)@ == risen(old(self)@.update(index as int, value), index as int),
    {
        self.items[index] = value;
        proof {
            old(self).lemma_ids_distinct();
            lemma_entries_updated(old(self)@, index as int, value);
            lemma_lowered(old(self)@, index as int, value);
            assert(self@ =~= old(self)@.update(index as int, value));
            assert forall|i: int| 0 <= i < self.items@.len() implies self.positions@.contains_key(
                (#[trigger] self.items@[i]).id.key_of(),
            ) && self.positions@[self.items@[i].id.key_of()] == i by {
                assert(self.items@[i].id == old(self).items@[i].id);
            }
        }
        self.sift_up(index);
    }

    /// The slot that holds `vert`, if the heap holds it.
    pub fn vert_index(&self, vert: T) -> (r: Option<usize>)
        requires
            self.wf(),
        ensures
            r is Some <==> self.contains(vert),
            r matches Some(i) ==> i < self@.len() && self@[i as int].id == vert
                && self.entries()[vert] == self@[i as int] && i == slot(self@, vert),
    {
        let k = vert.key();
        match self.positions.get(&k) {
            Some(i) => {
                proof {
                    T::lemma_key_injective(self.items@[*i as int].id, vert);
                    self.lemma_ids_distinct();
                    lemma_slot(self@, *i as int);
                }
                Some(*i)
            },
            None => {
                proof {
                    if self.contains(vert) {
                        let i = slot(self@, vert);
                        assert(self.positions@.contains_key(self.items@[i].id.key_of()));
                    }
                }
                None
            },
        }
    }
}

} // verus!
