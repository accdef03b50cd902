use vstd::prelude::*;
use crate::position::Position;

verus! {

/// What a placed object is. A crate, a target and a locked crate carry a tag
/// (a symbolic colour identifier); walls and floor tiles carry none, so an
/// invalid combination cannot be built. The rendering collaborator resolves a
/// category and tag to an actual sprite; the core never holds image data.
#[derive(Debug, PartialEq, Eq, Structural, Clone, Copy)]
pub enum Category {
    Wall,
    Floor,
    Crate(u32),
    Target(u32),
    LockedCrate(u32),
}

impl Category {
    /// A blocking occupant that can never be pushed or entered.
    pub open spec fn is_blocking(self) -> bool {
        self is Wall || self is LockedCrate
    }
}

/// A placed object: its category (with tag, where one belongs) and where it
/// stands.
#[derive(Debug, PartialEq, Eq, Structural, Clone, Copy)]
pub struct Object {
    pub obj_type: Category,
    pub position: Position,
}

impl Object {
    pub fn new(position: Position, obj_type: Category) -> (r: Object)
        ensures
            r.position == position,
            r.obj_type == obj_type,
    {
        Object { position, obj_type }
    }
}

/// Entity `k` of the sequence stands on cell (x, y).
pub open spec fn entity_at(s: Seq<Object>, k: int, x: int, y: int) -> bool {
    0 <= k < s.len() && s[k].position.x == x && s[k].position.y == y
}

pub open spec fn occupied(s: Seq<Object>, x: int, y: int) -> bool {
    exists|k: int| #[trigger] entity_at(s, k, x, y)
}

pub open spec fn wall_at(s: Seq<Object>, x: int, y: int) -> bool {
    exists|k: int| #[trigger] entity_at(s, k, x, y) && s[k].obj_type is Wall
}

/// No two entities of the sequence share a position.
pub open spec fn distinct_positions(s: Seq<Object>) -> bool {
    forall|k1: int, k2: int|
        #![trigger s[k1], s[k2]]
        0 <= k1 < s.len() && 0 <= k2 < s.len() && k1 != k2 ==> s[k1].position != s[k2].position
}

/// A cell on the outermost ring of a w x h grid.
pub open spec fn peri(w: int, h: int, x: int, y: int) -> bool {
    0 <= x < w && 0 <= y < h && (x == 0 || x == w - 1 || y == 0 || y == h - 1)
}

pub open spec fn in_grid(o: Object, w: int, h: int) -> bool {
    0 <= o.position.x < w && 0 <= o.position.y < h
}

pub open spec fn in_interior(o: Object, w: int, h: int) -> bool {
    1 <= o.position.x < w - 1 && 1 <= o.position.y < h - 1
}

pub open spec fn tag_ok(c: Category, num_tags: u32) -> bool {
    match c {
        Category::Crate(t) => t < num_tags,
        Category::Target(t) => t < num_tags,
        Category::LockedCrate(t) => t < num_tags,
        _ => true,
    }
}

/// Per-tag solvability: each tag has as many crates as targets.
pub open spec fn tag_balanced(s: Seq<Object>, num_tags: u32) -> bool {
    forall|t: u32|
        t < num_tags ==> #[trigger] count_of(s, Category::Crate(t)) == count_of(
            s,
            Category::Target(t),
        )
}

pub proof fn lemma_unique_at(s: Seq<Object>, k1: int, k2: int, x: int, y: int)
    requires
        distinct_positions(s),
        entity_at(s, k1, x, y),
        entity_at(s, k2, x, y),
    ensures
        k1 == k2,
{
    if k1 != k2 {
        assert(s[k1].position == s[k2].position);
    }
}

/// Appending an object on a cell nothing stands on keeps positions distinct.
pub proof fn lemma_distinct_push(s: Seq<Object>, o: Object)
    requires
        distinct_positions(s),
        forall|m: int| 0 <= m < s.len() ==> (#[trigger] s[m]).position != o.position,
    ensures
        distinct_positions(s.push(o)),
{
    let s2 = s.push(o);
    assert forall|k1: int, k2: int|
        #![trigger s2[k1], s2[k2]]
        0 <= k1 < s2.len() && 0 <= k2 < s2.len() && k1 != k2 implies s2[k1].position
        != s2[k2].position by {
        if k1 < s.len() && k2 < s.len() {
            assert(s2[k1] == s[k1]);
            assert(s2[k2] == s[k2]);
        } else if k1 < s.len() {
            assert(s2[k1] == s[k1]);
            assert(s2[k2] == o);
        } else {
            assert(s2[k1] == o);
            assert(s2[k2] == s[k2]);
        }
    }
}

/// Pushing never removes an occupant: both hold cell-wise.
pub proof fn lemma_push_preserves_at(s: Seq<Object>, o: Object)
    ensures
        forall|x: int, y: int| #[trigger] wall_at(s, x, y) ==> wall_at(s.push(o), x, y),
        forall|x: int, y: int| #[trigger] occupied(s, x, y) ==> occupied(s.push(o), x, y),
{
    assert forall|x: int, y: int| #[trigger] wall_at(s, x, y) implies wall_at(s.push(o), x, y) by {
        let k = choose|k: int| #[trigger] entity_at(s, k, x, y) && s[k].obj_type is Wall;
        assert(entity_at(s.push(o), k, x, y));
    }
    assert forall|x: int, y: int| #[trigger] occupied(s, x, y) implies occupied(s.push(o), x, y) by {
        let k = choose|k: int| #[trigger] entity_at(s, k, x, y);
        assert(entity_at(s.push(o), k, x, y));
    }
}

/// An entity may move onto a free cell without breaking distinctness.
pub proof fn lemma_distinct_update(s: Seq<Object>, k: int, o: Object)
    requires
        distinct_positions(s),
        0 <= k < s.len(),
        !occupied(s, o.position.x as int, o.position.y as int),
    ensures
        distinct_positions(s.update(k, o)),
{
    let s2 = s.update(k, o);
    assert forall|k1: int, k2: int|
        #![trigger s2[k1], s2[k2]]
        0 <= k1 < s2.len() && 0 <= k2 < s2.len() && k1 != k2 implies s2[k1].position
        != s2[k2].position by {
        if k1 == k {
            if s2[k1].position == s2[k2].position {
                assert(entity_at(s, k2, o.position.x as int, o.position.y as int));
            }
        } else if k2 == k {
            if s2[k1].position == s2[k2].position {
                assert(entity_at(s, k1, o.position.x as int, o.position.y as int));
            }
        }
    }
}

/// An entity may move onto the cell of entity `j` if `j` is removed in the
/// same transition: distinctness survives the lock.
pub proof fn lemma_distinct_update_remove(s: Seq<Object>, k: int, j: int, o: Object)
    requires
        distinct_positions(s),
        0 <= k < s.len(),
        0 <= j < s.len(),
        k != j,
        entity_at(s, j, o.position.x as int, o.position.y as int),
    ensures
        distinct_positions(s.update(k, o).remove(j)),
{
    let s2 = s.update(k, o);
    let s3 = s2.remove(j);
    s2.remove_ensures(j);
    assert forall|k1: int, k2: int|
        #![trigger s3[k1], s3[k2]]
        0 <= k1 < s3.len() && 0 <= k2 < s3.len() && k1 != k2 implies s3[k1].position
        != s3[k2].position by {
        let i1 = if k1 < j { k1 } else { k1 + 1 };
        let i2 = if k2 < j { k2 } else { k2 + 1 };
        assert(s3[k1] == s2[i1]);
        assert(s3[k2] == s2[i2]);
        if i1 == k {
            if s2[i1].position == s2[i2].position {
                assert(s[i2].position == o.position);
                lemma_unique_at(s, i2, j, o.position.x as int, o.position.y as int);
            }
        } else if i2 == k {
            if s2[i1].position == s2[i2].position {
                assert(s[i1].position == o.position);
                lemma_unique_at(s, i1, j, o.position.x as int, o.position.y as int);
            }
        }
    }
}

/// Updating a non-wall entity keeps every wall where it was.
pub proof fn lemma_walls_update(s: Seq<Object>, k: int, o: Object)
    requires
        0 <= k < s.len(),
        !(s[k].obj_type is Wall),
    ensures
        forall|x: int, y: int| #[trigger] wall_at(s, x, y) ==> wall_at(s.update(k, o), x, y),
{
    let s2 = s.update(k, o);
    assert forall|x: int, y: int| #[trigger] wall_at(s, x, y) implies wall_at(s2, x, y) by {
        let m = choose|m: int| #[trigger] entity_at(s, m, x, y) && s[m].obj_type is Wall;
        assert(m != k);
        assert(s2[m] == s[m]);
        assert(entity_at(s2, m, x, y));
    }
}

/// Removing a non-wall entity keeps every wall where it was.
pub proof fn lemma_walls_remove(s: Seq<Object>, j: int)
    requires
        0 <= j < s.len(),
        !(s[j].obj_type is Wall),
    ensures
        forall|x: int, y: int| #[trigger] wall_at(s, x, y) ==> wall_at(s.remove(j), x, y),
{
    let s3 = s.remove(j);
    s.remove_ensures(j);
    assert forall|x: int, y: int| #[trigger] wall_at(s, x, y) implies wall_at(s3, x, y) by {
        let m = choose|m: int| #[trigger] entity_at(s, m, x, y) && s[m].obj_type is Wall;
        assert(m != j);
        let m2 = if m < j { m } else { m - 1 };
        assert(s3[m2] == s[m]);
        assert(entity_at(s3, m2, x, y));
    }
}

/// A target seen at some index makes the target count positive.
pub proof fn lemma_count_target_pos(s: Seq<Object>, j: int)
    requires
        0 <= j < s.len(),
        s[j].obj_type is Target,
    ensures
        count_targets(s) >= 1,
    decreases s.len(),
{
    if j == s.len() - 1 {
        lemma_count_nonneg(s.drop_last(), Category::Wall);
    } else {
        lemma_count_target_pos(s.drop_last(), j);
        lemma_count_nonneg(s, Category::Wall);
        assert(s.drop_last()[j] == s[j]);
    }
}

/// Two position-disjoint distinct collections concatenate to a distinct one.
pub proof fn lemma_distinct_append(a: Seq<Object>, b: Seq<Object>)
    requires
        distinct_positions(a),
        distinct_positions(b),
        forall|i: int, j: int|
            #![trigger a[i], b[j]]
            0 <= i < a.len() && 0 <= j < b.len() ==> a[i].position != b[j].position,
    ensures
        distinct_positions(a + b),
{
    let s2 = a + b;
    assert forall|k1: int, k2: int|
        #![trigger s2[k1], s2[k2]]
        0 <= k1 < s2.len() && 0 <= k2 < s2.len() && k1 != k2 implies s2[k1].position
        != s2[k2].position by {
        if k1 < a.len() && k2 < a.len() {
            assert(s2[k1] == a[k1] && s2[k2] == a[k2]);
        } else if k1 < a.len() {
            assert(s2[k1] == a[k1] && s2[k2] == b[k2 - a.len()]);
        } else if k2 < a.len() {
            assert(s2[k1] == b[k1 - a.len()] && s2[k2] == a[k2]);
        } else {
            assert(s2[k1] == b[k1 - a.len()] && s2[k2] == b[k2 - a.len()]);
        }
    }
}

/// Count of objects whose category is exactly `c`.
pub open spec fn count_of(s: Seq<Object>, c: Category) -> int
    decreases s.len(),
{
    if s.len() == 0 {
        0
    } else {
        count_of(s.drop_last(), c) + if s.last().obj_type == c { 1int } else { 0int }
    }
}

/// Count of target objects, of any tag.
pub open spec fn count_targets(s: Seq<Object>) -> int
    decreases s.len(),
{
    if s.len() == 0 {
        0
    } else {
        count_targets(s.drop_last()) + if s.last().obj_type is Target { 1int } else { 0int }
    }
}

pub proof fn lemma_count_of_push(s: Seq<Object>, o: Object, c: Category)
    ensures
        count_of(s.push(o), c) == count_of(s, c) + if o.obj_type == c { 1int } else { 0int },
        count_targets(s.push(o)) == count_targets(s) + if o.obj_type is Target { 1int } else { 0int },
{
    assert(s.push(o).drop_last() =~= s);
}

pub proof fn lemma_count_nonneg(s: Seq<Object>, c: Category)
    ensures
        count_of(s, c) >= 0,
        count_targets(s) >= 0,
    decreases s.len(),
{
    if s.len() > 0 {
        lemma_count_nonneg(s.drop_last(), c);
    }
}

pub proof fn lemma_count_of_add(a: Seq<Object>, b: Seq<Object>, c: Category)
    ensures
        count_of(a + b, c) == count_of(a, c) + count_of(b, c),
        count_targets(a + b) == count_targets(a) + count_targets(b),
    decreases b.len(),
{
    if b.len() == 0 {
        assert(a + b =~= a);
    } else {
        lemma_count_of_add(a, b.drop_last(), c);
        assert((a + b).drop_last() =~= a + b.drop_last());
        assert((a + b).last() == b.last());
    }
}

/// In a sequence where no object has category `c`, the count of `c` is zero;
/// likewise for targets.
pub proof fn lemma_count_of_absent(s: Seq<Object>, c: Category)
    requires
        forall|k: int| 0 <= k < s.len() ==> s[k].obj_type != c,
    ensures
        count_of(s, c) == 0,
    decreases s.len(),
{
    if s.len() > 0 {
        lemma_count_of_absent(s.drop_last(), c);
    }
}

pub proof fn lemma_count_targets_absent(s: Seq<Object>)
    requires
        forall|k: int| 0 <= k < s.len() ==> !(s[k].obj_type is Target),
    ensures
        count_targets(s) == 0,
    decreases s.len(),
{
    if s.len() > 0 {
        lemma_count_targets_absent(s.drop_last());
    }
}

/// How an update at one index moves the counts.
pub proof fn lemma_count_update(s: Seq<Object>, k: int, o: Object, c: Category)
    requires
        0 <= k < s.len(),
    ensures
        count_of(s.update(k, o), c) == count_of(s, c)
            - (if s[k].obj_type == c { 1int } else { 0int })
            + (if o.obj_type == c { 1int } else { 0int }),
        count_targets(s.update(k, o)) == count_targets(s)
            - (if s[k].obj_type is Target { 1int } else { 0int })
            + (if o.obj_type is Target { 1int } else { 0int }),
    decreases s.len(),
{
    if k == s.len() - 1 {
        assert(s.update(k, o).drop_last() =~= s.drop_last());
        assert(s.update(k, o).last() == o);
    } else {
        lemma_count_update(s.drop_last(), k, o, c);
        assert(s.update(k, o).drop_last() =~= s.drop_last().update(k, o));
        assert(s.update(k, o).last() == s.last());
    }
}

/// How removing one index moves the counts.
pub proof fn lemma_count_remove(s: Seq<Object>, j: int, c: Category)
    requires
        0 <= j < s.len(),
    ensures
        count_of(s.remove(j), c) == count_of(s, c)
            - (if s[j].obj_type == c { 1int } else { 0int }),
        count_targets(s.remove(j)) == count_targets(s)
            - (if s[j].obj_type is Target { 1int } else { 0int }),
    decreases s.len(),
{
    if j == s.len() - 1 {
        assert(s.remove(j) =~= s.drop_last());
    } else {
        lemma_count_remove(s.drop_last(), j, c);
        assert(s.remove(j).drop_last() =~= s.drop_last().remove(j));
        assert(s.remove(j).last() == s.last());
    }
}

} // verus!
