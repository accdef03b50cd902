use vstd::prelude::*;
use crate::entity::{count_of, count_targets, Category, Object};
use crate::entity::{
    distinct_positions, entity_at, in_grid, in_interior, occupied, peri, tag_balanced, tag_ok,
    wall_at,
};
use crate::entity::{
    lemma_count_target_pos, lemma_distinct_append, lemma_distinct_update,
    lemma_distinct_update_remove, lemma_unique_at, lemma_walls_remove, lemma_walls_update,
};
use crate::entity::{
    lemma_count_of_absent, lemma_count_of_add, lemma_count_remove, lemma_count_targets_absent,
    lemma_count_update,
};
use crate::gen::{build_walls_floors, fill_pairs, make_quotas, random_scatter};
use crate::position::Position;
use crate::rng::rand_range;
use crate::score::Score;

verus! {

/// A directional intent from the input collaborator.
#[derive(Debug, PartialEq, Eq, Structural, Clone, Copy)]
pub enum Direction {
    Up,
    Down,
    Left,
    Right,
}

pub open spec fn dir_dx(d: Direction) -> int {
    match d {
        Direction::Left => -1,
        Direction::Right => 1,
        _ => 0,
    }
}

pub open spec fn dir_dy(d: Direction) -> int {
    match d {
        Direction::Up => -1,
        Direction::Down => 1,
        _ => 0,
    }
}

#[derive(Debug, PartialEq, Eq, Structural, Clone, Copy)]
pub struct Player {
    pub position: Position,
    pub facing: Direction,
}

/// Generation gave up within its attempt budget: the requested layout does
/// not fit the grid.
#[derive(Debug, PartialEq, Eq, Structural, Clone, Copy)]
pub enum GenError {
    OutOfSpace,
}

/// The whole game state: render-only floor tiles, the colliding special
/// entities, the player, counters, the grid extent and how many distinct
/// tags the generator may draw from.
pub struct Game {
    pub floor: Vec<Object>,
    pub special: Vec<Object>,
    pub player: Player,
    pub score: Score,
    pub targets_left: i32,
    pub size: (u32, u32),
    pub num_tags: u32,
}

/// The player may step onto (x, y): nothing stands there but, possibly, a
/// bare target cell.
pub open spec fn passable(s: Seq<Object>, x: int, y: int) -> bool {
    forall|k: int| #[trigger] entity_at(s, k, x, y) ==> s[k].obj_type is Target
}

pub open spec fn crate_with_tag_at(s: Seq<Object>, x: int, y: int, t: u32) -> bool {
    exists|k: int| #[trigger] entity_at(s, k, x, y) && s[k].obj_type == Category::Crate(t)
}

pub open spec fn target_with_tag_at(s: Seq<Object>, x: int, y: int, t: u32) -> bool {
    exists|k: int| #[trigger] entity_at(s, k, x, y) && s[k].obj_type == Category::Target(t)
}

impl Game {
    pub open spec fn w(self) -> int {
        self.size.0 as int
    }

    pub open spec fn h(self) -> int {
        self.size.1 as int
    }

    /// Configuration and counters are in range; the player stands strictly
    /// inside the walls.
    pub open spec fn dims_ok(self) -> bool {
        &&& 5 <= self.w() <= 48
        &&& 5 <= self.h() <= 48
        &&& 1 <= self.num_tags <= 64
        &&& 0 <= self.score.moves
        &&& 0 <= self.score.scored
        &&& 1 <= self.player.position.x < self.w() - 1
        &&& 1 <= self.player.position.y < self.h() - 1
    }

    pub open spec fn on_perimeter(self, x: int, y: int) -> bool {
        peri(self.w(), self.h(), x, y)
    }

    /// The grid invariant over the special collection: no shared positions,
    /// everything inside the grid with a tag the configuration knows, a wall
    /// on every perimeter cell, everything that is not a wall strictly inside
    /// the walls.
    pub open spec fn specials_ok(self) -> bool {
        &&& distinct_positions(self.special@)
        &&& forall|k: int|
            0 <= k < self.special@.len() ==> in_grid(#[trigger] self.special@[k], self.w(), self.h())
                && !(self.special@[k].obj_type is Floor) && tag_ok(
                self.special@[k].obj_type,
                self.num_tags,
            )
        &&& forall|x: int, y: int| self.on_perimeter(x, y) ==> #[trigger] wall_at(self.special@, x, y)
        &&& forall|k: int|
            0 <= k < self.special@.len() && !((#[trigger] self.special@[k]).obj_type is Wall)
                ==> in_interior(self.special@[k], self.w(), self.h())
    }

    pub open spec fn floor_ok(self) -> bool {
        forall|k: int|
            0 <= k < self.floor@.len() ==> (#[trigger] self.floor@[k]).obj_type is Floor
                && in_interior(self.floor@[k], self.w(), self.h())
    }

    /// `targets_left` counts exactly the target entities still present.
    pub open spec fn targets_ok(self) -> bool {
        self.targets_left as int == count_targets(self.special@)
    }

    pub open spec fn wf(self) -> bool {
        &&& self.dims_ok()
        &&& self.specials_ok()
        &&& self.floor_ok()
        &&& self.targets_ok()
    }

    /// The initial state before the first level is generated: empty
    /// collections, the player on its fixed starting cell, zeroed counters.
    pub fn new(size: (u32, u32), num_tags: u32) -> (g: Game)
        requires
            5 <= size.0 <= 48,
            5 <= size.1 <= 48,
            1 <= num_tags <= 64,
        ensures
            g.dims_ok(),
            g.floor_ok(),
            g.targets_ok(),
            g.special@.len() == 0,
            g.floor@.len() == 0,
            g.player.position == (Position { x: 1, y: 3 }),
            g.player.facing == Direction::Up,
            g.score.moves == 0,
            g.score.scored == 0,
            g.targets_left == 0,
            g.size == size,
            g.num_tags == num_tags,
    {
        Game {
            floor: Vec::new(),
            special: Vec::new(),
            player: Player { position: Position { x: 1, y: 3 }, facing: Direction::Up },
            score: Score::new(),
            targets_left: 0,
            size,
            num_tags,
        }
    }

    /// Replace the whole level: perimeter walls, floor tiles, and crates and
    /// targets drawn under the per-tag count equality. The randomized quota
    /// partition runs under a bounded pass budget; if random placement cannot
    /// finish, constraints are fully relaxed and the layout is completed
    /// deterministically, and only a grid too small for the layout makes the
    /// whole generation report failure. On failure nothing is changed; on
    /// success the player and the cumulative score persist, only the layout
    /// is replaced.
    pub fn gen_level(&mut self) -> (r: Result<(), GenError>)
        requires
            old(self).dims_ok(),
        ensures
            final(self).player == old(self).player,
            final(self).score == old(self).score,
            final(self).size == old(self).size,
            final(self).num_tags == old(self).num_tags,
            r is Err ==> *final(self) == *old(self),
            r is Ok ==> final(self).wf() && tag_balanced(final(self).special@, final(self).num_tags)
                && 3 <= final(self).targets_left <= 8,
            16 <= (old(self).w() - 4) * (old(self).h() - 4) ==> r is Ok,
    {
        let w = self.size.0;
        let h = self.size.1;
        let num_tags = self.num_tags;
        let (walls, floors) = build_walls_floors(w, h);
        let n_crates: usize = rand_range(3, 9) as usize;
        let quotas = make_quotas(num_tags, n_crates);
        match random_scatter(w, h, num_tags, &quotas, n_crates) {
            Some(pair) => {
                let (placed, n_targets) = pair;
                self.commit_level(walls, floors, placed, n_targets, Ghost(quotas@));
                Ok(())
            },
            None => match fill_pairs(w, h, num_tags, &quotas, n_crates) {
                None => Err(GenError::OutOfSpace),
                Some(pair) => {
                    let (placed, n_targets) = pair;
                    self.commit_level(walls, floors, placed, n_targets, Ghost(quotas@));
                    Ok(())
                },
            },
        }
    }

    /// Atomically install a freshly built layout: the old floor and special
    /// collections are replaced wholesale, `targets_left` is set to the new
    /// target count, and nothing else is touched.
    fn commit_level(
        &mut self,
        walls: Vec<Object>,
        floors: Vec<Object>,
        placed: Vec<Object>,
        n_targets: usize,
        quotas: Ghost<Seq<usize>>,
    )
        requires
            old(self).dims_ok(),
            quotas@.len() == old(self).num_tags,
            distinct_positions(walls@),
            forall|k: int|
                0 <= k < walls@.len() ==> (#[trigger] walls@[k]).obj_type is Wall && peri(
                    old(self).w(),
                    old(self).h(),
                    walls@[k].position.x as int,
                    walls@[k].position.y as int,
                ),
            forall|x: int, y: int|
                peri(old(self).w(), old(self).h(), x, y) ==> #[trigger] wall_at(walls@, x, y),
            forall|k: int|
                0 <= k < floors@.len() ==> (#[trigger] floors@[k]).obj_type is Floor
                    && in_interior(floors@[k], old(self).w(), old(self).h()),
            crate::gen::placed_ok(
                placed@,
                old(self).w(),
                old(self).h(),
                old(self).num_tags,
                quotas@,
                n_targets as int,
            ),
            3 <= n_targets <= 8,
        ensures
            final(self).player == old(self).player,
            final(self).score == old(self).score,
            final(self).size == old(self).size,
            final(self).num_tags == old(self).num_tags,
            final(self).wf(),
            tag_balanced(final(self).special@, final(self).num_tags),
            final(self).targets_left == n_targets,
    {
        let ghost num_tags = self.num_tags;
        let mut placed = placed;
        let ghost walls_view = walls@;
        let ghost placed_view = placed@;
        let mut special = walls;
        special.append(&mut placed);
        proof {
            let s = special@;
            let ww = old(self).w();
            let hh = old(self).h();
            assert(s =~= walls_view + placed_view);
            assert forall|a: int, b: int|
                #![trigger walls_view[a], placed_view[b]]
                0 <= a < walls_view.len() && 0 <= b < placed_view.len() implies walls_view[a].position
                != placed_view[b].position by {
                assert(peri(
                    ww,
                    hh,
                    walls_view[a].position.x as int,
                    walls_view[a].position.y as int,
                ));
                assert(in_interior(placed_view[b], ww, hh));
            }
            lemma_distinct_append(walls_view, placed_view);
            assert forall|k: int| 0 <= k < s.len() implies in_grid(#[trigger] s[k], ww, hh) && !(
            s[k].obj_type is Floor) && tag_ok(s[k].obj_type, num_tags) && (!(s[k].obj_type
                is Wall) ==> in_interior(s[k], ww, hh)) by {
                if k < walls_view.len() {
                    assert(s[k] == walls_view[k]);
                } else {
                    assert(s[k] == placed_view[k - walls_view.len()]);
                }
            }
            assert forall|x: int, y: int| peri(ww, hh, x, y) implies #[trigger] wall_at(
                s,
                x,
                y,
            ) by {
                assert(wall_at(walls_view, x, y));
                let k = choose|k: int| #[trigger] entity_at(walls_view, k, x, y)
                    && walls_view[k].obj_type is Wall;
                assert(s[k] == walls_view[k]);
                assert(entity_at(s, k, x, y));
            }
            lemma_count_of_add(walls_view, placed_view, Category::Wall);
            lemma_count_targets_absent(walls_view);
            assert forall|t: u32| t < num_tags implies #[trigger] count_of(s, Category::Crate(t))
                == count_of(s, Category::Target(t)) by {
                lemma_count_of_add(walls_view, placed_view, Category::Crate(t));
                lemma_count_of_add(walls_view, placed_view, Category::Target(t));
                assert forall|k: int| 0 <= k < walls_view.len() implies (#[trigger] walls_view[k]).obj_type
                    != Category::Crate(t) && walls_view[k].obj_type != Category::Target(t) by {}
                lemma_count_of_absent(walls_view, Category::Crate(t));
                lemma_count_of_absent(walls_view, Category::Target(t));
            }
        }
        self.special = special;
        self.floor = floors;
        self.targets_left = n_targets as i32;
    }
}

pub open spec fn next_x(pre: Game, d: Direction) -> int {
    pre.player.position.x + dir_dx(d)
}

pub open spec fn next_y(pre: Game, d: Direction) -> int {
    pre.player.position.y + dir_dy(d)
}

pub open spec fn beyond_x(pre: Game, d: Direction) -> int {
    pre.player.position.x + 2 * dir_dx(d)
}

pub open spec fn beyond_y(pre: Game, d: Direction) -> int {
    pre.player.position.y + 2 * dir_dy(d)
}

/// What no movement intent may change.
pub open spec fn config_same(pre: Game, post: Game) -> bool {
    &&& post.size == pre.size
    &&& post.num_tags == pre.num_tags
}

/// An intent that was rejected changed nothing at all: not the player, not a
/// single entity, not a counter.
pub open spec fn rejected(pre: Game, post: Game) -> bool {
    &&& post.special@ == pre.special@
    &&& post.floor@ == pre.floor@
    &&& post.player.position == pre.player.position
    &&& post.score == pre.score
    &&& post.targets_left == pre.targets_left
}

/// A passable step: the player advanced one cell, `moves` went up by one,
/// and nothing else changed.
pub open spec fn walk_post(pre: Game, d: Direction, post: Game) -> bool {
    &&& post.special@ == pre.special@
    &&& post.floor@ == pre.floor@
    &&& post.player.position.x as int == next_x(pre, d)
    &&& post.player.position.y as int == next_y(pre, d)
    &&& post.score.moves == pre.score.moves + 1
    &&& post.score.scored == pre.score.scored
    &&& post.targets_left == pre.targets_left
}

/// A plain push: the crate in front of the player moved one cell onward, the
/// player stepped into its old cell, `moves` went up by one, and nothing
/// else changed.
pub open spec fn push_post(pre: Game, d: Direction, post: Game, t: u32) -> bool {
    &&& (exists|k: int|
        #[trigger] entity_at(pre.special@, k, next_x(pre, d), next_y(pre, d))
            && pre.special@[k].obj_type == Category::Crate(t) && post.special@
            == pre.special@.update(
            k,
            Object {
                obj_type: Category::Crate(t),
                position: Position {
                    x: beyond_x(pre, d) as i32,
                    y: beyond_y(pre, d) as i32,
                },
            },
        ))
    &&& post.floor@ == pre.floor@
    &&& post.player.position.x as int == next_x(pre, d)
    &&& post.player.position.y as int == next_y(pre, d)
    &&& post.score.moves == pre.score.moves + 1
    &&& post.score.scored == pre.score.scored
    &&& post.targets_left == pre.targets_left
}

/// A successful crate-lock, before any regeneration: exactly one crate
/// became a locked crate on the target's cell, exactly that target is gone,
/// `scored` went up by one and `targets_left` down by one, the player
/// stepped forward and `moves` went up by one.
pub open spec fn lock_post(pre: Game, d: Direction, post: Game, t: u32) -> bool {
    &&& (exists|k: int, j: int|
        k != j && #[trigger] entity_at(pre.special@, k, next_x(pre, d), next_y(pre, d))
            && pre.special@[k].obj_type == Category::Crate(t) && #[trigger] entity_at(
            pre.special@,
            j,
            beyond_x(pre, d),
            beyond_y(pre, d),
        ) && pre.special@[j].obj_type == Category::Target(t) && post.special@
            == pre.special@.update(
            k,
            Object {
                obj_type: Category::LockedCrate(t),
                position: Position {
                    x: beyond_x(pre, d) as i32,
                    y: beyond_y(pre, d) as i32,
                },
            },
        ).remove(j))
    &&& post.floor@ == pre.floor@
    &&& post.player.position.x as int == next_x(pre, d)
    &&& post.player.position.y as int == next_y(pre, d)
    &&& post.score.moves == pre.score.moves + 1
    &&& post.score.scored == pre.score.scored + 1
    &&& post.targets_left == pre.targets_left - 1
}

/// A lock emptied the level and exactly one regeneration followed: the new
/// layout satisfies the tag-count equality again, while the player's new
/// position and the cumulative score carry over.
pub open spec fn regen_post(pre: Game, d: Direction, post: Game) -> bool {
    &&& tag_balanced(post.special@, post.num_tags)
    &&& 3 <= post.targets_left <= 8
    &&& post.player.position.x as int == next_x(pre, d)
    &&& post.player.position.y as int == next_y(pre, d)
    &&& post.score.moves == pre.score.moves + 1
    &&& post.score.scored == pre.score.scored + 1
}

/// The full outcome of one directional intent, over every case the movement
/// engine distinguishes.
pub open spec fn move_cases(pre: Game, d: Direction, post: Game, r: Result<(), GenError>) -> bool {
    let s = pre.special@;
    let nx = next_x(pre, d);
    let ny = next_y(pre, d);
    let bx = beyond_x(pre, d);
    let by = beyond_y(pre, d);
    &&& (passable(s, nx, ny) ==> r is Ok && walk_post(pre, d, post))
    &&& ((exists|k: int| #[trigger] entity_at(s, k, nx, ny) && s[k].obj_type.is_blocking())
        ==> r is Ok && rejected(pre, post))
    &&& (forall|t: u32|
        #[trigger] crate_with_tag_at(s, nx, ny, t) ==> {
            if !occupied(s, bx, by) {
                r is Ok && push_post(pre, d, post, t)
            } else if target_with_tag_at(s, bx, by, t) {
                if pre.targets_left == 1 {
                    &&& (r is Ok ==> regen_post(pre, d, post))
                    &&& (r is Err ==> lock_post(pre, d, post, t))
                } else {
                    r is Ok && lock_post(pre, d, post, t)
                }
            } else {
                r is Ok && rejected(pre, post)
            }
        })
}

/// First entity standing on (x, y) that is not a target, if any.
fn find_non_target(s: &Vec<Object>, x: i32, y: i32) -> (r: Option<usize>)
    ensures
        match r {
            Some(k) => entity_at(s@, k as int, x as int, y as int) && !(s@[k as int].obj_type
                is Target),
            None => forall|k: int|
                #[trigger] entity_at(s@, k, x as int, y as int) ==> s@[k].obj_type is Target,
        },
{
    let mut idx: usize = 0;
    while idx < s.len()
        invariant
            idx <= s@.len(),
            forall|k: int|
                0 <= k < idx && #[trigger] entity_at(s@, k, x as int, y as int) ==> s@[k].obj_type
                    is Target,
        decreases s@.len() - idx,
    {
        let o = s[idx];
        let is_target = match o.obj_type {
            Category::Target(_) => true,
            _ => false,
        };
        if o.position.x == x && o.position.y == y && !is_target {
            return Some(idx);
        }
        idx = idx + 1;
    }
    None
}

/// Any entity standing on (x, y), if one does.
fn find_any(s: &Vec<Object>, x: i32, y: i32) -> (r: Option<usize>)
    ensures
        match r {
            Some(k) => entity_at(s@, k as int, x as int, y as int),
            None => !occupied(s@, x as int, y as int),
        },
{
    let mut idx: usize = 0;
    while idx < s.len()
        invariant
            idx <= s@.len(),
            forall|k: int| 0 <= k < idx ==> !#[trigger] entity_at(s@, k, x as int, y as int),
        decreases s@.len() - idx,
    {
        let o = s[idx];
        if o.position.x == x && o.position.y == y {
            return Some(idx);
        }
        idx = idx + 1;
    }
    None
}

impl Game {
    /// Resolve one directional intent from the given player position: walk,
    /// push, lock, or reject, exactly one of them, atomically.
    fn check(&mut self, position: &Position, direction: Direction) -> (r: Result<(), GenError>)
        requires
            old(self).wf(),
            *position == old(self).player.position,
            old(self).score.moves < i32::MAX,
            old(self).score.scored < i32::MAX,
        ensures
            final(self).wf(),
            config_same(*old(self), *final(self)),
            final(self).player.facing == old(self).player.facing,
            move_cases(*old(self), direction, *final(self), r),
    {
        let ghost pre = *old(self);
        let ghost s = old(self).special@;
        let dx: i32 = match direction {
            Direction::Left => -1,
            Direction::Right => 1,
            _ => 0,
        };
        let dy: i32 = match direction {
            Direction::Up => -1,
            Direction::Down => 1,
            _ => 0,
        };
        proof {
            assert(dx as int == dir_dx(direction));
            assert(dy as int == dir_dy(direction));
        }
        let nx = position.x + dx;
        let ny = position.y + dy;
        let ghost nxi = next_x(pre, direction);
        let ghost nyi = next_y(pre, direction);
        let ghost bxi = beyond_x(pre, direction);
        let ghost byi = beyond_y(pre, direction);
        match find_non_target(&self.special, nx, ny) {
            None => {
                proof {
                    if pre.on_perimeter(nxi, nyi) {
                        assert(wall_at(s, nxi, nyi));
                        let m = choose|m: int|
                            #[trigger] entity_at(s, m, nxi, nyi) && s[m].obj_type is Wall;
                        assert(s[m].obj_type is Target);
                    }
                    if exists|k2: int|
                        #[trigger] entity_at(s, k2, nxi, nyi) && s[k2].obj_type.is_blocking() {
                        let k2 = choose|k2: int|
                            #[trigger] entity_at(s, k2, nxi, nyi) && s[k2].obj_type.is_blocking();
                        assert(s[k2].obj_type is Target);
                    }
                    assert forall|t: u32| !#[trigger] crate_with_tag_at(s, nxi, nyi, t) by {
                        if crate_with_tag_at(s, nxi, nyi, t) {
                            let k2 = choose|k2: int|
                                #[trigger] entity_at(s, k2, nxi, nyi) && s[k2].obj_type
                                    == Category::Crate(t);
                            assert(s[k2].obj_type is Target);
                        }
                    }
                }
                self.player.position = Position { x: nx, y: ny };
                self.score.moves = self.score.moves + 1;
                Ok(())
            },
            Some(k) => {
                proof {
                    assert(entity_at(s, k as int, nxi, nyi));
                    assert(!passable(s, nxi, nyi));
                }
                let cat = self.special[k].obj_type;
                match cat {
                    Category::Crate(t) => {
                        proof {
                            assert forall|t2: u32|
                                #[trigger] crate_with_tag_at(s, nxi, nyi, t2) implies t2 == t by {
                                let k2 = choose|k2: int|
                                    #[trigger] entity_at(s, k2, nxi, nyi) && s[k2].obj_type
                                        == Category::Crate(t2);
                                lemma_unique_at(s, k as int, k2, nxi, nyi);
                            }
                            if exists|k2: int|
                                #[trigger] entity_at(s, k2, nxi, nyi)
                                    && s[k2].obj_type.is_blocking() {
                                let k2 = choose|k2: int|
                                    #[trigger] entity_at(s, k2, nxi, nyi)
                                        && s[k2].obj_type.is_blocking();
                                lemma_unique_at(s, k as int, k2, nxi, nyi);
                            }
                            assert(in_interior(s[k as int], pre.w(), pre.h()));
                            assert(crate_with_tag_at(s, nxi, nyi, t));
                        }
                        let bx = nx + dx;
                        let by = ny + dy;
                        match find_any(&self.special, bx, by) {
                            None => {
                                let moved = Object {
                                    obj_type: Category::Crate(t),
                                    position: Position { x: bx, y: by },
                                };
                                proof {
                                    if pre.on_perimeter(bxi, byi) {
                                        assert(wall_at(s, bxi, byi));
                                        let m = choose|m: int|
                                            #[trigger] entity_at(s, m, bxi, byi) && s[m].obj_type
                                                is Wall;
                                        assert(occupied(s, bxi, byi));
                                    }
                                    lemma_distinct_update(s, k as int, moved);
                                    lemma_walls_update(s, k as int, moved);
                                    lemma_count_update(s, k as int, moved, Category::Wall);
                                }
                                self.special.set(k, moved);
                                self.player.position = Position { x: nx, y: ny };
                                self.score.moves = self.score.moves + 1;
                                proof {
                                    assert(push_post(pre, direction, *self, t));
                                    assert forall|x: int, y: int|
                                        pre.on_perimeter(x, y) implies #[trigger] wall_at(
                                        self.special@,
                                        x,
                                        y,
                                    ) by {
                                        assert(wall_at(s, x, y));
                                    }
                                }
                                Ok(())
                            },
                            Some(j) => {
                                proof {
                                    assert(entity_at(s, j as int, bxi, byi));
                                    assert(occupied(s, bxi, byi));
                                    assert(nxi != bxi || nyi != byi);
                                    if k as int == j as int {
                                        assert(s[k as int].position.x == nxi && s[k as int].position.x
                                            == bxi);
                                    }
                                }
                                let jcat = self.special[j].obj_type;
                                if jcat == Category::Target(t) {
                                    let locked = Object {
                                        obj_type: Category::LockedCrate(t),
                                        position: Position { x: bx, y: by },
                                    };
                                    proof {
                                        lemma_count_target_pos(s, j as int);
                                        lemma_distinct_update_remove(s, k as int, j as int, locked);
                                        lemma_walls_update(s, k as int, locked);
                                        lemma_count_update(s, k as int, locked, Category::Wall);
                                    }
                                    let ghost s2 = s.update(k as int, locked);
                                    proof {
                                        lemma_walls_remove(s2, j as int);
                                        lemma_count_remove(s2, j as int, Category::Wall);
                                        s2.remove_ensures(j as int);
                                    }
                                    self.special.set(k, locked);
                                    self.special.remove(j);
                                    self.score.scored = self.score.scored + 1;
                                    self.score.moves = self.score.moves + 1;
                                    self.targets_left = self.targets_left - 1;
                                    self.player.position = Position { x: nx, y: ny };
                                    proof {
                                        let s3 = self.special@;
                                        assert(s3 == s2.remove(j as int));
                                        assert forall|m: int|
                                            0 <= m < s3.len() implies in_grid(
                                            #[trigger] s3[m],
                                            pre.w(),
                                            pre.h(),
                                        ) && !(s3[m].obj_type is Floor) && tag_ok(
                                            s3[m].obj_type,
                                            pre.num_tags,
                                        ) && (!(s3[m].obj_type is Wall) ==> in_interior(
                                            s3[m],
                                            pre.w(),
                                            pre.h(),
                                        )) by {
                                            let i = if m < j as int {
                                                m
                                            } else {
                                                m + 1
                                            };
                                            assert(s3[m] == s2[i]);
                                            if i == k as int {
                                                assert(in_interior(s[j as int], pre.w(), pre.h()));
                                            } else {
                                                assert(s2[i] == s[i]);
                                            }
                                        }
                                        assert forall|x: int, y: int|
                                            pre.on_perimeter(x, y) implies #[trigger] wall_at(
                                            s3,
                                            x,
                                            y,
                                        ) by {
                                            assert(wall_at(s, x, y));
                                            assert(wall_at(s2, x, y));
                                        }
                                        assert(lock_post(pre, direction, *self, t));
                                        assert(self.wf());
                                    }
                                    if self.targets_left == 0 {
                                        let ghost mid = *self;
                                        let res = self.gen_level();
                                        proof {
                                            if res is Ok {
                                                assert(regen_post(pre, direction, *self));
                                            } else {
                                                assert(*self == mid);
                                                assert(lock_post(pre, direction, *self, t));
                                            }
                                        }
                                        res
                                    } else {
                                        Ok(())
                                    }
                                } else {
                                    proof {
                                        assert forall|t2: u32|
                                            !#[trigger] target_with_tag_at(s, bxi, byi, t2)
                                                || t2 != t by {}
                                        if target_with_tag_at(s, bxi, byi, t) {
                                            let j2 = choose|j2: int|
                                                #[trigger] entity_at(s, j2, bxi, byi)
                                                    && s[j2].obj_type == Category::Target(t);
                                            lemma_unique_at(s, j as int, j2, bxi, byi);
                                        }
                                    }
                                    Ok(())
                                }
                            },
                        }
                    },
                    _ => {
                        proof {
                            assert forall|t: u32| !#[trigger] crate_with_tag_at(s, nxi, nyi, t) by {
                                if crate_with_tag_at(s, nxi, nyi, t) {
                                    let k2 = choose|k2: int|
                                        #[trigger] entity_at(s, k2, nxi, nyi) && s[k2].obj_type
                                            == Category::Crate(t);
                                    lemma_unique_at(s, k as int, k2, nxi, nyi);
                                }
                            }
                        }
                        Ok(())
                    },
                }
            },
        }
    }

    /// Apply one directional intent: the player turns to face it whatever
    /// happens; the move itself is resolved all-or-nothing by the movement
    /// engine, and a lock that empties the level regenerates it.
    pub fn move_player(&mut self, key: Direction) -> (r: Result<(), GenError>)
        requires
            old(self).wf(),
            old(self).score.moves < i32::MAX,
            old(self).score.scored < i32::MAX,
        ensures
            final(self).wf(),
            final(self).player.facing == key,
            config_same(*old(self), *final(self)),
            move_cases(*old(self), key, *final(self), r),
    {
        let pos = self.player.position;
        let r = self.check(&pos, key);
        self.player.facing = key;
        r
    }
}

} // verus!
