use sokoban::entity::{Category, Object};
use sokoban::game::{Direction, Game, GenError};
use sokoban::position::Position;

fn walled_game() -> Game {
    let mut g = Game::new((15, 10), 2);
    let mut special: Vec<Object> = Vec::new();
    for x in 0..15i32 {
        for y in 0..10i32 {
            if x == 0 || x == 14 || y == 0 || y == 9 {
                special.push(Object {
                    obj_type: Category::Wall,
                    position: Position { x, y },
                });
            }
        }
    }
    g.special = special;
    g
}

fn push_entity(g: &mut Game, cat: Category, x: i32, y: i32) {
    g.special.push(Object {
        obj_type: cat,
        position: Position { x, y },
    });
    if let Category::Target(_) = cat {
        g.targets_left += 1;
    }
}

fn entities_at(g: &Game, x: i32, y: i32) -> Vec<Category> {
    g.special
        .iter()
        .filter(|o| o.position.x == x && o.position.y == y)
        .map(|o| o.obj_type)
        .collect()
}

#[test]
fn passable_move_steps_and_counts() {
    let mut g = walled_game();
    let r = g.move_player(Direction::Right);
    assert_eq!(r, Ok(()));
    assert_eq!(g.player.position, Position { x: 2, y: 3 });
    assert_eq!(g.player.facing, Direction::Right);
    assert_eq!(g.score.moves, 1);
    assert_eq!(g.score.scored, 0);
    assert_eq!(g.targets_left, 0);
}

#[test]
fn passable_move_changes_only_player() {
    let mut g = walled_game();
    push_entity(&mut g, Category::Crate(0), 5, 5);
    let before: Vec<(Category, i32, i32)> = g
        .special
        .iter()
        .map(|o| (o.obj_type, o.position.x, o.position.y))
        .collect();
    let r = g.move_player(Direction::Down);
    assert_eq!(r, Ok(()));
    let after: Vec<(Category, i32, i32)> = g
        .special
        .iter()
        .map(|o| (o.obj_type, o.position.x, o.position.y))
        .collect();
    assert_eq!(before, after);
    assert_eq!(g.player.position, Position { x: 1, y: 4 });
    assert_eq!(g.score.moves, 1);
}

#[test]
fn wall_blocks_and_nothing_changes() {
    let mut g = walled_game();
    // player at (1, 3), wall at (0, 3)
    let r = g.move_player(Direction::Left);
    assert_eq!(r, Ok(()));
    assert_eq!(g.player.position, Position { x: 1, y: 3 });
    assert_eq!(g.player.facing, Direction::Left);
    assert_eq!(g.score.moves, 0);
    assert_eq!(g.score.scored, 0);
}

#[test]
fn push_into_empty_cell() {
    let mut g = walled_game();
    push_entity(&mut g, Category::Crate(0), 2, 3);
    let r = g.move_player(Direction::Right);
    assert_eq!(r, Ok(()));
    assert_eq!(g.player.position, Position { x: 2, y: 3 });
    assert_eq!(entities_at(&g, 2, 3), vec![]);
    assert_eq!(entities_at(&g, 3, 3), vec![Category::Crate(0)]);
    assert_eq!(g.score.moves, 1);
    assert_eq!(g.score.scored, 0);
}

#[test]
fn push_against_wall_rejected() {
    let mut g = walled_game();
    // crate right next to the east wall, player right behind it
    push_entity(&mut g, Category::Crate(0), 13, 3);
    g.player.position = Position { x: 12, y: 3 };
    let r = g.move_player(Direction::Right);
    assert_eq!(r, Ok(()));
    assert_eq!(g.player.position, Position { x: 12, y: 3 });
    assert_eq!(entities_at(&g, 13, 3), vec![Category::Crate(0)]);
    assert_eq!(g.score.moves, 0);
}

#[test]
fn push_against_crate_rejected() {
    let mut g = walled_game();
    push_entity(&mut g, Category::Crate(0), 2, 3);
    push_entity(&mut g, Category::Crate(1), 3, 3);
    let r = g.move_player(Direction::Right);
    assert_eq!(r, Ok(()));
    assert_eq!(g.player.position, Position { x: 1, y: 3 });
    assert_eq!(entities_at(&g, 2, 3), vec![Category::Crate(0)]);
    assert_eq!(entities_at(&g, 3, 3), vec![Category::Crate(1)]);
    assert_eq!(g.score.moves, 0);
}

#[test]
fn lock_on_matching_target() {
    // grid 15x10, player (1,3) facing Right, Crate(tag 0) at (2,3),
    // Target(tag 0) at (3,3), (4,3) empty; a second target elsewhere so the
    // level is not finished by this lock.
    let mut g = walled_game();
    push_entity(&mut g, Category::Crate(0), 2, 3);
    push_entity(&mut g, Category::Target(0), 3, 3);
    push_entity(&mut g, Category::Target(1), 10, 5);
    assert_eq!(g.targets_left, 2);
    let scored_before = g.score.scored;
    let r = g.move_player(Direction::Right);
    assert_eq!(r, Ok(()));
    assert_eq!(g.player.position, Position { x: 2, y: 3 });
    assert_eq!(entities_at(&g, 3, 3), vec![Category::LockedCrate(0)]);
    assert_eq!(g.score.scored, scored_before + 1);
    assert_eq!(g.score.moves, 1);
    assert_eq!(g.targets_left, 1);
}

#[test]
fn lock_removes_exactly_one_target() {
    let mut g = walled_game();
    push_entity(&mut g, Category::Crate(0), 2, 3);
    push_entity(&mut g, Category::Target(0), 3, 3);
    push_entity(&mut g, Category::Target(1), 10, 5);
    let specials_before = g.special.len();
    let targets_before = g
        .special
        .iter()
        .filter(|o| matches!(o.obj_type, Category::Target(_)))
        .count();
    g.move_player(Direction::Right).unwrap();
    // one target gone, no other entity appeared or vanished
    assert_eq!(g.special.len(), specials_before - 1);
    let targets_after = g
        .special
        .iter()
        .filter(|o| matches!(o.obj_type, Category::Target(_)))
        .count();
    assert_eq!(targets_after, targets_before - 1);
    let locked = g
        .special
        .iter()
        .filter(|o| matches!(o.obj_type, Category::LockedCrate(_)))
        .count();
    assert_eq!(locked, 1);
}

#[test]
fn wall_beyond_target_setup_rejected() {
    // same setup as the lock scenario but a wall at (3,3): fully rejected
    let mut g = walled_game();
    push_entity(&mut g, Category::Crate(0), 2, 3);
    push_entity(&mut g, Category::Wall, 3, 3);
    let r = g.move_player(Direction::Right);
    assert_eq!(r, Ok(()));
    assert_eq!(g.player.position, Position { x: 1, y: 3 });
    assert_eq!(entities_at(&g, 2, 3), vec![Category::Crate(0)]);
    assert_eq!(entities_at(&g, 3, 3), vec![Category::Wall]);
    assert_eq!(g.score.moves, 0);
    assert_eq!(g.score.scored, 0);
}

#[test]
fn mismatched_tag_rejected() {
    // Crate(tag 0) at (2,3), Target(tag 1) at (3,3): tag mismatch, no move
    let mut g = walled_game();
    push_entity(&mut g, Category::Crate(0), 2, 3);
    push_entity(&mut g, Category::Target(1), 3, 3);
    let r = g.move_player(Direction::Right);
    assert_eq!(r, Ok(()));
    assert_eq!(g.player.position, Position { x: 1, y: 3 });
    assert_eq!(entities_at(&g, 2, 3), vec![Category::Crate(0)]);
    assert_eq!(entities_at(&g, 3, 3), vec![Category::Target(1)]);
    assert_eq!(g.score.moves, 0);
    assert_eq!(g.score.scored, 0);
}

#[test]
fn locked_crate_blocks() {
    let mut g = walled_game();
    push_entity(&mut g, Category::LockedCrate(0), 2, 3);
    let r = g.move_player(Direction::Right);
    assert_eq!(r, Ok(()));
    assert_eq!(g.player.position, Position { x: 1, y: 3 });
    assert_eq!(g.score.moves, 0);
}

#[test]
fn player_walks_onto_bare_target() {
    let mut g = walled_game();
    push_entity(&mut g, Category::Target(0), 2, 3);
    let r = g.move_player(Direction::Right);
    assert_eq!(r, Ok(()));
    assert_eq!(g.player.position, Position { x: 2, y: 3 });
    assert_eq!(g.score.moves, 1);
    // the target is still there
    assert_eq!(entities_at(&g, 2, 3), vec![Category::Target(0)]);
    assert_eq!(g.targets_left, 1);
}

#[test]
fn last_lock_triggers_one_regeneration() {
    let mut g = walled_game();
    push_entity(&mut g, Category::Crate(0), 2, 3);
    push_entity(&mut g, Category::Target(0), 3, 3);
    assert_eq!(g.targets_left, 1);
    let r = g.move_player(Direction::Right);
    assert_eq!(r, Ok(()));
    // the level was replaced: fresh targets, counters carried over
    assert!(g.targets_left >= 3 && g.targets_left <= 8);
    assert_eq!(g.score.scored, 1);
    assert_eq!(g.score.moves, 1);
    assert_eq!(g.player.position, Position { x: 2, y: 3 });
    // the regenerated level satisfies the per-tag equality again
    for t in 0..g.num_tags {
        let crates = g
            .special
            .iter()
            .filter(|o| o.obj_type == Category::Crate(t))
            .count();
        let targets = g
            .special
            .iter()
            .filter(|o| o.obj_type == Category::Target(t))
            .count();
        assert_eq!(crates, targets);
    }
    let target_total = g
        .special
        .iter()
        .filter(|o| matches!(o.obj_type, Category::Target(_)))
        .count();
    assert_eq!(target_total as i32, g.targets_left);
}

#[test]
fn generation_failure_reported_on_tiny_grid() {
    let mut g = Game::new((5, 5), 1);
    let r = g.gen_level();
    assert_eq!(r, Err(GenError::OutOfSpace));
    // nothing was changed by the failed attempt
    assert_eq!(g.special.len(), 0);
    assert_eq!(g.floor.len(), 0);
    assert_eq!(g.targets_left, 0);
}

#[test]
fn walking_a_corridor_counts_every_step() {
    let mut g = walled_game();
    for _ in 0..5 {
        g.move_player(Direction::Right).unwrap();
    }
    assert_eq!(g.player.position, Position { x: 6, y: 3 });
    assert_eq!(g.score.moves, 5);
    // bump into the east wall over and over: nothing more is counted
    for _ in 0..10 {
        g.move_player(Direction::Right).unwrap();
    }
    assert_eq!(g.player.position, Position { x: 13, y: 3 });
    assert_eq!(g.score.moves, 12);
}

#[test]
fn object_new_builds_the_entity() {
    let o = sokoban::entity::Object::new(Position { x: 4, y: 5 }, Category::Crate(2));
    assert_eq!(o.position, Position { x: 4, y: 5 });
    assert_eq!(o.obj_type, Category::Crate(2));
}
