use sokoban::entity::{Category, Object};
use sokoban::game::Game;

fn crate_count(g: &Game, t: u32) -> usize {
    g.special
        .iter()
        .filter(|o| o.obj_type == Category::Crate(t))
        .count()
}

fn target_count(g: &Game, t: u32) -> usize {
    g.special
        .iter()
        .filter(|o| o.obj_type == Category::Target(t))
        .count()
}

fn generated() -> Game {
    let mut g = Game::new((15, 10), 3);
    g.gen_level().unwrap();
    g
}

#[test]
fn per_tag_counts_match() {
    for _ in 0..20 {
        let g = generated();
        for t in 0..g.num_tags {
            assert_eq!(crate_count(&g, t), target_count(&g, t));
        }
    }
}

#[test]
fn no_two_specials_share_a_position() {
    for _ in 0..20 {
        let g = generated();
        for (i, a) in g.special.iter().enumerate() {
            for b in g.special.iter().skip(i + 1) {
                assert!(a.position != b.position);
            }
        }
    }
}

#[test]
fn every_perimeter_cell_is_walled() {
    let g = generated();
    let at = |x: i32, y: i32| -> Vec<&Object> {
        g.special
            .iter()
            .filter(|o| o.position.x == x && o.position.y == y)
            .collect()
    };
    for x in 0..15i32 {
        for y in 0..10i32 {
            if x == 0 || x == 14 || y == 0 || y == 9 {
                let here = at(x, y);
                assert_eq!(here.len(), 1);
                assert_eq!(here[0].obj_type, Category::Wall);
            }
        }
    }
}

#[test]
fn crates_and_targets_stay_off_the_walls() {
    let g = generated();
    for o in g.special.iter() {
        match o.obj_type {
            Category::Wall => {}
            _ => {
                assert!(o.position.x >= 1 && o.position.x <= 13);
                assert!(o.position.y >= 1 && o.position.y <= 8);
            }
        }
    }
}

#[test]
fn targets_left_counts_targets() {
    for _ in 0..10 {
        let g = generated();
        let targets = g
            .special
            .iter()
            .filter(|o| matches!(o.obj_type, Category::Target(_)))
            .count();
        assert_eq!(targets as i32, g.targets_left);
        assert!(g.targets_left >= 3 && g.targets_left <= 8);
    }
}

#[test]
fn generation_keeps_player_and_score() {
    let mut g = Game::new((15, 10), 2);
    g.gen_level().unwrap();
    assert_eq!(g.player.position.get_x(), 1);
    assert_eq!(g.player.position.get_y(), 3);
    assert_eq!(g.score.moves, 0);
    assert_eq!(g.score.scored, 0);
}

#[test]
fn floor_tiles_fill_the_interior() {
    let g = generated();
    for o in g.floor.iter() {
        assert!(o.obj_type == Category::Floor);
        assert!(o.position.x >= 1 && o.position.x <= 13);
        assert!(o.position.y >= 1 && o.position.y <= 8);
    }
    // one floor tile for each interior cell
    assert_eq!(g.floor.len(), 13 * 8);
}

#[test]
fn single_tag_gets_whole_quota() {
    let mut g = Game::new((15, 10), 1);
    g.gen_level().unwrap();
    let crates = crate_count(&g, 0);
    assert_eq!(crates, target_count(&g, 0));
    assert!((3..=8).contains(&crates));
}

#[test]
fn largest_grid_generates() {
    let mut g = Game::new((48, 48), 8);
    assert!(g.gen_level().is_ok());
    for t in 0..g.num_tags {
        assert_eq!(crate_count(&g, t), target_count(&g, t));
    }
    assert!(g.targets_left >= 3 && g.targets_left <= 8);
}

#[test]
fn regenerating_replaces_the_level_wholesale() {
    let mut g = Game::new((15, 10), 2);
    g.gen_level().unwrap();
    let walls_before = g
        .special
        .iter()
        .filter(|o| o.obj_type == Category::Wall)
        .count();
    g.gen_level().unwrap();
    // still a complete, consistent level with the same wall ring
    for t in 0..g.num_tags {
        assert_eq!(crate_count(&g, t), target_count(&g, t));
    }
    let walls_after = g
        .special
        .iter()
        .filter(|o| o.obj_type == Category::Wall)
        .count();
    assert_eq!(walls_before, walls_after);
    assert_eq!(walls_after, 2 * 15 + 2 * 8);
}
