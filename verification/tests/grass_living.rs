use rust_seitai::living::grass::{Grass, FIELD_HEIGHT, FIELD_WIDTH, NEW_GRASS_HP, SPAWN_RADIUS};
use rust_seitai::living::living::Living;
use rust_seitai::world::world::new_painted_cells;

#[test]
fn new_grass_has_id_zero() {
    let g = Grass::new(42, (3, -4));
    assert_eq!(g, Grass { hp: 42, pos: (3, -4), id: 0 });
}

#[test]
fn getters_and_setters() {
    let mut g = Grass::new(42, (3, 4));
    g.set_hp(7);
    g.set_pos((8, 9));
    g.set_id(11);
    assert_eq!(g.get_hp(), 7);
    assert_eq!(g.get_pos(), (8, 9));
    assert_eq!(g.get_id(), 11);
}

#[test]
fn is_dead_exactly_when_no_hit_points_are_left() {
    assert!(Grass::new(0, (0, 0)).is_dead());
    assert!(Grass::new(-1, (0, 0)).is_dead());
    assert!(!Grass::new(1, (0, 0)).is_dead());
}

#[test]
fn update_withers_and_keeps_on_field() {
    let mut g = Grass { hp: 100, pos: (-5, 1000), id: 3 };
    let child = g.update(30);
    assert_eq!(g.hp, 70);
    assert_eq!(g.pos, (0, FIELD_HEIGHT));
    assert_eq!(g.id, 3);
    if let Some(c) = child {
        assert_eq!(c.hp, NEW_GRASS_HP);
        assert_eq!(c.id, 0);
        assert!(-SPAWN_RADIUS <= c.pos.0 && c.pos.0 < SPAWN_RADIUS);
        assert!(FIELD_HEIGHT - SPAWN_RADIUS <= c.pos.1 && c.pos.1 < FIELD_HEIGHT + SPAWN_RADIUS);
    }
}

#[test]
fn update_clamps_the_other_edges() {
    let mut g = Grass { hp: 10, pos: (700, -1), id: 0 };
    g.update(0);
    assert_eq!(g.pos, (FIELD_WIDTH, 0));
    let mut h = Grass { hp: 10, pos: (320, 240), id: 0 };
    h.update(0);
    assert_eq!(h.pos, (320, 240));
}

#[test]
fn update_takes_the_time_step_modulo_two_to_the_64() {
    let mut g = Grass::new(100, (1, 1));
    g.update((1u128 << 64) + 5);
    assert_eq!(g.hp, 95);
}

#[test]
fn updates_spawn_now_and_then_near_the_parent() {
    let mut spawned = 0;
    let mut kept = 0;
    for _ in 0..5000 {
        let mut g = Grass::new(i64::MAX, (100, 100));
        match g.update(1) {
            Some(c) => {
                spawned += 1;
                assert_eq!(c.hp, NEW_GRASS_HP);
                assert!(70 <= c.pos.0 && c.pos.0 < 130);
                assert!(70 <= c.pos.1 && c.pos.1 < 130);
            }
            None => kept += 1,
        }
    }
    assert!(spawned > 0);
    assert!(kept > spawned);
}

#[test]
fn offspring_is_at_the_offset() {
    let g = Grass { hp: 3, pos: (10, 20), id: 5 };
    assert_eq!(g.offspring(-30, 29), Grass { hp: NEW_GRASS_HP, pos: (-20, 49), id: 0 });
}

#[test]
fn painted_cells_start_unpainted() {
    let cells = new_painted_cells(3, 2);
    assert_eq!(cells, vec![vec![0u8, 0], vec![0, 0], vec![0, 0]]);
    assert!(new_painted_cells(0, 5).is_empty());
    assert!(new_painted_cells(-2, -5).is_empty());
}

#[test]
fn draw_marks_the_covered_rectangle() {
    let mut cells = new_painted_cells(6, 5);
    let g = Grass::new(1, (1, 2));
    assert!(g.draw(&mut cells, (2, 1)));
    for x in 0..6 {
        for y in 0..5 {
            let inside = (1..=3).contains(&x) && (2..=3).contains(&y);
            assert_eq!(cells[x][y], if inside { 1 } else { 0 }, "cell {} {}", x, y);
        }
    }
}

#[test]
fn draw_clamps_the_rectangle_to_the_grid() {
    let mut cells = new_painted_cells(4, 4);
    let g = Grass::new(1, (2, 2));
    assert!(g.draw(&mut cells, (10, 10)));
    for x in 0..4 {
        for y in 0..4 {
            assert_eq!(cells[x][y], if x >= 2 && y >= 2 { 1 } else { 0 });
        }
    }
}

#[test]
fn draw_skips_a_picture_already_covered() {
    let mut cells = new_painted_cells(6, 6);
    let g = Grass::new(1, (1, 1));
    assert!(g.draw(&mut cells, (3, 3)));
    let before = cells.clone();
    assert!(!g.draw(&mut cells, (3, 3)));
    assert_eq!(cells, before);
}

#[test]
fn draw_skips_a_picture_off_the_grid() {
    let mut cells = new_painted_cells(4, 4);
    let g = Grass::new(1, (5, 1));
    assert!(!g.draw(&mut cells, (2, 2)));
    assert_eq!(cells, new_painted_cells(4, 4));
    let mut empty: Vec<Vec<u8>> = Vec::new();
    assert!(!g.draw(&mut empty, (2, 2)));
    let mut no_columns: Vec<Vec<u8>> = vec![Vec::new()];
    assert!(!g.draw(&mut no_columns, (2, 2)));
}

#[test]
fn draw_from_left_of_the_grid_paints_without_marking() {
    let mut cells = new_painted_cells(4, 4);
    let g = Grass::new(1, (-1, 0));
    assert!(g.draw(&mut cells, (3, 3)));
    assert_eq!(cells, new_painted_cells(4, 4));
}

#[test]
fn draw_only_paints() {
    let mut cells = new_painted_cells(8, 8);
    cells[0][0] = 1;
    cells[7][7] = 1;
    let g = Grass::new(1, (2, 2));
    g.draw(&mut cells, (3, 3));
    assert_eq!(cells[0][0], 1);
    assert_eq!(cells[7][7], 1);
    assert_eq!(cells[3][3], 1);
}

#[test]
fn update_with_a_roll_other_than_zero_spawns_nothing() {
    let mut g = Grass::new(100, (-5, 700));
    let child = g.update_with_draws(30, (50, 3, 4));
    assert_eq!(child, None);
    assert_eq!(g, Grass { hp: 70, pos: (0, FIELD_HEIGHT), id: 0 });
}

#[test]
fn update_with_a_roll_of_zero_spawns_at_the_offset() {
    let mut g = Grass { hp: 100, pos: (700, 10), id: 4 };
    let child = g.update_with_draws(1, (0, -30, 29));
    assert_eq!(g, Grass { hp: 99, pos: (FIELD_WIDTH, 10), id: 4 });
    assert_eq!(child, Some(Grass { hp: NEW_GRASS_HP, pos: (FIELD_WIDTH - 30, 39), id: 0 }));
}

#[test]
fn random_draws_lie_in_range() {
    let mut zero_rolls = 0;
    for _ in 0..3000 {
        let (r, dx, dy) = Grass::random_draw();
        assert!(0 <= r && r < 100);
        assert!(-SPAWN_RADIUS <= dx && dx < SPAWN_RADIUS);
        assert!(-SPAWN_RADIUS <= dy && dy < SPAWN_RADIUS);
        if r == 0 {
            zero_rolls += 1;
        } else {
            assert_eq!((dx, dy), (0, 0));
        }
    }
    assert!(zero_rolls > 0 && zero_rolls < 300);
}

#[test]
fn drawing_twice_changes_nothing_the_second_time() {
    let mut cells = new_painted_cells(10, 10);
    let g = Grass::new(1, (2, 3));
    assert!(g.draw(&mut cells, (4, 4)));
    let after_first = cells.clone();
    assert!(!g.draw(&mut cells, (4, 4)));
    assert_eq!(cells, after_first);
}
