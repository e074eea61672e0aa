use rust_seitai::game::Game;
use rust_seitai::living::grass::{Grass, FIELD_WIDTH, NEW_GRASS_HP};
use rust_seitai::world::world::{new_painted_cells, World, INITIAL_GRASS, PLANT_MAX, PLANT_MIN};
use std::time::Instant;

#[test]
fn update_livings_ages_every_living_once() {
    let mut w: World<Grass> = World::new();
    let a = w.new_living(Grass::new(100, (-3, 5)));
    let b = w.new_living(Grass::new(50, (900, 5)));
    let unlisted = w.new_living(Grass::new(70, (-3, 5)));
    w.add_living(a);
    w.add_living(b);
    w.flush_modify_livings();
    w.update_livings(10);
    assert_eq!(w.objects[a].hp, 90);
    assert_eq!(w.objects[a].pos, (0, 5));
    assert_eq!(w.objects[b].hp, 40);
    assert_eq!(w.objects[b].pos, (FIELD_WIDTH, 5));
    assert_eq!(w.objects[unlisted], Grass::new(70, (-3, 5)));
    assert_eq!(w.livings, vec![a, b]);
    let spawned: Vec<usize> = (3..w.objects.len()).collect();
    assert_eq!(w.to_be_added, spawned);
    for h in spawned {
        assert_eq!(w.objects[h].hp, NEW_GRASS_HP);
        assert_eq!(w.objects[h].id, 0);
    }
}

#[test]
fn can_update_livings_detects_overflow() {
    let mut w: World<Grass> = World::new();
    let a = w.new_living(Grass::new(i64::MIN + 5, (0, 0)));
    w.add_living(a);
    w.flush_modify_livings();
    assert!(w.can_update_livings(5));
    assert!(!w.can_update_livings(6));
}

#[test]
fn can_update_livings_counts_a_living_listed_twice() {
    let mut w: World<Grass> = World::new();
    let a = w.new_living(Grass::new(i64::MIN + 5, (0, 0)));
    w.add_living(a);
    w.add_living(a);
    w.flush_modify_livings();
    assert!(w.can_update_livings(2));
    assert!(!w.can_update_livings(3));
}

#[test]
fn livings_on_field_checks_every_position() {
    let mut w: World<Grass> = World::new();
    let a = w.new_living(Grass::new(1, (0, 480)));
    w.add_living(a);
    w.flush_modify_livings();
    assert!(w.livings_on_field());
    let b = w.new_living(Grass::new(1, (641, 0)));
    w.add_living(b);
    w.flush_modify_livings();
    assert!(!w.livings_on_field());
}

#[test]
fn draw_livings_reports_pictures_to_paint_in_order() {
    let mut w: World<Grass> = World::new();
    let a = w.new_living(Grass::new(1, (1, 1)));
    let b = w.new_living(Grass::new(1, (1, 1)));
    let c = w.new_living(Grass::new(1, (5, 5)));
    w.add_living(a);
    w.add_living(b);
    w.add_living(c);
    w.flush_modify_livings();
    let mut cells = new_painted_cells(10, 10);
    let to_paint = w.draw_livings_on_field(&mut cells, (2, 2));
    assert_eq!(to_paint, vec![a, c]);
    assert_eq!(cells[2][2], 1);
    assert_eq!(cells[6][6], 1);
    assert_eq!(cells[0][0], 0);
    let mut cells2 = new_painted_cells(10, 10);
    assert_eq!(w.draw_livings(&mut cells2, (2, 2)), vec![a, c]);
    assert_eq!(cells2, cells);
}

#[test]
fn plant_grass_scatters_new_tufts() {
    let mut w: World<Grass> = World::new();
    w.plant_grass(INITIAL_GRASS);
    assert_eq!(w.objects.len(), INITIAL_GRASS);
    assert_eq!(w.to_be_added, (0..INITIAL_GRASS).collect::<Vec<usize>>());
    for g in &w.objects {
        assert_eq!(g.hp, NEW_GRASS_HP);
        assert_eq!(g.id, 0);
        assert!(PLANT_MIN <= g.pos.0 && g.pos.0 < PLANT_MAX);
        assert!(PLANT_MIN <= g.pos.1 && g.pos.1 < PLANT_MAX);
    }
    w.flush_modify_livings();
    assert_eq!(w.livings.len(), INITIAL_GRASS);
}

#[test]
fn plant_grass_draws_varied_positions() {
    let mut w: World<Grass> = World::new();
    w.plant_grass(200);
    let first = w.objects[0].pos;
    assert!(w.objects.iter().any(|g| g.pos != first));
}

#[test]
fn new_game_starts_at_time_zero() {
    let g = Game::new();
    assert_eq!(g.time, 0);
    assert!(g.world.livings.is_empty());
    assert!(g.lib_pict.is_empty());
}

#[test]
fn advance_time_adds() {
    let mut g = Game::new();
    g.advance_time(40);
    g.advance_time(2);
    assert_eq!(g.time, 42);
}

#[test]
fn tick_adds_the_elapsed_milliseconds() {
    let mut g = Game::new();
    let start = Instant::now();
    while start.elapsed().as_millis() < 3 {}
    let d = g.tick();
    assert!(matches!(d, Some(ms) if ms >= 3));
    assert_eq!(g.time, d.unwrap());
    let d2 = g.tick().unwrap();
    assert_eq!(g.time, d.unwrap() + d2);
}

#[test]
fn tick_refuses_to_overflow() {
    let mut g = Game::new();
    g.time = u128::MAX;
    let start = Instant::now();
    while start.elapsed().as_millis() < 2 {}
    assert_eq!(g.tick(), None);
    assert_eq!(g.time, u128::MAX);
}

#[test]
fn one_frame_of_the_simulation() {
    let mut g = Game::new();
    g.world.plant_grass(INITIAL_GRASS);
    g.world.flush_modify_livings();
    assert!(g.world.can_update_livings(20000));
    g.world.update_livings(20000);
    assert!(g.world.livings_on_field());
    let mut cells = new_painted_cells(640, 480);
    let _ = g.world.draw_livings_on_field(&mut cells, (16, 16));
    g.world.remove_dead();
    g.world.flush_modify_livings();
    // Every tuft started with NEW_GRASS_HP and lost 20000: all are gone; only
    // offspring (queued, then taken in) may be left.
    for h in &g.world.livings {
        assert_eq!(g.world.objects[*h].hp, NEW_GRASS_HP);
    }
}

#[test]
fn update_livings_with_draws_spawns_exactly_on_zero_rolls() {
    let mut w: World<Grass> = World::new();
    let a = w.new_living(Grass::new(100, (10, 10)));
    let b = w.new_living(Grass::new(100, (700, 20)));
    w.add_living(a);
    w.add_living(b);
    w.flush_modify_livings();
    w.update_livings_with_draws(5, &vec![(7, 0, 0), (0, -3, 4)]);
    assert_eq!(w.objects.len(), 3);
    assert_eq!(w.objects[2], Grass { hp: NEW_GRASS_HP, pos: (FIELD_WIDTH - 3, 24), id: 0 });
    assert_eq!(w.to_be_added, vec![2]);
    assert_eq!(w.objects[a].hp, 95);
    assert_eq!(w.objects[b].pos, (FIELD_WIDTH, 20));
}

#[test]
fn plant_grass_at_plants_at_the_given_positions() {
    let mut w: World<Grass> = World::new();
    w.plant_grass_at(&vec![(3, 4), (5, 6)]);
    assert_eq!(w.objects, vec![Grass::new(NEW_GRASS_HP, (3, 4)), Grass::new(NEW_GRASS_HP, (5, 6))]);
    assert_eq!(w.to_be_added, vec![0, 1]);
    assert!(w.livings.is_empty());
}

#[test]
fn advance_by_refuses_overflow() {
    let mut g = Game::new();
    assert_eq!(g.advance_by(7), Some(7));
    assert_eq!(g.time, 7);
    assert_eq!(g.advance_by(u128::MAX), None);
    assert_eq!(g.time, 7);
    assert_eq!(g.advance_by(u128::MAX - 7), Some(u128::MAX - 7));
    assert_eq!(g.time, u128::MAX);
}

#[test]
fn restart_clock_records_the_new_reading() {
    let mut g = Game::new();
    let now = Instant::now();
    assert_eq!(g.restart_clock(12, now), Some(12));
    assert_eq!(g.time, 12);
    assert_eq!(g.last_time, now);
    let later = Instant::now();
    assert_eq!(g.restart_clock(u128::MAX, later), None);
    assert_eq!(g.time, 12);
    assert_eq!(g.last_time, now);
}

#[test]
fn tick_restarts_the_clock() {
    let mut g = Game::new();
    let first = g.last_time;
    let start = Instant::now();
    while start.elapsed().as_millis() < 2 {}
    g.tick().unwrap();
    assert!(g.last_time > first);
    assert!(g.last_time >= start);
}

#[test]
fn frame_with_draws_runs_update_draw_and_removal() {
    let mut w: World<Grass> = World::new();
    let a = w.new_living(Grass::new(10, (1, 1)));
    let b = w.new_living(Grass::new(100, (5, 5)));
    let c = w.new_living(Grass::new(100, (8, 8)));
    w.add_living(a);
    w.add_living(b);
    w.add_living(c);
    w.flush_modify_livings();
    let mut cells = new_painted_cells(20, 20);
    let (to_paint, ignored) = w.frame_with_draws(20, &vec![(3, 0, 0), (0, 2, -1), (9, 0, 0)], &mut cells, (2, 2));
    assert_eq!(to_paint, vec![a, b, c]);
    assert!(ignored.is_empty());
    assert_eq!(w.objects[3], Grass { hp: NEW_GRASS_HP, pos: (7, 4), id: 0 });
    assert_eq!(w.livings, vec![3, b, c]);
    assert_eq!(w.objects[b].id, 1);
    assert_eq!(w.objects[c].id, 2);
    assert!(w.to_be_added.is_empty() && w.to_be_removed.is_empty());
    assert_eq!(cells[2][2], 1);
    assert_eq!(cells[6][6], 1);
}

#[test]
fn frame_keeps_ids_in_agreement() {
    let mut w: World<Grass> = World::new();
    w.plant_grass(INITIAL_GRASS);
    w.flush_modify_livings();
    for _ in 0..50 {
        assert!(w.can_update_livings(300));
        let mut cells = new_painted_cells(640, 480);
        w.frame(300, &mut cells, (16, 16));
        assert_eq!(w.next_id, w.livings.len());
        for (i, h) in w.livings.iter().enumerate() {
            assert_eq!(w.objects[*h].id, i);
            assert!(w.objects[*h].hp > 0);
        }
    }
}
