use rust_seitai::living::grass::Grass;
use rust_seitai::living::living::Living;
use rust_seitai::world::world::World;

fn world_of(hps: &[i64]) -> (World<Grass>, Vec<usize>) {
    let mut w: World<Grass> = World::new();
    let mut hs = Vec::new();
    for (i, hp) in hps.iter().enumerate() {
        let h = w.new_living(Grass::new(*hp, (i as i64, i as i64)));
        w.add_living(h);
        hs.push(h);
    }
    w.flush_modify_livings();
    (w, hs)
}

fn assert_consistent(w: &World<Grass>) {
    assert_eq!(w.next_id, w.livings.len());
    for (i, h) in w.livings.iter().enumerate() {
        assert_eq!(w.objects[*h].get_id(), i);
    }
}

#[test]
fn new_world_is_empty() {
    let w: World<Grass> = World::new();
    assert!(w.livings.is_empty());
    assert_eq!(w.next_id, 0);
    assert!(w.to_be_added.is_empty());
    assert!(w.to_be_removed.is_empty());
    assert!(w.chunks.is_empty());
    assert!(w.objects.is_empty());
}

#[test]
fn queued_additions_wait_for_flush() {
    let mut w: World<Grass> = World::new();
    let h = w.new_living(Grass::new(10, (3, 4)));
    w.add_living(h);
    assert!(w.livings.is_empty());
    assert_eq!(w.to_be_added, vec![h]);
    w.flush_modify_livings();
    assert_eq!(w.livings, vec![h]);
    assert!(w.to_be_added.is_empty());
}

#[test]
fn flush_assigns_ids_in_queue_order() {
    let (w, hs) = world_of(&[5, 6, 7]);
    assert_eq!(w.livings, hs);
    assert_eq!(w.next_id, 3);
    assert_eq!(w.objects[hs[0]].id, 0);
    assert_eq!(w.objects[hs[1]].id, 1);
    assert_eq!(w.objects[hs[2]].id, 2);
}

#[test]
fn removing_a_middle_living_moves_the_last_into_its_place() {
    let (mut w, hs) = world_of(&[5, 6, 7, 8]);
    w.remove_living(hs[1]);
    w.flush_modify_livings();
    assert_eq!(w.livings, vec![hs[0], hs[3], hs[2]]);
    assert_eq!(w.objects[hs[3]].id, 1);
    assert_eq!(w.next_id, 3);
    assert_consistent(&w);
}

#[test]
fn removing_the_last_living_pops_it() {
    let (mut w, hs) = world_of(&[5, 6, 7]);
    w.remove_living(hs[2]);
    w.flush_modify_livings();
    assert_eq!(w.livings, vec![hs[0], hs[1]]);
    assert_eq!(w.next_id, 2);
    assert_consistent(&w);
}

#[test]
fn removing_the_only_living_clears_the_world() {
    let (mut w, hs) = world_of(&[5]);
    w.remove_living(hs[0]);
    w.flush_modify_livings();
    assert!(w.livings.is_empty());
    assert_eq!(w.next_id, 0);
}

#[test]
fn removal_with_an_id_out_of_range_is_ignored() {
    let (mut w, _hs) = world_of(&[5, 6]);
    let stray = w.new_living(Grass { hp: 1, pos: (0, 0), id: 9 });
    w.remove_living(stray);
    let ignored = w.flush_modify_livings();
    assert_eq!(ignored, vec![stray]);
    assert_eq!(w.livings.len(), 2);
    assert!(w.to_be_removed.is_empty());
}

#[test]
fn removal_goes_by_the_id_the_creature_carries() {
    // A creature never taken in still carries id 0: removing it removes
    // whatever the id 0 names.
    let (mut w, hs) = world_of(&[5, 6, 7]);
    let stray = w.new_living(Grass::new(1, (0, 0)));
    w.remove_living(stray);
    assert!(w.flush_modify_livings().is_empty());
    assert_eq!(w.livings, vec![hs[2], hs[1]]);
    assert_eq!(w.objects[hs[2]].id, 0);
}

#[test]
fn additions_are_applied_before_removals() {
    let (mut w, hs) = world_of(&[5, 6]);
    let h = w.new_living(Grass::new(9, (1, 1)));
    w.remove_living(h);
    w.add_living(h);
    w.flush_modify_livings();
    assert_eq!(w.livings, hs);
    assert_consistent(&w);
}

#[test]
fn removing_two_livings_in_one_flush_follows_moved_ids() {
    let (mut w, hs) = world_of(&[1, 2, 3, 4, 5]);
    w.remove_living(hs[0]);
    w.remove_living(hs[4]);
    w.flush_modify_livings();
    assert_eq!(w.livings, vec![hs[3], hs[1], hs[2]]);
    assert_consistent(&w);
}

#[test]
fn flushing_empty_queues_changes_nothing() {
    let (mut w, hs) = world_of(&[1, 2, 3]);
    let before: Vec<Grass> = w.objects.clone();
    w.flush_modify_livings();
    assert_eq!(w.livings, hs);
    assert_eq!(w.objects, before);
}

#[test]
fn remove_dead_queues_exactly_the_dead_in_order() {
    let (mut w, hs) = world_of(&[5, 0, 7, -3]);
    w.remove_dead();
    assert_eq!(w.to_be_removed, vec![hs[1], hs[3]]);
    w.flush_modify_livings();
    assert_eq!(w.livings, vec![hs[0], hs[2]]);
    assert_consistent(&w);
}

#[test]
fn many_additions_and_removals_keep_ids_consistent() {
    let (mut w, hs) = world_of(&[1, 2, 3, 4, 5, 6, 7, 8]);
    let extra = w.new_living(Grass::new(3, (9, 9)));
    w.add_living(extra);
    w.remove_living(hs[2]);
    w.remove_living(extra);
    w.remove_living(hs[7]);
    w.remove_living(hs[0]);
    w.flush_modify_livings();
    let mut left: Vec<usize> = w.livings.clone();
    left.sort();
    assert_eq!(left, vec![hs[1], hs[3], hs[4], hs[5], hs[6]]);
    assert_consistent(&w);
}

#[test]
fn removing_from_an_empty_world_is_reported() {
    let mut w: World<Grass> = World::new();
    let a = w.new_living(Grass::new(1, (0, 0)));
    w.remove_living(a);
    let ignored = w.flush_modify_livings();
    assert_eq!(ignored, vec![a]);
    assert!(w.livings.is_empty());
    assert_eq!(w.next_id, 0);
    assert_eq!(w.objects[a].id, 0);
}

#[test]
fn removing_a_creature_twice_reports_the_second_time_when_out_of_bounds() {
    let (mut w, hs) = world_of(&[1, 2]);
    w.remove_living(hs[1]);
    w.remove_living(hs[1]);
    let ignored = w.flush_modify_livings();
    assert_eq!(ignored, vec![hs[1]]);
    assert_eq!(w.livings, vec![hs[0]]);
}
