//! The world: every creature, in a list ordered by id, with additions and
//! removals queued and applied together.
//!
//! Creatures are shared: the world keeps them in a store and hands out
//! handles (indices into the store). The list of livings, and the two
//! queues, hold handles, so that the same creature can be queued for
//! removal while it lives in the list, and its id is read when the removal
//! is applied.

use crate::living::grass::{on_field, Grass, FIELD_HEIGHT, FIELD_WIDTH, NEW_GRASS_HP};
use crate::living::living::{cells_view, painted_grows, Living};
use crate::random;
use vstd::prelude::*;

verus! {

/// The world.
pub struct World<L: Living> {
    /// Handles of the living creatures; the creature at index `i` is meant
    /// to carry the id `i`.
    pub livings: Vec<usize>,
    /// The id that the next creature taken in receives.
    pub next_id: usize,
    /// Handles queued for removal.
    pub to_be_removed: Vec<usize>,
    /// Handles queued for addition.
    pub to_be_added: Vec<usize>,
    /// Spatial chunks of the field (kept empty).
    pub chunks: Vec<Vec<Vec<usize>>>,
    /// Every creature shared with the world, by handle.
    pub objects: Vec<L>,
}

/// Takes in the creature `h`: it gets the next id and goes to the end of
/// the list.
pub open spec fn add_step<L: Living>(livs: Seq<usize>, objs: Seq<L>, h: usize) -> (Seq<usize>, Seq<L>) {
    (livs.push(h), objs.update(h as int, objs[h as int].spec_with_id(livs.len() as usize)))
}

/// Removes the creature that the id of `h` names: the last creature of the
/// list takes its place and its id.
pub open spec fn remove_step<L: Living>(livs: Seq<usize>, objs: Seq<L>, h: usize) -> (Seq<usize>, Seq<L>) {
    let d = objs[h as int].spec_id() as int;
    if d >= livs.len() {
        (livs, objs)
    } else if livs.len() < 2 {
        (Seq::empty(), objs)
    } else if d == livs.len() - 1 {
        (livs.drop_last(), objs)
    } else {
        let last = livs.last();
        (livs.update(d, last).drop_last(), objs.update(last as int, objs[last as int].spec_with_id(d as usize)))
    }
}

/// The add steps for every handle of `adds`, in order.
pub open spec fn add_all<L: Living>(livs: Seq<usize>, objs: Seq<L>, adds: Seq<usize>) -> (Seq<usize>, Seq<L>)
    decreases adds.len(),
{
    if adds.len() == 0 {
        (livs, objs)
    } else {
        let (l, o) = add_all(livs, objs, adds.drop_last());
        add_step(l, o, adds.last())
    }
}

/// The remove steps for every handle of `rems`, in order.
pub open spec fn remove_all<L: Living>(livs: Seq<usize>, objs: Seq<L>, rems: Seq<usize>) -> (Seq<usize>, Seq<L>)
    decreases rems.len(),
{
    if rems.len() == 0 {
        (livs, objs)
    } else {
        let (l, o) = remove_all(livs, objs, rems.drop_last());
        remove_step(l, o, rems.last())
    }
}

/// The creatures after updating, in order, those that `livs` names.
pub open spec fn aged_all<L: Living>(objs: Seq<L>, livs: Seq<usize>, deltatime: u128) -> Seq<L>
    decreases livs.len(),
{
    if livs.len() == 0 {
        objs
    } else {
        let o = aged_all(objs, livs.drop_last(), deltatime);
        o.update(livs.last() as int, o[livs.last() as int].spec_aged(deltatime))
    }
}

/// The `i`-th creature of `livs` as it is when its turn to update comes.
pub open spec fn before_update<L: Living>(objs: Seq<L>, livs: Seq<usize>, deltatime: u128, i: int) -> L {
    aged_all(objs, livs.take(i), deltatime)[livs[i] as int]
}

/// The offspring spawned, in order, by updating the creatures that `livs`
/// names, the `i`-th on the random draws `draws[i]`.
pub open spec fn spawn_all<L: Living>(
    objs: Seq<L>,
    livs: Seq<usize>,
    deltatime: u128,
    draws: Seq<(i64, i64, i64)>,
) -> Seq<L>
    decreases livs.len(),
{
    if livs.len() == 0 {
        Seq::empty()
    } else {
        let rest = spawn_all(objs, livs.drop_last(), deltatime, draws);
        match aged_all(objs, livs.drop_last(), deltatime)[livs.last() as int].spec_spawn(
            deltatime,
            draws[livs.len() - 1],
        ) {
            Some(child) => rest.push(child),
            None => rest,
        }
    }
}

/// The handles of `rems` whose removal is ignored because the id that the
/// creature carries when its turn comes names no listed creature.
pub open spec fn ignored_all<L: Living>(livs: Seq<usize>, objs: Seq<L>, rems: Seq<usize>) -> Seq<usize>
    decreases rems.len(),
{
    if rems.len() == 0 {
        Seq::empty()
    } else {
        let rest = ignored_all(livs, objs, rems.drop_last());
        let (l, o) = remove_all(livs, objs, rems.drop_last());
        if o[rems.last() as int].spec_id() >= l.len() {
            rest.push(rems.last())
        } else {
            rest
        }
    }
}

/// Drawing, in order, the creatures that `livs` names: the cells after,
/// and the handles of those whose picture is to be painted.
pub open spec fn drawn_all<L: Living>(
    cells: Seq<Seq<u8>>,
    objs: Seq<L>,
    livs: Seq<usize>,
    pict: (i32, i32),
) -> (Seq<Seq<u8>>, Seq<usize>)
    decreases livs.len(),
{
    if livs.len() == 0 {
        (cells, Seq::empty())
    } else {
        let (c, paint) = drawn_all(cells, objs, livs.drop_last(), pict);
        let (c2, p) = objs[livs.last() as int].spec_drawn(c, pict);
        (c2, if p { paint.push(livs.last()) } else { paint })
    }
}

/// The handles of `livs` whose creature is dead, in order.
pub open spec fn dead_of<L: Living>(objs: Seq<L>, livs: Seq<usize>) -> Seq<usize>
    decreases livs.len(),
{
    if livs.len() == 0 {
        Seq::empty()
    } else {
        let rest = dead_of(objs, livs.drop_last());
        if objs[livs.last() as int].spec_hp() <= 0 {
            rest.push(livs.last())
        } else {
            rest
        }
    }
}

/// Updating creatures changes none of their number.
pub proof fn lemma_aged_all_len<L: Living>(objs: Seq<L>, livs: Seq<usize>, deltatime: u128)
    requires
        handles_valid(livs, objs.len() as int),
    ensures
        aged_all(objs, livs, deltatime).len() == objs.len(),
    decreases livs.len(),
{
    if livs.len() > 0 {
        lemma_aged_all_len(objs, livs.drop_last(), deltatime);
        assert(livs.last() == livs[livs.len() - 1]);
    }
}

/// Every handle of `hs` names a creature of the store.
pub open spec fn handles_valid(hs: Seq<usize>, n: int) -> bool {
    forall|i: int| 0 <= i < hs.len() ==> #[trigger] hs[i] < n
}

impl<L: Living> World<L> {
    /// The world is well formed: the next id is the number of livings and
    /// every handle names a stored creature.
    pub open spec fn wf(&self) -> bool {
        &&& self.next_id == self.livings@.len()
        &&& handles_valid(self.livings@, self.objects@.len() as int)
        &&& handles_valid(self.to_be_removed@, self.objects@.len() as int)
        &&& handles_valid(self.to_be_added@, self.objects@.len() as int)
    }

    /// An empty world.
    pub fn new() -> (world: World<L>)
        ensures
            world.wf(),
            world.livings@ == Seq::<usize>::empty(),
            world.next_id == 0,
            world.to_be_removed@ == Seq::<usize>::empty(),
            world.to_be_added@ == Seq::<usize>::empty(),
            world.chunks@ == Seq::<Vec<Vec<usize>>>::empty(),
            world.objects@ == Seq::<L>::empty(),
    {
        World {
            livings: Vec::new(),
            next_id: 0,
            to_be_removed: Vec::new(),
            to_be_added: Vec::new(),
            chunks: Vec::new(),
            objects: Vec::new(),
        }
    }

    /// Shares `living` with the world and returns its handle; the creature
    /// is not yet among the livings.
    pub fn new_living(&mut self, living: L) -> (h: usize)
        requires
            old(self).wf(),
        ensures
            final(self).wf(),
            final(self).chunks == old(self).chunks,
            h == old(self).objects@.len(),
            final(self).objects@ == old(self).objects@.push(living),
            final(self).livings@ == old(self).livings@,
            final(self).to_be_added@ == old(self).to_be_added@,
            final(self).to_be_removed@ == old(self).to_be_removed@,
    {
        let h = self.objects.len();
        self.objects.push(living);
        proof {
            assert(handles_valid(self.livings@, self.objects@.len() as int));
        }
        h
    }

    /// Queues the creature `living` for addition.
    pub fn add_living(&mut self, living: usize)
        requires
            old(self).wf(),
            living < old(self).objects@.len(),
        ensures
            final(self).wf(),
            final(self).chunks == old(self).chunks,
            final(self).to_be_added@ == old(self).to_be_added@.push(living),
            final(self).livings@ == old(self).livings@,
            final(self).to_be_removed@ == old(self).to_be_removed@,
            final(self).objects@ == old(self).objects@,
    {
        self.to_be_added.push(living);
    }

    /// Queues the creature `living` for removal.
    pub fn remove_living(&mut self, living: usize)
        requires
            old(self).wf(),
            living < old(self).objects@.len(),
        ensures
            final(self).wf(),
            final(self).chunks == old(self).chunks,
            final(self).to_be_removed@ == old(self).to_be_removed@.push(living),
            final(self).livings@ == old(self).livings@,
            final(self).to_be_added@ == old(self).to_be_added@,
            final(self).objects@ == old(self).objects@,
    {
        self.to_be_removed.push(living);
    }

    fn _add_living(&mut self, living: usize)
        requires
            old(self).wf(),
            living < old(self).objects@.len(),
        ensures
            final(self).wf(),
            final(self).chunks == old(self).chunks,
            (final(self).livings@, final(self).objects@) == add_step(old(self).livings@, old(self).objects@, living),
            final(self).to_be_added@ == old(self).to_be_added@,
            final(self).to_be_removed@ == old(self).to_be_removed@,
    {
        let id = self.next_id;
        self.objects[living].set_id(id);
        self.livings.push(living);
        proof {
            assert(self.livings.len() <= usize::MAX);
            assert(handles_valid(self.livings@, self.objects@.len() as int));
        }
        self.next_id = self.next_id + 1;
    }

    fn _remove_living(&mut self, living: usize) -> (ignored: bool)
        requires
            old(self).wf(),
            living < old(self).objects@.len(),
        ensures
            ignored == (old(self).objects@[living as int].spec_id() >= old(self).livings@.len()),
            final(self).wf(),
            final(self).chunks == old(self).chunks,
            (final(self).livings@, final(self).objects@) == remove_step(old(self).livings@, old(self).objects@, living),
            final(self).to_be_added@ == old(self).to_be_added@,
            final(self).to_be_removed@ == old(self).to_be_removed@,
    {
        let deleted_id = self.objects[living].get_id();
        if deleted_id >= self.livings.len() {
            return true;
        } else if self.livings.len() < 2 {
            self.livings.clear();
            self.next_id = 0;
            return false;
        } else if deleted_id == self.next_id - 1 {
            self.livings.pop();
            self.next_id = self.next_id - 1;
            return false;
        }
        let last = self.livings[self.next_id - 1];
        self.objects[last].set_id(deleted_id);
        self.livings.swap_remove(deleted_id);
        self.next_id = self.next_id - 1;
        false
    }

    /// Applies the queued additions, then the queued removals, each in the
    /// order they were queued, and empties both queues. Returns, in order,
    /// the handles whose removal was ignored because their id was out of
    /// bounds of the list when their turn came.
    pub fn flush_modify_livings(&mut self) -> (ignored: Vec<usize>)
        requires
            old(self).wf(),
        ensures
            ignored@ == ignored_all(
                add_all(old(self).livings@, old(self).objects@, old(self).to_be_added@).0,
                add_all(old(self).livings@, old(self).objects@, old(self).to_be_added@).1,
                old(self).to_be_removed@,
            ),
            final(self).wf(),
            final(self).chunks == old(self).chunks,
            (final(self).livings@, final(self).objects@) == remove_all(
                add_all(old(self).livings@, old(self).objects@, old(self).to_be_added@).0,
                add_all(old(self).livings@, old(self).objects@, old(self).to_be_added@).1,
                old(self).to_be_removed@,
            ),
            final(self).to_be_added@ == Seq::<usize>::empty(),
            final(self).to_be_removed@ == Seq::<usize>::empty(),
    {
        let ghost l0 = self.livings@;
        let ghost o0 = self.objects@;
        let n_add = self.to_be_added.len();
        let mut i: usize = 0;
        while i < n_add
            invariant
                self.wf(),
                n_add == self.to_be_added@.len(),
                0 <= i <= n_add,
                self.to_be_added@ == old(self).to_be_added@,
                self.to_be_removed@ == old(self).to_be_removed@,
                self.chunks == old(self).chunks,
                (self.livings@, self.objects@) == add_all(l0, o0, self.to_be_added@.take(i as int)),
            decreases n_add - i,
        {
            let h = self.to_be_added[i];
            assert(self.to_be_added@.take(i + 1).drop_last() == self.to_be_added@.take(i as int));
            self._add_living(h);
            i = i + 1;
        }
        assert(self.to_be_added@.take(n_add as int) == self.to_be_added@);
        let ghost l1 = self.livings@;
        let ghost o1 = self.objects@;
        let n_rem = self.to_be_removed.len();
        let mut ignored: Vec<usize> = Vec::new();
        let mut j: usize = 0;
        while j < n_rem
            invariant
                ignored@ == ignored_all(l1, o1, self.to_be_removed@.take(j as int)),
                self.wf(),
                n_rem == self.to_be_removed@.len(),
                0 <= j <= n_rem,
                self.to_be_added@ == old(self).to_be_added@,
                self.to_be_removed@ == old(self).to_be_removed@,
                self.chunks == old(self).chunks,
                (self.livings@, self.objects@) == remove_all(l1, o1, self.to_be_removed@.take(j as int)),
            decreases n_rem - j,
        {
            let h = self.to_be_removed[j];
            assert(self.to_be_removed@.take(j + 1).drop_last() == self.to_be_removed@.take(j as int));
            if self._remove_living(h) {
                ignored.push(h);
            }
            j = j + 1;
        }
        assert(self.to_be_removed@.take(n_rem as int) == self.to_be_removed@);
        self.to_be_added.clear();
        self.to_be_removed.clear();
        ignored
    }

    /// Updates every living creature, in list order, by `deltatime`
    /// milliseconds, the `i`-th on the random draws `draws[i]`; the offspring
    /// they spawn are shared with the world and queued for addition, in the
    /// order they were spawned.
    pub fn update_livings_with_draws(&mut self, deltatime: u128, draws: &Vec<(i64, i64, i64)>)
        requires
            old(self).wf(),
            draws@.len() == old(self).livings@.len(),
            forall|i: int| 0 <= i < draws@.len() ==> L::possible_draw(#[trigger] draws@[i]),
            forall|i: int|
                0 <= i < old(self).livings@.len() ==> #[trigger] before_update(
                    old(self).objects@,
                    old(self).livings@,
                    deltatime,
                    i,
                ).update_ok(deltatime),
        ensures
            final(self).wf(),
            final(self).livings@ == old(self).livings@,
            final(self).to_be_removed@ == old(self).to_be_removed@,
            final(self).chunks == old(self).chunks,
            final(self).objects@ == aged_all(old(self).objects@, old(self).livings@, deltatime) + spawn_all(
                old(self).objects@,
                old(self).livings@,
                deltatime,
                draws@,
            ),
            final(self).to_be_added@ == old(self).to_be_added@ + Seq::new(
                spawn_all(old(self).objects@, old(self).livings@, deltatime, draws@).len(),
                |k: int| (old(self).objects@.len() + k) as usize,
            ),
    {
        let ghost o0 = self.objects@;
        let ghost n0 = self.objects@.len();
        let ghost a0 = self.to_be_added@;
        let n = self.livings.len();
        let mut i: usize = 0;
        while i < n
            invariant
                self.wf(),
                0 <= i <= n,
                n == self.livings@.len(),
                draws@.len() == n,
                forall|j: int| 0 <= j < draws@.len() ==> L::possible_draw(#[trigger] draws@[j]),
                self.livings@ == old(self).livings@,
                self.to_be_removed@ == old(self).to_be_removed@,
                self.chunks == old(self).chunks,
                o0 == old(self).objects@,
                n0 == o0.len(),
                handles_valid(self.livings@, n0 as int),
                a0 == old(self).to_be_added@,
                forall|j: int|
                    0 <= j < self.livings@.len() ==> #[trigger] before_update(
                        o0,
                        self.livings@,
                        deltatime,
                        j,
                    ).update_ok(deltatime),
                self.objects@ == aged_all(o0, self.livings@.take(i as int), deltatime) + spawn_all(
                    o0,
                    self.livings@.take(i as int),
                    deltatime,
                    draws@,
                ),
                self.to_be_added@ == a0 + Seq::new(
                    spawn_all(o0, self.livings@.take(i as int), deltatime, draws@).len(),
                    |k: int| (n0 + k) as usize,
                ),
            decreases n - i,
        {
            let h = self.livings[i];
            let ghost aged = aged_all(o0, self.livings@.take(i as int), deltatime);
            let ghost spawned = spawn_all(o0, self.livings@.take(i as int), deltatime, draws@);
            let ghost prev = before_update(o0, self.livings@, deltatime, i as int);
            proof {
                lemma_aged_all_len(o0, self.livings@.take(i as int), deltatime);
                assert(self.livings@.take(i + 1).drop_last() == self.livings@.take(i as int));
                assert(self.livings@.take(i + 1).last() == h);
                assert(self.objects@[h as int] == aged[h as int]);
            }
            let offspring = self.objects[h].update_with_draws(deltatime, draws[i]);
            assert(self.objects@ =~= aged.update(h as int, prev.spec_aged(deltatime)) + spawned);
            match offspring {
                Some(child) => {
                    let c = self.new_living(child);
                    self.add_living(c);
                    assert(spawn_all(o0, self.livings@.take(i + 1), deltatime, draws@) == spawned.push(child));
                    assert(self.objects@ =~= aged_all(o0, self.livings@.take(i + 1), deltatime) + spawned.push(child));
                    assert(self.to_be_added@ =~= a0 + Seq::new(
                        spawned.push(child).len(),
                        |k: int| (n0 + k) as usize,
                    ));
                }
                None => {
                    assert(spawn_all(o0, self.livings@.take(i + 1), deltatime, draws@) == spawned);
                }
            }
            i = i + 1;
        }
        assert(self.livings@.take(n as int) == self.livings@);
    }

    /// Updates every living creature, in list order, by `deltatime`
    /// milliseconds on fresh random draws; the offspring they spawn are
    /// shared with the world and queued for addition, in the order they were
    /// spawned.
    pub fn update_livings(&mut self, deltatime: u128)
        requires
            old(self).wf(),
            forall|i: int|
                0 <= i < old(self).livings@.len() ==> #[trigger] before_update(
                    old(self).objects@,
                    old(self).livings@,
                    deltatime,
                    i,
                ).update_ok(deltatime),
        ensures
            final(self).wf(),
            final(self).livings@ == old(self).livings@,
            final(self).to_be_removed@ == old(self).to_be_removed@,
            final(self).chunks == old(self).chunks,
            exists|draws: Seq<(i64, i64, i64)>|
                {
                    &&& draws.len() == old(self).livings@.len()
                    &&& forall|i: int| 0 <= i < draws.len() ==> L::possible_draw(#[trigger] draws[i])
                    &&& final(self).objects@ == aged_all(old(self).objects@, old(self).livings@, deltatime)
                        + #[trigger] spawn_all(old(self).objects@, old(self).livings@, deltatime, draws)
                    &&& final(self).to_be_added@ == old(self).to_be_added@ + Seq::new(
                        spawn_all(old(self).objects@, old(self).livings@, deltatime, draws).len(),
                        |k: int| (old(self).objects@.len() + k) as usize,
                    )
                },
    {
        let n = self.livings.len();
        let mut draws: Vec<(i64, i64, i64)> = Vec::new();
        let mut i: usize = 0;
        while i < n
            invariant
                i <= n,
                draws@.len() == i,
                forall|j: int| 0 <= j < draws@.len() ==> L::possible_draw(#[trigger] draws@[j]),
            decreases n - i,
        {
            draws.push(L::random_draw());
            i = i + 1;
        }
        self.update_livings_with_draws(deltatime, &draws);
        assert(spawn_all(old(self).objects@, old(self).livings@, deltatime, draws@) == spawn_all(
            old(self).objects@,
            old(self).livings@,
            deltatime,
            draws@,
        ));
    }

    /// Draws every living creature, in list order, onto `painted_cells`;
    /// returns the handles of those whose picture is to be painted, in order.
    pub fn draw_livings(&self, painted_cells: &mut Vec<Vec<u8>>, pict: (i32, i32)) -> (to_paint: Vec<usize>)
        requires
            self.wf(),
            forall|i: int|
                0 <= i < self.livings@.len() ==> #[trigger] self.objects@[self.livings@[i] as int].draw_ok(
                    drawn_all(cells_view(old(painted_cells)), self.objects@, self.livings@.take(i), pict).0,
                    pict,
                ),
        ensures
            (cells_view(final(painted_cells)), to_paint@) == drawn_all(
                cells_view(old(painted_cells)),
                self.objects@,
                self.livings@,
                pict,
            ),
    {
        let ghost c0 = cells_view(painted_cells);
        let mut to_paint: Vec<usize> = Vec::new();
        let n = self.livings.len();
        let mut i: usize = 0;
        while i < n
            invariant
                self.wf(),
                0 <= i <= n,
                n == self.livings@.len(),
                c0 == cells_view(old(painted_cells)),
                forall|j: int|
                    0 <= j < self.livings@.len() ==> #[trigger] self.objects@[self.livings@[j] as int].draw_ok(
                        drawn_all(c0, self.objects@, self.livings@.take(j), pict).0,
                        pict,
                    ),
                (cells_view(painted_cells), to_paint@) == drawn_all(c0, self.objects@, self.livings@.take(i as int), pict),
            decreases n - i,
        {
            let h = self.livings[i];
            assert(self.livings@.take(i + 1).drop_last() == self.livings@.take(i as int));
            assert(self.objects@[self.livings@[i as int] as int].draw_ok(
                drawn_all(c0, self.objects@, self.livings@.take(i as int), pict).0,
                pict,
            ));
            let paint = self.objects[h].draw(painted_cells, pict);
            if paint {
                to_paint.push(h);
            }
            i = i + 1;
        }
        assert(self.livings@.take(n as int) == self.livings@);
        to_paint
    }

    /// Queues every dead living creature for removal, in list order.
    pub fn remove_dead(&mut self)
        requires
            old(self).wf(),
        ensures
            final(self).wf(),
            final(self).chunks == old(self).chunks,
            final(self).to_be_removed@ == old(self).to_be_removed@ + dead_of(
                old(self).objects@,
                old(self).livings@,
            ),
            final(self).livings@ == old(self).livings@,
            final(self).to_be_added@ == old(self).to_be_added@,
            final(self).objects@ == old(self).objects@,
    {
        let n = self.livings.len();
        let mut i: usize = 0;
        while i < n
            invariant
                self.wf(),
                0 <= i <= n,
                n == self.livings@.len(),
                self.livings@ == old(self).livings@,
                self.to_be_added@ == old(self).to_be_added@,
                self.objects@ == old(self).objects@,
                self.chunks == old(self).chunks,
                self.to_be_removed@ == old(self).to_be_removed@ + dead_of(
                    self.objects@,
                    self.livings@.take(i as int),
                ),
            decreases n - i,
        {
            let h = self.livings[i];
            assert(self.livings@.take(i + 1).drop_last() == self.livings@.take(i as int));
            if self.objects[h].is_dead() {
                self.remove_living(h);
            }
            i = i + 1;
        }
        assert(self.livings@.take(n as int) == self.livings@);
    }
}

/// The ids agree with the list: no creature is listed twice, and the
/// creature at index `i` of the list carries the id `i`.
pub open spec fn ids_consistent<L: Living>(livs: Seq<usize>, objs: Seq<L>) -> bool {
    &&& livs.no_duplicates()
    &&& forall|i: int|
        0 <= i < livs.len() ==> #[trigger] livs[i] < objs.len() && objs[livs[i] as int].spec_id() == i
}

/// A list of distinct handles below `n` has at most `n` entries.
proof fn lemma_distinct_handles_len(hs: Seq<usize>, n: nat)
    requires
        hs.no_duplicates(),
        forall|i: int| 0 <= i < hs.len() ==> #[trigger] hs[i] < n,
    ensures
        hs.len() <= n,
    decreases n,
{
    if n == 0 {
        if hs.len() > 0 {
            assert(hs[0] < n);
        }
    } else {
        let top = (n - 1) as usize;
        if hs.contains(top) {
            let q = choose|q: int| 0 <= q < hs.len() && hs[q] == top;
            let rest = hs.remove(q);
            assert forall|i: int| 0 <= i < rest.len() implies #[trigger] rest[i] < (n - 1) as nat by {
                let j = if i < q { i } else { i + 1 };
                assert(rest[i] == hs[j]);
                assert(hs[j] != hs[q]);
            }
            assert(rest.no_duplicates()) by {
                assert forall|i: int, k: int| 0 <= i < rest.len() && 0 <= k < rest.len() && i != k implies rest[i] != rest[k] by {
                    let ji = if i < q { i } else { i + 1 };
                    let jk = if k < q { k } else { k + 1 };
                    assert(rest[i] == hs[ji] && rest[k] == hs[jk]);
                }
            }
            lemma_distinct_handles_len(rest, (n - 1) as nat);
        } else {
            assert forall|i: int| 0 <= i < hs.len() implies #[trigger] hs[i] < (n - 1) as nat by {
                assert(hs[i] != top);
            }
            lemma_distinct_handles_len(hs, (n - 1) as nat);
        }
    }
}

/// Taking in a creature that is not listed keeps the ids in agreement with
/// the list, and appends the creature to the list.
pub proof fn lemma_add_step_consistent<L: Living>(livs: Seq<usize>, objs: Seq<L>, h: usize)
    requires
        ids_consistent(livs, objs),
        h < objs.len(),
        !livs.contains(h),
        objs.len() <= usize::MAX,
    ensures
        ids_consistent(add_step(livs, objs, h).0, add_step(livs, objs, h).1),
        add_step(livs, objs, h).0 == livs.push(h),
        add_step(livs, objs, h).1.len() == objs.len(),
{
    let (l2, o2) = add_step(livs, objs, h);
    assert forall|i: int, j: int| 0 <= i < l2.len() && 0 <= j < l2.len() && i != j implies l2[i] != l2[j] by {
        if i == livs.len() {
            assert(livs.contains(l2[j]));
        } else if j == livs.len() {
            assert(livs.contains(l2[i]));
        }
    }
    assert forall|i: int| 0 <= i < l2.len() implies #[trigger] l2[i] < objs.len() by {
        if i < livs.len() {
            assert(livs[i] < objs.len() && objs[livs[i] as int].spec_id() == i);
        }
    }
    lemma_distinct_handles_len(l2, objs.len());
    objs[h as int].lemma_with_id(livs.len() as usize);
    assert forall|i: int| 0 <= i < l2.len() implies #[trigger] l2[i] < o2.len() && o2[l2[i] as int].spec_id() == i by {
        if i < livs.len() {
            assert(l2[i] == livs[i]);
            assert(livs[i] != h);
        }
    }
}

/// Removing a listed creature keeps the ids in agreement with the list,
/// and takes exactly that creature out of the list.
pub proof fn lemma_remove_step_consistent<L: Living>(livs: Seq<usize>, objs: Seq<L>, h: usize)
    requires
        ids_consistent(livs, objs),
        livs.contains(h),
    ensures
        ids_consistent(remove_step(livs, objs, h).0, remove_step(livs, objs, h).1),
        remove_step(livs, objs, h).0.to_set() == livs.to_set().remove(h),
        remove_step(livs, objs, h).0.len() == livs.len() - 1,
        remove_step(livs, objs, h).0.to_multiset() == livs.to_multiset().remove(h),
        remove_step(livs, objs, h).1.len() == objs.len(),
{
    let p = choose|p: int| 0 <= p < livs.len() && livs[p] == h;
    assert(objs[h as int].spec_id() == p);
    let n = livs.len();
    let (l2, o2) = remove_step(livs, objs, h);
    if n < 2 {
        assert(livs.to_set().remove(h) =~= Set::empty()) by {
            assert forall|x: usize| !livs.to_set().remove(h).contains(x) by {
                if livs.contains(x) {
                    let q = choose|q: int| 0 <= q < livs.len() && livs[q] == x;
                    assert(q == p);
                }
            }
        }
        assert(l2.to_set() =~= Set::empty());
    } else if p == n - 1 {
        assert(l2 == livs.drop_last());
        assert forall|x: usize| l2.to_set().contains(x) <==> livs.to_set().remove(h).contains(x) by {
            if livs.contains(x) && x != h {
                let q = choose|q: int| 0 <= q < livs.len() && livs[q] == x;
                assert(l2[q] == x);
            }
            if l2.contains(x) {
                let q = choose|q: int| 0 <= q < l2.len() && l2[q] == x;
                assert(livs[q] == x);
            }
        }
        assert(l2.to_set() =~= livs.to_set().remove(h));
    } else {
        let last = livs.last();
        assert(last == livs[n - 1]);
        assert(last != h);
        objs[last as int].lemma_with_id(p as usize);
        assert(l2 =~= livs.update(p, last).drop_last());
        assert forall|i: int| 0 <= i < l2.len() implies #[trigger] l2[i] < o2.len() && o2[l2[i] as int].spec_id() == i by {
            if i != p {
                assert(l2[i] == livs[i]);
                assert(livs[i] != last);
            }
        }
        assert forall|i: int, j: int| 0 <= i < l2.len() && 0 <= j < l2.len() && i != j implies l2[i] != l2[j] by {
            if i == p {
                assert(l2[j] == livs[j]);
            } else if j == p {
                assert(l2[i] == livs[i]);
            } else {
                assert(l2[i] == livs[i]);
                assert(l2[j] == livs[j]);
            }
        }
        assert forall|x: usize| l2.to_set().contains(x) <==> livs.to_set().remove(h).contains(x) by {
            if livs.contains(x) && x != h {
                let q = choose|q: int| 0 <= q < livs.len() && livs[q] == x;
                if q == n - 1 {
                    assert(l2[p] == x);
                } else {
                    assert(q != p);
                    assert(l2[q] == x);
                }
            }
            if l2.contains(x) {
                let q = choose|q: int| 0 <= q < l2.len() && l2[q] == x;
                if q == p {
                    assert(livs[n - 1] == x);
                } else {
                    assert(livs[q] == x);
                }
            }
        }
        assert(l2.to_set() =~= livs.to_set().remove(h));
    }
    assert forall|x: usize| #[trigger] l2.to_multiset().count(x) == livs.to_multiset().remove(h).count(x) by {
        lemma_no_dup_count(l2, x);
        lemma_no_dup_count(livs, x);
        assert(l2.to_set().contains(x) == l2.contains(x));
        assert(livs.to_set().contains(x) == livs.contains(x));
    }
    assert(l2.to_multiset() =~= livs.to_multiset().remove(h));
}

proof fn lemma_add_all_consistent<L: Living>(livs: Seq<usize>, objs: Seq<L>, adds: Seq<usize>)
    requires
        ids_consistent(livs, objs),
        adds.no_duplicates(),
        forall|i: int| 0 <= i < adds.len() ==> #[trigger] adds[i] < objs.len() && !livs.contains(adds[i]),
        objs.len() <= usize::MAX,
    ensures
        ids_consistent(add_all(livs, objs, adds).0, add_all(livs, objs, adds).1),
        add_all(livs, objs, adds).0 == livs + adds,
        add_all(livs, objs, adds).1.len() == objs.len(),
    decreases adds.len(),
{
    if adds.len() > 0 {
        let init = adds.drop_last();
        assert forall|i: int| 0 <= i < init.len() implies #[trigger] init[i] < objs.len() && !livs.contains(init[i]) by {
            assert(init[i] == adds[i]);
        }
        lemma_add_all_consistent(livs, objs, init);
        let h = adds.last();
        assert(h == adds[adds.len() - 1]);
        assert(!(livs + init).contains(h)) by {
            if (livs + init).contains(h) {
                let q = choose|q: int| 0 <= q < (livs + init).len() && (livs + init)[q] == h;
                if q >= livs.len() {
                    assert(adds[q - livs.len()] == h);
                } else {
                    assert(livs.contains(h));
                }
            }
        }
        lemma_add_step_consistent(livs + init, add_all(livs, objs, init).1, h);
        assert((livs + init).push(h) =~= livs + adds);
    }
}

proof fn lemma_remove_all_consistent<L: Living>(livs: Seq<usize>, objs: Seq<L>, rems: Seq<usize>)
    requires
        ids_consistent(livs, objs),
        rems.no_duplicates(),
        forall|i: int| 0 <= i < rems.len() ==> livs.contains(#[trigger] rems[i]),
    ensures
        ids_consistent(remove_all(livs, objs, rems).0, remove_all(livs, objs, rems).1),
        remove_all(livs, objs, rems).0.to_set() == livs.to_set().difference(rems.to_set()),
        remove_all(livs, objs, rems).0.len() == livs.len() - rems.len(),
        remove_all(livs, objs, rems).1.len() == objs.len(),
    decreases rems.len(),
{
    if rems.len() == 0 {
        assert(livs.to_set().difference(rems.to_set()) =~= livs.to_set());
    } else {
        let init = rems.drop_last();
        assert forall|i: int| 0 <= i < init.len() implies livs.contains(#[trigger] init[i]) by {
            assert(init[i] == rems[i]);
        }
        lemma_remove_all_consistent(livs, objs, init);
        let h = rems.last();
        assert(h == rems[rems.len() - 1]);
        let (l1, o1) = remove_all(livs, objs, init);
        assert(!init.contains(h)) by {
            if init.contains(h) {
                let q = choose|q: int| 0 <= q < init.len() && init[q] == h;
                assert(rems[q] == h);
            }
        }
        assert(livs.contains(h));
        assert(l1.to_set().contains(h));
        lemma_remove_step_consistent(l1, o1, h);
        assert(livs.to_set().difference(init.to_set()).remove(h) =~= livs.to_set().difference(rems.to_set())) by {
            assert forall|x: usize| rems.to_set().contains(x) <==> (init.to_set().contains(x) || x == h) by {
                if rems.contains(x) {
                    let q = choose|q: int| 0 <= q < rems.len() && rems[q] == x;
                    if q < rems.len() - 1 {
                        assert(init[q] == x);
                    }
                }
                if init.contains(x) {
                    let q = choose|q: int| 0 <= q < init.len() && init[q] == x;
                    assert(rems[q] == x);
                }
            }
        }
    }
}

/// Applying the queues keeps the ids in agreement with the list, where
/// every queued addition is a distinct creature not yet listed and every
/// queued removal is a distinct creature listed by then; the creatures
/// listed afterwards are those listed before or added, less those removed.
pub proof fn lemma_flush_keeps_ids_consistent<L: Living>(
    livs: Seq<usize>,
    objs: Seq<L>,
    adds: Seq<usize>,
    rems: Seq<usize>,
)
    requires
        ids_consistent(livs, objs),
        adds.no_duplicates(),
        forall|i: int| 0 <= i < adds.len() ==> #[trigger] adds[i] < objs.len() && !livs.contains(adds[i]),
        objs.len() <= usize::MAX,
        rems.no_duplicates(),
        forall|i: int| 0 <= i < rems.len() ==> (livs + adds).contains(#[trigger] rems[i]),
    ensures
        ids_consistent(
            remove_all(add_all(livs, objs, adds).0, add_all(livs, objs, adds).1, rems).0,
            remove_all(add_all(livs, objs, adds).0, add_all(livs, objs, adds).1, rems).1,
        ),
        remove_all(add_all(livs, objs, adds).0, add_all(livs, objs, adds).1, rems).0.to_set() == (livs
            + adds).to_set().difference(rems.to_set()),
        remove_all(add_all(livs, objs, adds).0, add_all(livs, objs, adds).1, rems).0.len() == livs.len()
            + adds.len() - rems.len(),
        remove_all(add_all(livs, objs, adds).0, add_all(livs, objs, adds).1, rems).0.to_multiset() == (livs
            + adds).to_multiset().sub(rems.to_multiset()),
{
    lemma_add_all_consistent(livs, objs, adds);
    let (l1, o1) = add_all(livs, objs, adds);
    lemma_remove_all_consistent(l1, o1, rems);
    let l2 = remove_all(l1, o1, rems).0;
    assert forall|x: usize| #[trigger] l2.to_multiset().count(x) == (livs + adds).to_multiset().sub(
        rems.to_multiset(),
    ).count(x) by {
        lemma_no_dup_count(l2, x);
        lemma_no_dup_count(l1, x);
        lemma_no_dup_count(rems, x);
        assert(l2.to_set().contains(x) == l2.contains(x));
        assert(l1.to_set().contains(x) == l1.contains(x));
        assert(rems.to_set().contains(x) == rems.contains(x));
        if rems.contains(x) {
            let q = choose|q: int| 0 <= q < rems.len() && rems[q] == x;
            assert(l1.contains(rems[q]));
        }
    }
    assert(l2.to_multiset() =~= (livs + adds).to_multiset().sub(rems.to_multiset()));
}

/// In a sequence without duplicates every element occurs once.
proof fn lemma_no_dup_count<A>(s: Seq<A>, x: A)
    requires
        s.no_duplicates(),
    ensures
        s.to_multiset().count(x) == if s.contains(x) { 1nat } else { 0nat },
{
    broadcast use vstd::seq_lib::group_to_multiset_ensures;

    s.lemma_multiset_has_no_duplicates();
    assert(s.contains(x) <==> s.to_multiset().count(x) > 0);
}

proof fn lemma_dead_of<L: Living>(objs: Seq<L>, livs: Seq<usize>)
    requires
        livs.no_duplicates(),
    ensures
        dead_of(objs, livs).no_duplicates(),
        forall|h: usize| #[trigger] dead_of(objs, livs).contains(h) <==> (livs.contains(h) && objs[h as int].spec_hp() <= 0),
    decreases livs.len(),
{
    if livs.len() > 0 {
        let init = livs.drop_last();
        let last = livs.last();
        assert(last == livs[livs.len() - 1]);
        assert(init.no_duplicates()) by {
            assert forall|i: int, j: int| 0 <= i < init.len() && 0 <= j < init.len() && i != j implies init[i] != init[j] by {
                assert(init[i] == livs[i] && init[j] == livs[j]);
            }
        }
        lemma_dead_of(objs, init);
        assert(!init.contains(last)) by {
            if init.contains(last) {
                let q = choose|q: int| 0 <= q < init.len() && init[q] == last;
                assert(livs[q] == last);
            }
        }
        let rest = dead_of(objs, init);
        assert forall|h: usize| livs.contains(h) <==> (init.contains(h) || h == last) by {
            if livs.contains(h) {
                let q = choose|q: int| 0 <= q < livs.len() && livs[q] == h;
                if q < livs.len() - 1 {
                    assert(init[q] == h);
                }
            }
            if init.contains(h) {
                let q = choose|q: int| 0 <= q < init.len() && init[q] == h;
                assert(livs[q] == h);
            }
        }
        if objs[last as int].spec_hp() <= 0 {
            let d = rest.push(last);
            assert(dead_of(objs, livs) == d);
            assert forall|h: usize| d.contains(h) <==> (rest.contains(h) || h == last) by {
                if d.contains(h) {
                    let q = choose|q: int| 0 <= q < d.len() && d[q] == h;
                    if q < rest.len() {
                        assert(rest[q] == h);
                    }
                }
                if rest.contains(h) {
                    let q = choose|q: int| 0 <= q < rest.len() && rest[q] == h;
                    assert(d[q] == h);
                }
                if h == last {
                    assert(d[rest.len() as int] == h);
                }
            }
            assert forall|i: int, j: int| 0 <= i < d.len() && 0 <= j < d.len() && i != j implies d[i] != d[j] by {
                if i == rest.len() {
                    assert(rest.contains(d[j]));
                } else if j == rest.len() {
                    assert(rest.contains(d[i]));
                }
            }
        }
    }
}

proof fn lemma_remove_all_keeps_hp<L: Living>(livs: Seq<usize>, objs: Seq<L>, rems: Seq<usize>)
    requires
        handles_valid(livs, objs.len() as int),
    ensures
        remove_all(livs, objs, rems).1.len() == objs.len(),
        handles_valid(remove_all(livs, objs, rems).0, objs.len() as int),
        forall|k: int| 0 <= k < objs.len() ==> #[trigger] remove_all(livs, objs, rems).1[k].spec_hp() == objs[k].spec_hp(),
    decreases rems.len(),
{
    if rems.len() > 0 {
        lemma_remove_all_keeps_hp(livs, objs, rems.drop_last());
        let (l1, o1) = remove_all(livs, objs, rems.drop_last());
        let h = rems.last();
        let d = o1[h as int].spec_id() as int;
        if d < l1.len() && l1.len() >= 2 && d != l1.len() - 1 {
            let last = l1.last();
            assert(last == l1[l1.len() - 1]);
            o1[last as int].lemma_with_id(d as usize);
            let l2 = l1.update(d, last).drop_last();
            assert forall|i: int| 0 <= i < l2.len() implies #[trigger] l2[i] < objs.len() by {
                if i != d {
                    assert(l2[i] == l1[i]);
                }
            }
            let o2 = o1.update(last as int, o1[last as int].spec_with_id(d as usize));
            assert forall|k: int| 0 <= k < objs.len() implies #[trigger] o2[k].spec_hp() == objs[k].spec_hp() by {
                assert(o1[k].spec_hp() == objs[k].spec_hp());
            }
        } else if d < l1.len() && l1.len() >= 2 {
            assert forall|i: int| 0 <= i < l1.drop_last().len() implies #[trigger] l1.drop_last()[i] < objs.len() by {
                assert(l1.drop_last()[i] == l1[i]);
            }
        }
    }
}

/// Queuing the dead and applying the queue, on a world whose ids agree
/// with its list and that has nothing else queued, leaves exactly the
/// creatures that are alive listed, with ids that still agree.
pub proof fn lemma_removing_the_dead_keeps_the_living<L: Living>(livs: Seq<usize>, objs: Seq<L>)
    requires
        ids_consistent(livs, objs),
    ensures
        ids_consistent(
            remove_all(livs, objs, dead_of(objs, livs)).0,
            remove_all(livs, objs, dead_of(objs, livs)).1,
        ),
        forall|h: usize|
            #[trigger] remove_all(livs, objs, dead_of(objs, livs)).0.contains(h) <==> (livs.contains(h)
                && objs[h as int].spec_hp() > 0),
        forall|i: int|
            0 <= i < remove_all(livs, objs, dead_of(objs, livs)).0.len() ==> #[trigger] remove_all(
                livs,
                objs,
                dead_of(objs, livs),
            ).1[remove_all(livs, objs, dead_of(objs, livs)).0[i] as int].spec_hp() > 0,
{
    let rems = dead_of(objs, livs);
    lemma_dead_of(objs, livs);
    assert forall|i: int| 0 <= i < rems.len() implies livs.contains(#[trigger] rems[i]) by {
        assert(rems.contains(rems[i]));
    }
    lemma_remove_all_consistent(livs, objs, rems);
    let (l2, o2) = remove_all(livs, objs, rems);
    assert forall|h: usize| #[trigger] l2.contains(h) <==> (livs.contains(h) && objs[h as int].spec_hp() > 0) by {
        assert(l2.to_set().contains(h) == l2.contains(h));
        assert(rems.to_set().contains(h) == rems.contains(h));
        assert(livs.to_set().contains(h) == livs.contains(h));
    }
    assert(handles_valid(livs, objs.len() as int)) by {
        assert forall|i: int| 0 <= i < livs.len() implies #[trigger] livs[i] < objs.len() by {
            assert(livs[i] < objs.len() && objs[livs[i] as int].spec_id() == i);
        }
    }
    lemma_remove_all_keeps_hp(livs, objs, rems);
    assert forall|i: int| 0 <= i < l2.len() implies #[trigger] o2[l2[i] as int].spec_hp() > 0 by {
        assert(l2.contains(l2[i]));
        assert(l2[i] < objs.len());
    }
}

/// Lower bound (inclusive) of the coordinates of the first tufts.
pub const PLANT_MIN: i64 = 1;

/// Upper bound (exclusive) of the coordinates of the first tufts.
pub const PLANT_MAX: i64 = 200;

/// Number of tufts the world starts with.
pub const INITIAL_GRASS: usize = 10;

/// Every row of `cells` has `m` cells.
pub open spec fn rectangular(cells: Seq<Seq<u8>>, m: int) -> bool {
    forall|x: int| 0 <= x < cells.len() ==> #[trigger] cells[x].len() == m
}

/// A fresh grid of `width` rows of `height` unpainted cells (`cells[x][y]`).
pub fn new_painted_cells(width: i32, height: i32) -> (cells: Vec<Vec<u8>>)
    requires
        width > 0 ==> height >= 0,
    ensures
        cells_view(&cells) == Seq::new(
            if width > 0 { width as nat } else { 0 },
            |x: int| Seq::new(height as nat, |y: int| 0u8),
        ),
{
    let mut painted: Vec<Vec<u8>> = Vec::new();
    let mut x: i32 = 0;
    while x < width
        invariant
            0 <= x,
            width > 0 ==> x <= width,
            width <= 0 ==> x == 0,
            width > 0 ==> height >= 0,
            cells_view(&painted) =~= Seq::new(x as nat, |i: int| Seq::new(height as nat, |y: int| 0u8)),
        decreases width - x,
    {
        let h: usize = height as usize;
        let mut v: Vec<u8> = Vec::with_capacity(h);
        let mut y: usize = 0;
        while y < h
            invariant
                y <= h,
                h as int == height as int,
                v@ =~= Seq::new(y as nat, |j: int| 0u8),
            decreases h - y,
        {
            v.push(0);
            y = y + 1;
        }
        let ghost before = cells_view(&painted);
        painted.push(v);
        assert(cells_view(&painted) =~= before.push(v@));
        x = x + 1;
    }
    assert(width > 0 ==> x == width);
    assert(cells_view(&painted) =~= Seq::new(
        if width > 0 { width as nat } else { 0 },
        |x: int| Seq::new(height as nat, |y: int| 0u8),
    ));
    painted
}

/// Drawing grass that lies on the field onto a rectangular grid is always
/// defined, and leaves the grid rectangular.
pub proof fn lemma_grass_draw_ok(g: Grass, cells: Seq<Seq<u8>>, m: int, pict: (i32, i32))
    requires
        rectangular(cells, m),
        cells.len() <= i64::MAX / 2,
        m <= i64::MAX / 2,
        on_field(g.pos),
    ensures
        g.draw_ok(cells, pict),
        g.spec_drawn(cells, pict).0.len() == cells.len(),
        rectangular(g.spec_drawn(cells, pict).0, m),
{
    if cells.len() > 0 && g.draw_visible(cells, pict) {
        let br = g.draw_corner(cells, pict);
        assert(cells[br.0].len() == m);
    }
}

/// Drawing grass that lies on the field, one tuft after another, onto a
/// rectangular grid is always defined.
pub proof fn lemma_grass_drawn_all(cells: Seq<Seq<u8>>, m: int, objs: Seq<Grass>, livs: Seq<usize>, pict: (i32, i32))
    requires
        rectangular(cells, m),
        cells.len() <= i64::MAX / 2,
        m <= i64::MAX / 2,
        forall|i: int| 0 <= i < livs.len() ==> on_field(#[trigger] objs[livs[i] as int].pos),
    ensures
        drawn_all(cells, objs, livs, pict).0.len() == cells.len(),
        rectangular(drawn_all(cells, objs, livs, pict).0, m),
        forall|i: int|
            0 <= i < livs.len() ==> #[trigger] objs[livs[i] as int].draw_ok(
                drawn_all(cells, objs, livs.take(i), pict).0,
                pict,
            ),
    decreases livs.len(),
{
    if livs.len() > 0 {
        let init = livs.drop_last();
        assert forall|i: int| 0 <= i < init.len() implies on_field(#[trigger] objs[init[i] as int].pos) by {
            assert(init[i] == livs[i]);
        }
        lemma_grass_drawn_all(cells, m, objs, init, pict);
        let last = livs.last();
        assert(on_field(objs[livs[livs.len() - 1] as int].pos));
        lemma_grass_draw_ok(objs[last as int], drawn_all(cells, objs, init, pict).0, m, pict);
        assert forall|i: int|
            0 <= i < livs.len() implies #[trigger] objs[livs[i] as int].draw_ok(
                drawn_all(cells, objs, livs.take(i), pict).0,
                pict,
            ) by {
            if i < livs.len() - 1 {
                assert(livs.take(i) == init.take(i));
                assert(livs[i] == init[i]);
            } else {
                assert(livs.take(i) == init);
            }
        }
    }
}

/// Drawing the livings of a world of grass, one after another, never
/// unpaints a cell: it only paints cells, and keeps the grid's shape.
pub proof fn lemma_drawn_all_only_paints(cells: Seq<Seq<u8>>, objs: Seq<Grass>, livs: Seq<usize>, pict: (i32, i32))
    ensures
        painted_grows(cells, drawn_all(cells, objs, livs, pict).0),
    decreases livs.len(),
{
    if livs.len() > 0 {
        lemma_drawn_all_only_paints(cells, objs, livs.drop_last(), pict);
        let mid = drawn_all(cells, objs, livs.drop_last(), pict).0;
        crate::living::grass::lemma_draw_only_paints(objs[livs.last() as int], mid, pict);
        let fin = drawn_all(cells, objs, livs, pict).0;
        assert forall|x: int, y: int|
            0 <= x < cells.len() && 0 <= y < cells[x].len() implies (cells[x][y] == 1 ==> #[trigger] fin[x][y]
                == 1) && (fin[x][y] != cells[x][y] ==> fin[x][y] == 1) by {
            assert(mid[x].len() == cells[x].len());
            assert(0 <= y < mid[x].len());
        }
    }
}

/// After updating a world of grass, every listed tuft lies on the field, so
/// that drawing them right after is defined.
pub proof fn lemma_update_puts_livings_on_field(objs: Seq<Grass>, livs: Seq<usize>, deltatime: u128)
    requires
        handles_valid(livs, objs.len() as int),
    ensures
        forall|i: int| 0 <= i < livs.len() ==> on_field(#[trigger] aged_all(objs, livs, deltatime)[livs[i] as int].pos),
    decreases livs.len(),
{
    if livs.len() > 0 {
        let init = livs.drop_last();
        assert forall|i: int| 0 <= i < init.len() implies #[trigger] init[i] < objs.len() by {
            assert(init[i] == livs[i]);
        }
        lemma_update_puts_livings_on_field(objs, init, deltatime);
        lemma_aged_all_len(objs, init, deltatime);
        let o = aged_all(objs, init, deltatime);
        let last = livs.last();
        assert(last == livs[livs.len() - 1]);
        crate::living::grass::lemma_aged_on_field(o[last as int], deltatime);
        assert forall|i: int| 0 <= i < livs.len() implies on_field(#[trigger] aged_all(objs, livs, deltatime)[livs[i] as int].pos) by {
            if livs[i] != last {
                assert(livs[i] == init[i]);
            }
        }
    }
}

/// Updating grass keeps every id.
proof fn lemma_aged_all_ids(objs: Seq<Grass>, livs: Seq<usize>, deltatime: u128)
    requires
        handles_valid(livs, objs.len() as int),
    ensures
        aged_all(objs, livs, deltatime).len() == objs.len(),
        forall|x: int| 0 <= x < objs.len() ==> #[trigger] aged_all(objs, livs, deltatime)[x].id == objs[x].id,
    decreases livs.len(),
{
    lemma_aged_all_len(objs, livs, deltatime);
    if livs.len() > 0 {
        let init = livs.drop_last();
        assert forall|i: int| 0 <= i < init.len() implies #[trigger] init[i] < objs.len() by {
            assert(init[i] == livs[i]);
        }
        lemma_aged_all_ids(objs, init, deltatime);
        assert(livs.last() == livs[livs.len() - 1]);
    }
}

/// One frame of a world of grass whose ids agree with its list and that has
/// nothing queued: update every tuft on the draws `draws`, queue the dead,
/// apply the queues. Afterwards the ids still agree with the list, and the
/// tufts listed are exactly those that were listed and are still alive,
/// and those spawned during the update.
pub proof fn lemma_frame_keeps_ids_consistent(
    objs: Seq<Grass>,
    livs: Seq<usize>,
    deltatime: u128,
    draws: Seq<(i64, i64, i64)>,
)
    requires
        ids_consistent(livs, objs),
        objs.len() + spawn_all(objs, livs, deltatime, draws).len() <= usize::MAX,
    ensures
        ({
            let o1 = aged_all(objs, livs, deltatime) + spawn_all(objs, livs, deltatime, draws);
            let adds = Seq::new(
                spawn_all(objs, livs, deltatime, draws).len(),
                |j: int| (objs.len() + j) as usize,
            );
            let after = remove_all(add_all(livs, o1, adds).0, add_all(livs, o1, adds).1, dead_of(o1, livs));
            &&& ids_consistent(after.0, after.1)
            &&& forall|h: usize|
                #[trigger] after.0.contains(h) <==> (livs.contains(h) && o1[h as int].hp > 0) || (objs.len()
                    <= h < objs.len() + spawn_all(objs, livs, deltatime, draws).len())
        }),
{
    let n0 = objs.len();
    let sp = spawn_all(objs, livs, deltatime, draws);
    let o1 = aged_all(objs, livs, deltatime) + sp;
    let adds = Seq::new(sp.len(), |j: int| (n0 + j) as usize);
    assert(handles_valid(livs, n0 as int)) by {
        assert forall|i: int| 0 <= i < livs.len() implies #[trigger] livs[i] < n0 by {
            assert(livs[i] < objs.len() && objs[livs[i] as int].spec_id() == i);
        }
    }
    lemma_aged_all_ids(objs, livs, deltatime);
    assert(ids_consistent(livs, o1)) by {
        assert forall|i: int| 0 <= i < livs.len() implies #[trigger] livs[i] < o1.len() && o1[livs[i] as int].spec_id() == i by {
            assert(livs[i] < objs.len() && objs[livs[i] as int].spec_id() == i);
            assert(o1[livs[i] as int] == aged_all(objs, livs, deltatime)[livs[i] as int]);
        }
    }
    assert(adds.no_duplicates());
    assert forall|i: int| 0 <= i < adds.len() implies #[trigger] adds[i] < o1.len() && !livs.contains(adds[i]) by {
        if livs.contains(adds[i]) {
            let q = choose|q: int| 0 <= q < livs.len() && livs[q] == adds[i];
            assert(livs[q] < n0);
        }
    }
    let rems = dead_of(o1, livs);
    lemma_dead_of(o1, livs);
    assert forall|i: int| 0 <= i < rems.len() implies (livs + adds).contains(#[trigger] rems[i]) by {
        assert(rems.contains(rems[i]));
        let q = choose|q: int| 0 <= q < livs.len() && livs[q] == rems[i];
        assert((livs + adds)[q] == rems[i]);
    }
    lemma_flush_keeps_ids_consistent(livs, o1, adds, rems);
    let after = remove_all(add_all(livs, o1, adds).0, add_all(livs, o1, adds).1, rems);
    assert forall|h: usize|
        #[trigger] after.0.contains(h) <==> (livs.contains(h) && o1[h as int].hp > 0) || (n0 <= h < n0 + sp.len()) by {
        assert(after.0.to_set().contains(h) == after.0.contains(h));
        assert(rems.to_set().contains(h) == rems.contains(h));
        assert((livs + adds).to_set().contains(h) == (livs + adds).contains(h));
        if n0 <= h < n0 + sp.len() {
            assert((livs + adds)[livs.len() + (h - n0)] == h);
            assert(!livs.contains(h)) by {
                if livs.contains(h) {
                    let q = choose|q: int| 0 <= q < livs.len() && livs[q] == h;
                    assert(livs[q] < n0);
                }
            }
        }
        if livs.contains(h) {
            let q = choose|q: int| 0 <= q < livs.len() && livs[q] == h;
            assert((livs + adds)[q] == h);
        }
        if (livs + adds).contains(h) {
            let q = choose|q: int| 0 <= q < (livs + adds).len() && (livs + adds)[q] == h;
            if q >= livs.len() {
                assert(adds[q - livs.len()] == h);
            } else {
                assert(livs[q] == h);
            }
        }
    }
}

/// The store after updating, on the draws `draws`, the creatures that
/// `livs` names: the updated creatures, then their offspring.
pub open spec fn frame_objects<L: Living>(
    objs: Seq<L>,
    livs: Seq<usize>,
    deltatime: u128,
    draws: Seq<(i64, i64, i64)>,
) -> Seq<L> {
    aged_all(objs, livs, deltatime) + spawn_all(objs, livs, deltatime, draws)
}

/// `after` is `before` after one frame on the draws `draws`: every living
/// creature updated, the offspring queued for addition, the list drawn
/// onto `cells` (giving `cells_after` and the handles `to_paint`), the dead
/// queued for removal and the queues applied (ignoring the handles
/// `ignored`).
pub open spec fn frame_done<L: Living>(
    before: World<L>,
    after: World<L>,
    deltatime: u128,
    draws: Seq<(i64, i64, i64)>,
    cells: Seq<Seq<u8>>,
    pict: (i32, i32),
    cells_after: Seq<Seq<u8>>,
    to_paint: Seq<usize>,
    ignored: Seq<usize>,
) -> bool {
    let livs = before.livings@;
    let o1 = frame_objects(before.objects@, livs, deltatime, draws);
    let adds = before.to_be_added@ + Seq::new(
        spawn_all(before.objects@, livs, deltatime, draws).len(),
        |k: int| (before.objects@.len() + k) as usize,
    );
    let rems = before.to_be_removed@ + dead_of(o1, livs);
    let added = add_all(livs, o1, adds);
    &&& (cells_after, to_paint) == drawn_all(cells, o1, livs, pict)
    &&& (after.livings@, after.objects@) == remove_all(added.0, added.1, rems)
    &&& ignored == ignored_all(added.0, added.1, rems)
    &&& after.to_be_added@ == Seq::<usize>::empty()
    &&& after.to_be_removed@ == Seq::<usize>::empty()
    &&& after.chunks == before.chunks
}

/// Applying empty queues changes nothing.
pub proof fn lemma_flush_empty_queues<L: Living>(livs: Seq<usize>, objs: Seq<L>)
    ensures
        remove_all(add_all(livs, objs, Seq::empty()).0, add_all(livs, objs, Seq::empty()).1, Seq::empty()) == (livs, objs),
{
}

impl World<Grass> {
    /// Whether updating every living tuft by `deltatime` milliseconds is
    /// defined: no hit points leave the range of `i64` on the way.
    pub fn can_update_livings(&self, deltatime: u128) -> (ok: bool)
        requires
            self.wf(),
        ensures
            ok == forall|i: int|
                0 <= i < self.livings@.len() ==> #[trigger] before_update(
                    self.objects@,
                    self.livings@,
                    deltatime,
                    i,
                ).update_ok(deltatime),
    {
        #[verifier::truncate]
        let step: i64 = deltatime as i64;
        let ghost o0 = self.objects@;
        let mut hps: Vec<i64> = Vec::new();
        let n_obj = self.objects.len();
        let mut k: usize = 0;
        while k < n_obj
            invariant
                k <= n_obj,
                n_obj == self.objects@.len(),
                hps@.len() == k,
                forall|j: int| 0 <= j < k ==> #[trigger] hps@[j] == self.objects@[j].hp,
            decreases n_obj - k,
        {
            hps.push(self.objects[k].hp);
            k = k + 1;
        }
        let n = self.livings.len();
        let mut i: usize = 0;
        while i < n
            invariant
                self.wf(),
                i <= n,
                n == self.livings@.len(),
                hps@.len() == self.objects@.len(),
                step == (deltatime as i64),
                forall|j: int| 0 <= j < hps@.len() ==> #[trigger] hps@[j] == aged_all(
                    self.objects@,
                    self.livings@.take(i as int),
                    deltatime,
                )[j].hp,
                forall|j: int|
                    0 <= j < i ==> #[trigger] before_update(
                        self.objects@,
                        self.livings@,
                        deltatime,
                        j,
                    ).update_ok(deltatime),
            decreases n - i,
        {
            let h = self.livings[i];
            proof {
                lemma_aged_all_len(self.objects@, self.livings@.take(i as int), deltatime);
                assert(self.livings@.take(i + 1).drop_last() == self.livings@.take(i as int));
            }
            let hp = hps[h];
            let ghost prev = before_update(self.objects@, self.livings@, deltatime, i as int);
            assert(hps@[h as int] == prev.hp);
            if hp < 0 && step > 0 && hp < i64::MIN + step {
                assert(!prev.update_ok(deltatime));
                return false;
            }
            if hp >= 0 && step < 0 && hp > i64::MAX + step {
                assert(!prev.update_ok(deltatime));
                return false;
            }
            hps.set(h, hp - step);
            assert(aged_all(self.objects@, self.livings@.take(i + 1), deltatime) == aged_all(
                self.objects@,
                self.livings@.take(i as int),
                deltatime,
            ).update(h as int, prev.spec_aged(deltatime)));
            i = i + 1;
        }
        assert(self.livings@.take(n as int) == self.livings@);
        true
    }

    /// Whether every living tuft lies on the field.
    pub fn livings_on_field(&self) -> (ok: bool)
        requires
            self.wf(),
        ensures
            ok == forall|i: int| 0 <= i < self.livings@.len() ==> on_field(#[trigger] self.objects@[self.livings@[i] as int].pos),
    {
        let n = self.livings.len();
        let mut i: usize = 0;
        while i < n
            invariant
                self.wf(),
                i <= n,
                n == self.livings@.len(),
                forall|j: int| 0 <= j < i ==> on_field(#[trigger] self.objects@[self.livings@[j] as int].pos),
            decreases n - i,
        {
            let pos = self.objects[self.livings[i]].pos;
            if !(0 <= pos.0 && pos.0 <= FIELD_WIDTH && 0 <= pos.1 && pos.1 <= FIELD_HEIGHT) {
                return false;
            }
            i = i + 1;
        }
        true
    }

    /// Draws every living tuft, all lying on the field, onto a rectangular
    /// grid; returns the handles of those whose picture is to be painted.
    pub fn draw_livings_on_field(&self, painted_cells: &mut Vec<Vec<u8>>, pict: (i32, i32)) -> (to_paint: Vec<usize>)
        requires
            self.wf(),
            old(painted_cells)@.len() > 0 ==> rectangular(cells_view(old(painted_cells)), cells_view(old(painted_cells))[0].len() as int),
            old(painted_cells)@.len() <= i64::MAX / 2,
            old(painted_cells)@.len() > 0 ==> cells_view(old(painted_cells))[0].len() <= i64::MAX / 2,
            forall|i: int| 0 <= i < self.livings@.len() ==> on_field(#[trigger] self.objects@[self.livings@[i] as int].pos),
        ensures
            (cells_view(final(painted_cells)), to_paint@) == drawn_all(
                cells_view(old(painted_cells)),
                self.objects@,
                self.livings@,
                pict,
            ),
    {
        let ghost cells = cells_view(painted_cells);
        proof {
            let m: int = if cells.len() > 0 { cells[0].len() as int } else { 0 };
            lemma_grass_drawn_all(cells, m, self.objects@, self.livings@, pict);
        }
        self.draw_livings(painted_cells, pict)
    }

    /// Runs one frame on the draws `draws`: updates every living tuft by
    /// `deltatime` milliseconds, draws the livings onto `painted_cells`,
    /// queues the dead for removal and applies the queues. Returns the
    /// handles whose picture is to be painted and the handles whose removal
    /// was ignored. On a world whose ids agree with its list and that has
    /// nothing queued, the ids agree afterwards, and exactly the tufts that
    /// were listed and are still alive, and those spawned, are listed.
    pub fn frame_with_draws(
        &mut self,
        deltatime: u128,
        draws: &Vec<(i64, i64, i64)>,
        painted_cells: &mut Vec<Vec<u8>>,
        pict: (i32, i32),
    ) -> (r: (Vec<usize>, Vec<usize>))
        requires
            old(self).wf(),
            draws@.len() == old(self).livings@.len(),
            forall|i: int| 0 <= i < draws@.len() ==> Grass::possible_draw(#[trigger] draws@[i]),
            forall|i: int|
                0 <= i < old(self).livings@.len() ==> #[trigger] before_update(
                    old(self).objects@,
                    old(self).livings@,
                    deltatime,
                    i,
                ).update_ok(deltatime),
            old(painted_cells)@.len() > 0 ==> rectangular(cells_view(old(painted_cells)), cells_view(old(painted_cells))[0].len() as int),
            old(painted_cells)@.len() <= i64::MAX / 2,
            old(painted_cells)@.len() > 0 ==> cells_view(old(painted_cells))[0].len() <= i64::MAX / 2,
        ensures
            final(self).wf(),
            frame_done(
                *old(self),
                *final(self),
                deltatime,
                draws@,
                cells_view(old(painted_cells)),
                pict,
                cells_view(final(painted_cells)),
                r.0@,
                r.1@,
            ),
            ids_consistent(old(self).livings@, old(self).objects@) && old(self).to_be_added@.len() == 0
                && old(self).to_be_removed@.len() == 0 ==> {
                &&& ids_consistent(final(self).livings@, final(self).objects@)
                &&& forall|h: usize|
                    #[trigger] final(self).livings@.contains(h) <==> (old(self).livings@.contains(h)
                        && frame_objects(old(self).objects@, old(self).livings@, deltatime, draws@)[h as int].hp
                        > 0) || (old(self).objects@.len() <= h < old(self).objects@.len() + spawn_all(
                        old(self).objects@,
                        old(self).livings@,
                        deltatime,
                        draws@,
                    ).len())
            },
    {
        let ghost o0 = self.objects@;
        let ghost l0 = self.livings@;
        self.update_livings_with_draws(deltatime, draws);
        proof {
            lemma_update_puts_livings_on_field(o0, l0, deltatime);
            lemma_aged_all_len(o0, l0, deltatime);
            assert forall|i: int| 0 <= i < self.livings@.len() implies on_field(#[trigger] self.objects@[self.livings@[i] as int].pos) by {
                assert(self.livings@[i] < o0.len());
                assert(self.objects@[self.livings@[i] as int] == aged_all(o0, l0, deltatime)[l0[i] as int]);
            }
            assert(self.objects.len() <= usize::MAX);
        }
        let to_paint = self.draw_livings_on_field(painted_cells, pict);
        self.remove_dead();
        let ignored = self.flush_modify_livings();
        proof {
            if ids_consistent(l0, o0) && old(self).to_be_added@.len() == 0 && old(self).to_be_removed@.len() == 0 {
                lemma_frame_keeps_ids_consistent(o0, l0, deltatime, draws@);
                assert(old(self).to_be_added@ + Seq::new(
                    spawn_all(o0, l0, deltatime, draws@).len(),
                    |k: int| (o0.len() + k) as usize,
                ) =~= Seq::new(spawn_all(o0, l0, deltatime, draws@).len(), |k: int| (o0.len() + k) as usize));
                assert(old(self).to_be_removed@ + dead_of(frame_objects(o0, l0, deltatime, draws@), l0) =~= dead_of(
                    frame_objects(o0, l0, deltatime, draws@),
                    l0,
                ));
            }
        }
        (to_paint, ignored)
    }

    /// Runs one frame on fresh random draws, as `frame_with_draws` does.
    pub fn frame(&mut self, deltatime: u128, painted_cells: &mut Vec<Vec<u8>>, pict: (i32, i32)) -> (r: (
        Vec<usize>,
        Vec<usize>,
    ))
        requires
            old(self).wf(),
            forall|i: int|
                0 <= i < old(self).livings@.len() ==> #[trigger] before_update(
                    old(self).objects@,
                    old(self).livings@,
                    deltatime,
                    i,
                ).update_ok(deltatime),
            old(painted_cells)@.len() > 0 ==> rectangular(cells_view(old(painted_cells)), cells_view(old(painted_cells))[0].len() as int),
            old(painted_cells)@.len() <= i64::MAX / 2,
            old(painted_cells)@.len() > 0 ==> cells_view(old(painted_cells))[0].len() <= i64::MAX / 2,
        ensures
            final(self).wf(),
            exists|draws: Seq<(i64, i64, i64)>|
                {
                    &&& draws.len() == old(self).livings@.len()
                    &&& forall|i: int| 0 <= i < draws.len() ==> Grass::possible_draw(#[trigger] draws[i])
                    &&& #[trigger] frame_done(
                        *old(self),
                        *final(self),
                        deltatime,
                        draws,
                        cells_view(old(painted_cells)),
                        pict,
                        cells_view(final(painted_cells)),
                        r.0@,
                        r.1@,
                    )
                },
    {
        let n = self.livings.len();
        let mut draws: Vec<(i64, i64, i64)> = Vec::new();
        let mut i: usize = 0;
        while i < n
            invariant
                i <= n,
                draws@.len() == i,
                forall|j: int| 0 <= j < draws@.len() ==> Grass::possible_draw(#[trigger] draws@[j]),
            decreases n - i,
        {
            draws.push(Grass::random_draw());
            i = i + 1;
        }
        self.frame_with_draws(deltatime, &draws, painted_cells, pict)
    }

    /// Shares new tufts of `NEW_GRASS_HP` hit points at `positions`, in
    /// order, with the world and queues them for addition.
    pub fn plant_grass_at(&mut self, positions: &Vec<(i64, i64)>)
        requires
            old(self).wf(),
        ensures
            final(self).wf(),
            final(self).chunks == old(self).chunks,
            final(self).livings@ == old(self).livings@,
            final(self).to_be_removed@ == old(self).to_be_removed@,
            final(self).objects@ == old(self).objects@ + Seq::new(
                positions@.len(),
                |k: int| Grass { hp: NEW_GRASS_HP, pos: positions@[k], id: 0 },
            ),
            final(self).to_be_added@ == old(self).to_be_added@ + Seq::new(
                positions@.len(),
                |k: int| (old(self).objects@.len() + k) as usize,
            ),
    {
        let ghost n0 = self.objects@.len();
        let n = positions.len();
        let mut i: usize = 0;
        while i < n
            invariant
                self.wf(),
                i <= n,
                n == positions@.len(),
                self.livings@ == old(self).livings@,
                self.to_be_removed@ == old(self).to_be_removed@,
                self.chunks == old(self).chunks,
                n0 == old(self).objects@.len(),
                self.objects@ == old(self).objects@ + Seq::new(
                    i as nat,
                    |k: int| Grass { hp: NEW_GRASS_HP, pos: positions@[k], id: 0 },
                ),
                self.to_be_added@ == old(self).to_be_added@ + Seq::new(i as nat, |k: int| (n0 + k) as usize),
            decreases n - i,
        {
            let h = self.new_living(Grass::new(NEW_GRASS_HP, positions[i]));
            self.add_living(h);
            assert(self.objects@ =~= old(self).objects@ + Seq::new(
                (i + 1) as nat,
                |k: int| Grass { hp: NEW_GRASS_HP, pos: positions@[k], id: 0 },
            ));
            assert(self.to_be_added@ =~= old(self).to_be_added@ + Seq::new((i + 1) as nat, |k: int| (n0 + k) as usize));
            i = i + 1;
        }
        assert(self.objects@ =~= old(self).objects@ + Seq::new(
            positions@.len(),
            |k: int| Grass { hp: NEW_GRASS_HP, pos: positions@[k], id: 0 },
        ));
    }

    /// Scatters `count` new tufts of `NEW_GRASS_HP` hit points at random
    /// positions with both coordinates in `[PLANT_MIN, PLANT_MAX)`, and
    /// queues them for addition.
    pub fn plant_grass(&mut self, count: usize)
        requires
            old(self).wf(),
        ensures
            final(self).wf(),
            final(self).chunks == old(self).chunks,
            final(self).livings@ == old(self).livings@,
            final(self).to_be_removed@ == old(self).to_be_removed@,
            final(self).objects@.len() == old(self).objects@.len() + count,
            final(self).objects@.take(old(self).objects@.len() as int) == old(self).objects@,
            final(self).to_be_added@ == old(self).to_be_added@ + Seq::new(
                count as nat,
                |k: int| (old(self).objects@.len() + k) as usize,
            ),
            forall|k: int|
                old(self).objects@.len() <= k < final(self).objects@.len() ==> {
                    &&& (#[trigger] final(self).objects@[k]).hp == NEW_GRASS_HP
                    &&& final(self).objects@[k].id == 0
                    &&& PLANT_MIN <= final(self).objects@[k].pos.0 < PLANT_MAX
                    &&& PLANT_MIN <= final(self).objects@[k].pos.1 < PLANT_MAX
                },
    {
        let mut positions: Vec<(i64, i64)> = Vec::new();
        let mut i: usize = 0;
        while i < count
            invariant
                i <= count,
                positions@.len() == i,
                forall|k: int|
                    0 <= k < i ==> PLANT_MIN <= (#[trigger] positions@[k]).0 < PLANT_MAX && PLANT_MIN
                        <= positions@[k].1 < PLANT_MAX,
            decreases count - i,
        {
            let x = random::gen_range(PLANT_MIN, PLANT_MAX);
            let y = random::gen_range(PLANT_MIN, PLANT_MAX);
            positions.push((x, y));
            i = i + 1;
        }
        self.plant_grass_at(&positions);
        let ghost n0 = old(self).objects@.len();
        assert(self.objects@.take(n0 as int) =~= old(self).objects@);
        assert forall|k: int| n0 <= k < self.objects@.len() implies {
            &&& (#[trigger] self.objects@[k]).hp == NEW_GRASS_HP
            &&& self.objects@[k].id == 0
            &&& PLANT_MIN <= self.objects@[k].pos.0 < PLANT_MAX
            &&& PLANT_MIN <= self.objects@[k].pos.1 < PLANT_MAX
        } by {
            assert(self.objects@[k] == Grass { hp: NEW_GRASS_HP, pos: positions@[k - n0], id: 0 });
        }
    }
}

} // verus!
