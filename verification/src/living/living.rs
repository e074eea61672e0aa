//! What every creature of the world offers.

use vstd::prelude::*;

verus! {

/// The painted-cell grid as plain sequences: `cells[x][y]` is `1` where a
/// picture has already been painted.
pub open spec fn cells_view(cells: &Vec<Vec<u8>>) -> Seq<Seq<u8>> {
    cells@.map_values(|row: Vec<u8>| row@)
}

/// Cells only ever get painted: `after` has the shape of `before`, every
/// painted cell stays painted, and every cell that changed is painted now.
pub open spec fn painted_grows(before: Seq<Seq<u8>>, after: Seq<Seq<u8>>) -> bool {
    &&& after.len() == before.len()
    &&& forall|x: int| 0 <= x < before.len() ==> #[trigger] after[x].len() == before[x].len()
    &&& forall|x: int, y: int|
        0 <= x < before.len() && 0 <= y < before[x].len() ==> (before[x][y] == 1 ==> #[trigger] after[x][y]
            == 1) && (after[x][y] != before[x][y] ==> after[x][y] == 1)
}

/// A creature of the world.
///
/// Each operation is described by spec functions that an implementor
/// defines, so that the world can state exactly what it does to the
/// creatures it holds.
pub trait Living: Sized + Send + Sync {
    /// Position on the field.
    spec fn spec_pos(&self) -> (i64, i64);

    /// Hit points; a creature with no hit points left is dead.
    spec fn spec_hp(&self) -> i64;

    /// Index of the creature in the world's list of livings.
    spec fn spec_id(&self) -> usize;

    /// The same creature with its id replaced.
    spec fn spec_with_id(&self, id: usize) -> Self;

    /// The same creature moved to `pos`.
    spec fn spec_with_pos(&self, pos: (i64, i64)) -> Self;

    /// The same creature with its hit points replaced.
    spec fn spec_with_hp(&self, hp: i64) -> Self;

    /// Whether one update with a time step of `deltatime` is defined.
    spec fn update_ok(&self, deltatime: u128) -> bool;

    /// The creature after one update with a time step of `deltatime`.
    spec fn spec_aged(&self, deltatime: u128) -> Self;

    /// Whether `draw` is a set of random draws that one update can make.
    spec fn possible_draw(draw: (i64, i64, i64)) -> bool;

    /// The offspring, if any, that one update with a time step of
    /// `deltatime` spawns on the random draws `draw`.
    spec fn spec_spawn(&self, deltatime: u128, draw: (i64, i64, i64)) -> Option<Self>;

    /// Whether drawing onto `cells` with a picture of size `pict` is defined.
    spec fn draw_ok(&self, cells: Seq<Seq<u8>>, pict: (i32, i32)) -> bool;

    /// The cells after drawing, and whether the picture is to be painted.
    spec fn spec_drawn(&self, cells: Seq<Seq<u8>>, pict: (i32, i32)) -> (Seq<Seq<u8>>, bool);

    /// Replacing the id changes nothing but the id.
    proof fn lemma_with_id(&self, id: usize)
        ensures
            self.spec_with_id(id).spec_id() == id,
            self.spec_with_id(id).spec_hp() == self.spec_hp(),
            self.spec_with_id(id).spec_pos() == self.spec_pos(),
    ;

    fn get_pos(&self) -> (pos: (i64, i64))
        ensures
            pos == self.spec_pos(),
    ;

    fn set_pos(&mut self, pos: (i64, i64))
        ensures
            *final(self) == old(self).spec_with_pos(pos),
    ;

    fn get_hp(&self) -> (hp: i64)
        ensures
            hp == self.spec_hp(),
    ;

    fn set_hp(&mut self, hp: i64)
        ensures
            *final(self) == old(self).spec_with_hp(hp),
    ;

    fn get_id(&self) -> (id: usize)
        ensures
            id == self.spec_id(),
    ;

    fn set_id(&mut self, id: usize)
        ensures
            *final(self) == old(self).spec_with_id(id),
    ;

    /// Makes the random draws of one update.
    fn random_draw() -> (draw: (i64, i64, i64))
        ensures
            Self::possible_draw(draw),
    ;

    /// Advances the creature by `deltatime` milliseconds on the random draws
    /// `draw`; returns the offspring it spawned, if any.
    fn update_with_draws(&mut self, deltatime: u128, draw: (i64, i64, i64)) -> (offspring: Option<Self>)
        requires
            old(self).update_ok(deltatime),
            Self::possible_draw(draw),
        ensures
            *final(self) == old(self).spec_aged(deltatime),
            offspring == old(self).spec_spawn(deltatime, draw),
    ;

    /// Advances the creature by `deltatime` milliseconds on fresh random
    /// draws; returns the offspring it spawned, if any.
    fn update(&mut self, deltatime: u128) -> (offspring: Option<Self>)
        requires
            old(self).update_ok(deltatime),
        ensures
            *final(self) == old(self).spec_aged(deltatime),
            exists|draw: (i64, i64, i64)|
                Self::possible_draw(draw) && offspring == #[trigger] old(self).spec_spawn(deltatime, draw),
    ;

    /// Marks the cells that the creature's picture covers; returns whether
    /// the picture is to be painted at the creature's position.
    fn draw(&self, painted_cells: &mut Vec<Vec<u8>>, pict: (i32, i32)) -> (paint: bool)
        requires
            self.draw_ok(cells_view(old(painted_cells)), pict),
        ensures
            (cells_view(final(painted_cells)), paint) == self.spec_drawn(
                cells_view(old(painted_cells)),
                pict,
            ),
    ;

    /// A creature is dead once its hit points are used up.
    fn is_dead(&self) -> (dead: bool)
        ensures
            dead == (self.spec_hp() <= 0),
    {
        self.get_hp() <= 0
    }
}

} // verus!
