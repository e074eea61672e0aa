//! Grass: a creature that withers with time, stays on the field and now and
//! then spreads a new tuft next to itself.

use crate::living::living::{cells_view, painted_grows, Living};
use crate::random;
use vstd::prelude::*;

verus! {

/// Right edge of the field: positions are kept in `[0, FIELD_WIDTH]`.
pub const FIELD_WIDTH: i64 = 640;

/// Bottom edge of the field: positions are kept in `[0, FIELD_HEIGHT]`.
pub const FIELD_HEIGHT: i64 = 480;

/// One update in this many spawns a new tuft.
pub const SPAWN_ODDS: i64 = 100;

/// A new tuft lands at an offset in `[-SPAWN_RADIUS, SPAWN_RADIUS)` on each axis.
pub const SPAWN_RADIUS: i64 = 30;

/// Hit points of a newly spawned tuft.
pub const NEW_GRASS_HP: i64 = 10000;

/// A tuft of grass.
#[derive(Clone, Copy, Debug, PartialEq, Eq)]
pub struct Grass {
    pub hp: i64,
    pub pos: (i64, i64),
    pub id: usize,
}

/// `v` kept within `[0, hi]`.
pub open spec fn clamp_axis(v: i64, hi: i64) -> i64 {
    if v < 0 {
        0
    } else if v > hi {
        hi
    } else {
        v
    }
}

/// `pos` kept on the field.
pub open spec fn clamp_to_field(pos: (i64, i64)) -> (i64, i64) {
    (clamp_axis(pos.0, FIELD_WIDTH), clamp_axis(pos.1, FIELD_HEIGHT))
}

/// The position lies on the field.
pub open spec fn on_field(pos: (i64, i64)) -> bool {
    0 <= pos.0 <= FIELD_WIDTH && 0 <= pos.1 <= FIELD_HEIGHT
}

/// The bottom-right cell a picture ending at `end` reaches on an axis of
/// `n` cells (`n > 0`).
pub open spec fn corner(end: int, n: int) -> int {
    if end >= n {
        n - 1
    } else if end < 0 {
        0
    } else {
        end
    }
}

/// `cells` with every cell of rows `x0..=x1` and columns `y0..=y1` set to 1.
pub open spec fn fill_rect(cells: Seq<Seq<u8>>, x0: int, x1: int, y0: int, y1: int) -> Seq<
    Seq<u8>,
> {
    Seq::new(
        cells.len(),
        |x: int|
            if x0 <= x <= x1 {
                Seq::new(cells[x].len(), |y: int| if y0 <= y <= y1 { 1u8 } else { cells[x][y] })
            } else {
                cells[x]
            },
    )
}

/// Drawing a tuft that lies right and below of the grid's origin onto a
/// non-empty grid. Let `(x1, y1)` be the bottom-right cell its picture
/// reaches, clamped to the grid. When the picture reaches no cell right and
/// below of the tuft, nothing is painted and the grid stays as it was.
/// Otherwise the picture is skipped (nothing painted, grid unchanged)
/// exactly when its top-left cell, the cell `(x1, y1)` and the cell midway
/// between them are all painted already; in every other case it is painted,
/// and every cell of the rectangle from the top-left cell to `(x1, y1)` is
/// marked, and no other cell changes.
pub proof fn lemma_draw_skips_only_covered(g: Grass, cells: Seq<Seq<u8>>, pict: (i32, i32))
    requires
        g.draw_ok(cells, pict),
        cells.len() > 0,
        cells[0].len() > 0,
        g.pos.0 >= 0,
        g.pos.1 >= 0,
    ensures
        ({
            let x0 = g.pos.0 as int;
            let y0 = g.pos.1 as int;
            let ex = x0 + pict.0;
            let ey = y0 + pict.1;
            let x1 = if ex < 0 { 0 } else if ex > cells.len() - 1 { cells.len() - 1 } else { ex };
            let y1 = if ey < 0 { 0 } else if ey > cells[0].len() - 1 { cells[0].len() - 1 } else { ey };
            let after = g.spec_drawn(cells, pict).0;
            let paint = g.spec_drawn(cells, pict).1;
            let covered = cells[x0][y0] == 1 && cells[x1][y1] == 1 && cells[(x0 + x1) / 2][(y0 + y1) / 2] == 1;
            &&& !(x1 > x0 && y1 > y0) ==> !paint && after == cells
            &&& x1 > x0 && y1 > y0 ==> (paint <==> !covered)
            &&& !paint ==> after == cells
            &&& paint ==> {
                &&& after.len() == cells.len()
                &&& forall|x: int| 0 <= x < cells.len() ==> #[trigger] after[x].len() == cells[x].len()
                &&& forall|x: int, y: int|
                    0 <= x < cells.len() && 0 <= y < cells[x].len() ==> #[trigger] after[x][y] == if x0 <= x
                        <= x1 && y0 <= y <= y1 {
                        1u8
                    } else {
                        cells[x][y]
                    }
            }
        }),
{
}

/// An update spawns a tuft exactly on a roll of 0: on any other possible
/// roll it spawns nothing. The tuft it spawns is new (hit points
/// `NEW_GRASS_HP`, id 0) and lands at the drawn offset from the updating
/// tuft's position once that is kept on the field.
pub proof fn lemma_spawn_exactly_on_zero(g: Grass, deltatime: u128, draw: (i64, i64, i64))
    requires
        Grass::possible_draw(draw),
    ensures
        (g.spec_spawn(deltatime, draw) is Some) <==> draw.0 == 0,
        g.spec_spawn(deltatime, draw) is Some ==> ({
            let child = g.spec_spawn(deltatime, draw).unwrap();
            let px = if g.pos.0 < 0 { 0 } else if g.pos.0 > 640 { 640 } else { g.pos.0 as int };
            let py = if g.pos.1 < 0 { 0 } else if g.pos.1 > 480 { 480 } else { g.pos.1 as int };
            &&& child.hp == 10000
            &&& child.id == 0
            &&& child.pos.0 == px + draw.1
            &&& child.pos.1 == py + draw.2
        }),
        0 <= draw.0 < 100,
{
}

/// An update leaves the tuft on the field, whatever its position before.
pub proof fn lemma_aged_on_field(g: Grass, deltatime: u128)
    ensures
        on_field(g.spec_aged(deltatime).pos),
        g.spec_aged(deltatime).id == g.id,
{
}

/// A spawned tuft is new (full hit points, id 0) and lands within
/// `SPAWN_RADIUS` of its parent's position after the update.
pub proof fn lemma_offspring_near_parent(g: Grass, deltatime: u128, draw: (i64, i64, i64))
    requires
        Grass::possible_draw(draw),
        g.spec_spawn(deltatime, draw) is Some,
    ensures
        ({
            let child = g.spec_spawn(deltatime, draw).unwrap();
            &&& child.hp == NEW_GRASS_HP
            &&& child.id == 0
            &&& g.spec_aged(deltatime).pos.0 - SPAWN_RADIUS <= child.pos.0 < g.spec_aged(deltatime).pos.0 + SPAWN_RADIUS
            &&& g.spec_aged(deltatime).pos.1 - SPAWN_RADIUS <= child.pos.1 < g.spec_aged(deltatime).pos.1 + SPAWN_RADIUS
        }),
{
    lemma_aged_on_field(g, deltatime);
}

/// Drawing only paints: the grid keeps its shape, painted cells stay
/// painted, and the cells that change become painted.
pub proof fn lemma_draw_only_paints(g: Grass, cells: Seq<Seq<u8>>, pict: (i32, i32))
    ensures
        painted_grows(cells, g.spec_drawn(cells, pict).0),
{
}

/// Drawing a tuft that lies right and below of the grid's origin a second
/// time, right after the first, is defined and changes nothing: the first
/// drawing either skipped the picture or marked its corners and centre.
/// Left out: a first drawing that marked cells where the sum of a corner's
/// coordinates leaves `i64`, on which the second drawing overflows.
pub proof fn lemma_draw_twice(g: Grass, cells: Seq<Seq<u8>>, pict: (i32, i32))
    requires
        g.draw_ok(cells, pict),
        g.pos.0 >= 0,
        g.pos.1 >= 0,
        g.spec_drawn(cells, pict).1 ==> g.pos.0 + g.draw_corner(cells, pict).0 <= i64::MAX && g.pos.1
            + g.draw_corner(cells, pict).1 <= i64::MAX,
    ensures
        g.draw_ok(g.spec_drawn(cells, pict).0, pict),
        g.spec_drawn(g.spec_drawn(cells, pict).0, pict) == (g.spec_drawn(cells, pict).0, false),
{
    let c1 = g.spec_drawn(cells, pict).0;
    if g.draw_visible(cells, pict) {
        let br = g.draw_corner(cells, pict);
        let (tl0, tl1) = (g.pos.0 as int, g.pos.1 as int);
        if c1 != cells {
            assert(c1 == fill_rect(cells, tl0, br.0, tl1, br.1));
            assert(c1.len() == cells.len());
            assert(c1[0].len() == cells[0].len());
            assert(g.draw_corner(c1, pict) == br);
            assert(c1[br.0][br.1] == 1);
            assert(c1[tl0][tl1] == 1);
            assert(c1[(tl0 + br.0) / 2][(tl1 + br.1) / 2] == 1);
            assert forall|x: int| tl0 <= x <= br.0 implies #[trigger] c1[x].len() > br.1 by {
                assert(cells[x].len() > br.1);
            }
        }
    }
}

impl Grass {
    /// A new tuft with `hp` hit points at `pos`; its id is 0 until the
    /// world takes it in.
    pub fn new(hp: i64, pos: (i64, i64)) -> (grass: Grass)
        ensures
            grass == (Grass { hp, pos, id: 0 }),
    {
        Grass { hp: hp, pos: pos, id: 0 }
    }

    /// The tuft that this one spreads at offset `(dx, dy)` from itself.
    pub open spec fn spec_offspring(self, dx: i64, dy: i64) -> Grass {
        Grass { hp: NEW_GRASS_HP, pos: ((self.pos.0 + dx) as i64, (self.pos.1 + dy) as i64), id: 0 }
    }

    /// The tuft that this one spreads at offset `(dx, dy)` from itself.
    pub fn offspring(&self, dx: i64, dy: i64) -> (child: Grass)
        requires
            i64::MIN <= self.pos.0 + dx <= i64::MAX,
            i64::MIN <= self.pos.1 + dy <= i64::MAX,
        ensures
            child == self.spec_offspring(dx, dy),
    {
        Grass::new(NEW_GRASS_HP, (self.pos.0 + dx, self.pos.1 + dy))
    }

    /// The cell that the bottom-right corner of the picture reaches, clamped
    /// to the grid.
    pub open spec fn draw_corner(self, cells: Seq<Seq<u8>>, pict: (i32, i32)) -> (int, int) {
        (corner(self.pos.0 + pict.0, cells.len() as int), corner(self.pos.1 + pict.1, cells[0].len() as int))
    }

    /// Whether drawing is past its checks: the grid is not empty and the
    /// picture reaches at least one cell to the right and below.
    pub open spec fn draw_visible(self, cells: Seq<Seq<u8>>, pict: (i32, i32)) -> bool {
        let br = self.draw_corner(cells, pict);
        &&& cells.len() > 0
        &&& cells[0].len() > 0
        &&& br.1 - self.pos.1 > 0
        &&& br.0 - self.pos.0 > 0
    }
}

impl Living for Grass {
    open spec fn spec_pos(&self) -> (i64, i64) {
        self.pos
    }

    open spec fn spec_hp(&self) -> i64 {
        self.hp
    }

    open spec fn spec_id(&self) -> usize {
        self.id
    }

    open spec fn spec_with_id(&self, id: usize) -> Grass {
        Grass { id, ..*self }
    }

    open spec fn spec_with_pos(&self, pos: (i64, i64)) -> Grass {
        Grass { pos, ..*self }
    }

    open spec fn spec_with_hp(&self, hp: i64) -> Grass {
        Grass { hp, ..*self }
    }

    open spec fn update_ok(&self, deltatime: u128) -> bool {
        i64::MIN <= self.hp - (deltatime as i64) <= i64::MAX
    }

    open spec fn spec_aged(&self, deltatime: u128) -> Grass {
        Grass { hp: (self.hp - (deltatime as i64)) as i64, pos: clamp_to_field(self.pos), id: self.id }
    }

    /// A roll in `[0, SPAWN_ODDS)` and an offset in `[-SPAWN_RADIUS, SPAWN_RADIUS)`
    /// on each axis.
    open spec fn possible_draw(draw: (i64, i64, i64)) -> bool {
        &&& 0 <= draw.0 < SPAWN_ODDS
        &&& -SPAWN_RADIUS <= draw.1 < SPAWN_RADIUS
        &&& -SPAWN_RADIUS <= draw.2 < SPAWN_RADIUS
    }

    /// A roll of 0 spawns a tuft at the offset from the updated tuft.
    open spec fn spec_spawn(&self, deltatime: u128, draw: (i64, i64, i64)) -> Option<Grass> {
        if draw.0 == 0 {
            Some(self.spec_aged(deltatime).spec_offspring(draw.1, draw.2))
        } else {
            None
        }
    }

    open spec fn draw_ok(&self, cells: Seq<Seq<u8>>, pict: (i32, i32)) -> bool {
        let br = self.draw_corner(cells, pict);
        let (tl0, tl1) = (self.pos.0 as int, self.pos.1 as int);
        cells.len() > 0 && cells[0].len() > 0 ==> {
            &&& cells.len() <= i64::MAX
            &&& cells[0].len() <= i64::MAX
            &&& i64::MIN <= tl0 + pict.0 <= i64::MAX
            &&& i64::MIN <= tl1 + pict.1 <= i64::MAX
            &&& br.1 - tl1 <= i64::MAX
            &&& (br.1 - tl1 > 0 ==> br.0 - tl0 <= i64::MAX)
            &&& self.draw_visible(cells, pict) ==> {
                &&& cells[br.0].len() > br.1
                &&& (tl0 >= 0 && tl1 >= 0 ==> forall|x: int|
                    tl0 <= x <= br.0 ==> #[trigger] cells[x].len() > br.1)
                &&& cells[br.0][br.1] == 1 ==> {
                    &&& tl0 >= 0
                    &&& tl1 >= 0
                    &&& (cells[tl0][tl1] == 1 ==> tl0 + br.0 <= i64::MAX && tl1 + br.1 <= i64::MAX)
                }
            }
        }
    }

    open spec fn spec_drawn(&self, cells: Seq<Seq<u8>>, pict: (i32, i32)) -> (Seq<Seq<u8>>, bool) {
        let br = self.draw_corner(cells, pict);
        let (tl0, tl1) = (self.pos.0 as int, self.pos.1 as int);
        let on_grid = tl0 >= 0 && tl1 >= 0;
        if !self.draw_visible(cells, pict) {
            (cells, false)
        } else if on_grid && cells[br.0][br.1] == 1 && cells[tl0][tl1] == 1 && cells[(tl0 + br.0)
            / 2][(tl1 + br.1) / 2] == 1 {
            (cells, false)
        } else if on_grid {
            (fill_rect(cells, tl0, br.0, tl1, br.1), true)
        } else {
            (cells, true)
        }
    }

    proof fn lemma_with_id(&self, id: usize) {
    }

    fn get_pos(&self) -> (pos: (i64, i64)) {
        self.pos
    }

    fn set_pos(&mut self, pos: (i64, i64)) {
        self.pos = pos;
    }

    fn get_hp(&self) -> (hp: i64) {
        self.hp
    }

    fn set_hp(&mut self, hp: i64) {
        self.hp = hp;
    }

    fn get_id(&self) -> (id: usize) {
        self.id
    }

    fn set_id(&mut self, id: usize) {
        self.id = id;
    }

    /// Rolls in `[0, SPAWN_ODDS)`; only on a roll of 0 draws the offset,
    /// which is `(0, 0)` otherwise.
    fn random_draw() -> (draw: (i64, i64, i64)) {
        let roll = random::gen_range(0, SPAWN_ODDS);
        if roll == 0 {
            let dx = random::gen_range(-SPAWN_RADIUS, SPAWN_RADIUS);
            let dy = random::gen_range(-SPAWN_RADIUS, SPAWN_RADIUS);
            (roll, dx, dy)
        } else {
            (roll, 0, 0)
        }
    }

    fn update_with_draws(&mut self, deltatime: u128, draw: (i64, i64, i64)) -> (offspring: Option<Grass>) {
        #[verifier::truncate]
        let step: i64 = deltatime as i64;
        self.hp = self.hp - step;
        if self.pos.0 < 0 {
            self.pos.0 = 0;
        } else if self.pos.0 > FIELD_WIDTH {
            self.pos.0 = FIELD_WIDTH;
        }
        if self.pos.1 < 0 {
            self.pos.1 = 0;
        } else if self.pos.1 > FIELD_HEIGHT {
            self.pos.1 = FIELD_HEIGHT;
        }
        if draw.0 == 0 {
            Some(self.offspring(draw.1, draw.2))
        } else {
            None
        }
    }

    fn update(&mut self, deltatime: u128) -> (offspring: Option<Grass>) {
        let draw = Grass::random_draw();
        let offspring = self.update_with_draws(deltatime, draw);
        assert(offspring == old(self).spec_spawn(deltatime, draw));
        offspring
    }

    fn draw(&self, painted_cells: &mut Vec<Vec<u8>>, pict: (i32, i32)) -> (paint: bool) {
        let ghost cells = cells_view(painted_cells);
        if painted_cells.len() == 0 {
            return false;
        }
        assert(cells[0] == painted_cells@[0]@);
        let m_len: usize = painted_cells[0].len();
        if m_len == 0 {
            return false;
        }
        let n_len: usize = painted_cells.len();
        let n: i64 = n_len as i64;
        let m: i64 = m_len as i64;
        let tl: (i64, i64) = self.pos;
        let mut br: (i64, i64) = (self.pos.0 + pict.0 as i64, self.pos.1 + pict.1 as i64);
        if br.0 >= n {
            br.0 = n - 1;
        }
        if br.0 < 0 {
            br.0 = 0;
        }
        if br.1 >= m {
            br.1 = m - 1;
        }
        if br.1 < 0 {
            br.1 = 0;
        }
        assert(br.0 as int == self.draw_corner(cells, pict).0);
        assert(br.1 as int == self.draw_corner(cells, pict).1);
        if br.1 - tl.1 <= 0 || br.0 - tl.0 <= 0 {
            return false;
        }
        let b0: usize = br.0 as usize;
        let b1: usize = br.1 as usize;
        assert(cells[b0 as int] == painted_cells@[b0 as int]@);
        if painted_cells[b0][b1] == 1 {
            let t0: usize = tl.0 as usize;
            let t1: usize = tl.1 as usize;
            assert(cells[t0 as int] == painted_cells@[t0 as int]@);
            if painted_cells[t0][t1] == 1 {
                let c0: usize = ((tl.0 + br.0) / 2) as usize;
                let c1: usize = ((tl.1 + br.1) / 2) as usize;
                assert(cells[c0 as int] == painted_cells@[c0 as int]@);
                if painted_cells[c0][c1] == 1 {
                    return false;
                }
            }
        }
        if tl.0 >= 0 && tl.1 >= 0 {
            let t0: usize = tl.0 as usize;
            let t1: usize = tl.1 as usize;
            let mut x: usize = t0;
            while x <= b0
                invariant
                    t0 <= x <= b0 + 1,
                    b0 < n_len,
                    n_len == painted_cells@.len(),
                    b1 < m_len,
                    t1 <= b1,
                    cells.len() == painted_cells@.len(),
                    forall|i: int| t0 <= i <= b0 ==> #[trigger] cells[i].len() > b1,
                    cells_view(painted_cells) =~= fill_rect(cells, t0 as int, x - 1, t1 as int, b1 as int),
                decreases b0 + 1 - x,
            {
                let ghost before = cells_view(painted_cells);
                assert(painted_cells@[x as int]@ == before[x as int]);
                assert forall|i: int| 0 <= i < cells.len() && i != x implies #[trigger] painted_cells@[i]@ == before[i] by {
                    assert(before[i] == painted_cells@[i]@);
                }
                let mut y: usize = t1;
                while y <= b1
                    invariant
                        t0 <= x <= b0,
                        t1 <= y <= b1 + 1,
                        b0 < painted_cells@.len(),
                        b1 < m_len,
                        cells.len() == painted_cells@.len(),
                        cells[x as int].len() > b1,
                        forall|i: int| 0 <= i < cells.len() && i != x ==> #[trigger] painted_cells@[i]@ == before[i],
                        painted_cells@[x as int]@ =~= Seq::new(
                            cells[x as int].len(),
                            |j: int| if t1 <= j < y { 1u8 } else { cells[x as int][j] },
                        ),
                    decreases b1 + 1 - y,
                {
                    painted_cells[x][y] = 1;
                    y = y + 1;
                }
                assert(cells_view(painted_cells) =~= fill_rect(cells, t0 as int, x as int, t1 as int, b1 as int)) by {
                    assert forall|i: int| 0 <= i < cells.len() implies #[trigger] cells_view(painted_cells)[i] == fill_rect(cells, t0 as int, x as int, t1 as int, b1 as int)[i] by {
                        if i != x {
                            assert(painted_cells@[i]@ == before[i]);
                        }
                    }
                }
                x = x + 1;
            }
        }
        true
    }
}

} // verus!
