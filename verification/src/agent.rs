use vstd::prelude::*;
use crate::orientation::Orientation;
use crate::grid::Pelouse;
use crate::grid::cell_free;
use crate::grid::remove_cell;

verus! {

/// An agent's position on the grid, together with its facing direction.
#[derive(Clone, Copy, Debug, PartialEq, Eq, Structural)]
pub struct Position {
    pub x: u8,
    pub y: u8,
    pub orientation: Orientation,
}

/// An agent: a stable input-order index, its position, its instruction
/// sequence, and the grid bounds copied at construction.
#[derive(Clone, Debug, PartialEq, Eq)]
pub struct Tondeuse {
    pub order: u8,
    pub pos: Position,
    pub mouvement: Vec<char>,
    pub max_x: u8,
    pub max_y: u8,
}

/// The cell a position stands on, without its facing direction.
pub open spec fn cell_of(p: Position) -> (u8, u8) {
    (p.x, p.y)
}

/// The cells of a sequence of agent positions, in order.
pub open spec fn cells(states: Seq<Position>) -> Seq<(u8, u8)> {
    states.map_values(|p: Position| cell_of(p))
}

/// The agent's own boundary guard: whether one step in the facing direction
/// stays within `[0, max_x] x [0, max_y]` as the agent knows those bounds.
pub open spec fn can_step(pos: Position, max_x: u8, max_y: u8) -> bool {
    match pos.orientation {
        Orientation::N => pos.y < max_y,
        Orientation::E => pos.x < max_x,
        Orientation::S => pos.y > 0,
        Orientation::W => pos.x > 0,
    }
}

/// The cell one step ahead in the facing direction. Meaningful under
/// `can_step`, where no coordinate wraps.
pub open spec fn next_cell(pos: Position) -> (u8, u8)
    recommends
        pos.y < 255 || pos.orientation != Orientation::N,
        pos.x < 255 || pos.orientation != Orientation::E,
{
    match pos.orientation {
        Orientation::N => (pos.x, (pos.y + 1) as u8),
        Orientation::E => ((pos.x + 1) as u8, pos.y),
        Orientation::S => (pos.x, (pos.y - 1) as u8),
        Orientation::W => ((pos.x - 1) as u8, pos.y),
    }
}

/// One advance attempt of an agent whose bounds are `(tmx, tmy)` on a grid
/// whose bounds are `(gmx, gmy)` with occupied cells `occ`: the new position
/// and the new occupancy. The move happens only when the agent's boundary
/// guard passes and the target cell is free; otherwise nothing changes.
pub open spec fn avance_spec(
    pos: Position,
    tmx: u8,
    tmy: u8,
    gmx: u8,
    gmy: u8,
    occ: Seq<(u8, u8)>,
) -> (Position, Seq<(u8, u8)>) {
    if !can_step(pos, tmx, tmy) {
        (pos, occ)
    } else {
        let c = next_cell(pos);
        if cell_free(gmx, gmy, occ, c.0, c.1) {
            (
                Position { x: c.0, y: c.1, orientation: pos.orientation },
                remove_cell(occ, pos.x, pos.y).push(c),
            )
        } else {
            (pos, occ)
        }
    }
}

/// One instruction: `L` and `R` turn in place, `F` attempts an advance,
/// any other symbol is a no-op.
pub open spec fn step_spec(
    pos: Position,
    tmx: u8,
    tmy: u8,
    gmx: u8,
    gmy: u8,
    occ: Seq<(u8, u8)>,
    cmd: char,
) -> (Position, Seq<(u8, u8)>) {
    if cmd == 'L' {
        (Position { x: pos.x, y: pos.y, orientation: pos.orientation.spec_gauche() }, occ)
    } else if cmd == 'R' {
        (Position { x: pos.x, y: pos.y, orientation: pos.orientation.spec_droite() }, occ)
    } else if cmd == 'F' {
        avance_spec(pos, tmx, tmy, gmx, gmy, occ)
    } else {
        (pos, occ)
    }
}

/// A whole instruction sequence, executed in order by one agent.
pub open spec fn run_spec(
    pos: Position,
    tmx: u8,
    tmy: u8,
    gmx: u8,
    gmy: u8,
    occ: Seq<(u8, u8)>,
    instrs: Seq<char>,
) -> (Position, Seq<(u8, u8)>)
    decreases instrs.len(),
{
    if instrs.len() == 0 {
        (pos, occ)
    } else {
        let s = step_spec(pos, tmx, tmy, gmx, gmy, occ, instrs[0]);
        run_spec(s.0, tmx, tmy, gmx, gmy, s.1, instrs.drop_first())
    }
}

/// A step never moves an agent out of the grid: an advance that would leave
/// `[0, gmx] x [0, gmy]` is refused, so a position within the grid stays
/// within it whatever the instruction.
pub proof fn lemma_step_preserves_bounds(
    pos: Position,
    tmx: u8,
    tmy: u8,
    gmx: u8,
    gmy: u8,
    occ: Seq<(u8, u8)>,
    cmd: char,
)
    requires
        pos.x <= gmx,
        pos.y <= gmy,
    ensures
        step_spec(pos, tmx, tmy, gmx, gmy, occ, cmd).0.x <= gmx,
        step_spec(pos, tmx, tmy, gmx, gmy, occ, cmd).0.y <= gmy,
{
}

/// Every agent's position stays within the grid bounds over any instruction
/// sequence, provided it starts within them.
pub proof fn lemma_run_preserves_bounds(
    pos: Position,
    tmx: u8,
    tmy: u8,
    gmx: u8,
    gmy: u8,
    occ: Seq<(u8, u8)>,
    instrs: Seq<char>,
)
    requires
        pos.x <= gmx,
        pos.y <= gmy,
    ensures
        run_spec(pos, tmx, tmy, gmx, gmy, occ, instrs).0.x <= gmx,
        run_spec(pos, tmx, tmy, gmx, gmy, occ, instrs).0.y <= gmy,
    decreases instrs.len(),
{
    if instrs.len() > 0 {
        let s = step_spec(pos, tmx, tmy, gmx, gmy, occ, instrs[0]);
        lemma_step_preserves_bounds(pos, tmx, tmy, gmx, gmy, occ, instrs[0]);
        lemma_run_preserves_bounds(s.0, tmx, tmy, gmx, gmy, s.1, instrs.drop_first());
    }
}

/// An advance whose target would lie outside the grid is a no-op: position,
/// orientation and occupancy are all unchanged. Here the agent's copy of the
/// bounds and the grid's agree, as the driver constructs them.
pub proof fn lemma_advance_blocked_by_boundary(pos: Position, mx: u8, my: u8, occ: Seq<(u8, u8)>)
    requires
        !can_step(pos, mx, my),
    ensures
        avance_spec(pos, mx, my, mx, my, occ) == (pos, occ),
{
}

/// An advance whose target cell is occupied by another agent is a no-op:
/// position, orientation and occupancy are all unchanged.
pub proof fn lemma_advance_blocked_by_occupant(pos: Position, mx: u8, my: u8, occ: Seq<(u8, u8)>)
    requires
        occ.contains(next_cell(pos)),
    ensures
        avance_spec(pos, mx, my, mx, my, occ) == (pos, occ),
{
    let c = next_cell(pos);
    assert(!cell_free(mx, my, occ, c.0, c.1));
}

impl Tondeuse {
    /// Attempts to move one cell in the facing direction: a no-op at an
    /// absorbing boundary, a no-op when the target cell is occupied, and
    /// otherwise a vacate/occupy pair on the grid with the agent's own
    /// position updated to the target.
    pub fn avancer(&mut self, pelouse: &mut Pelouse)
        ensures
            ({
                let r = avance_spec(
                    old(self).pos,
                    old(self).max_x,
                    old(self).max_y,
                    old(pelouse).max_x,
                    old(pelouse).max_y,
                    old(pelouse).occupied@,
                );
                final(self).pos == r.0 && final(pelouse).occupied@ == r.1
            }),
            final(pelouse).max_x == old(pelouse).max_x,
            final(pelouse).max_y == old(pelouse).max_y,
            final(self).order == old(self).order,
            final(self).mouvement@ == old(self).mouvement@,
            final(self).max_x == old(self).max_x,
            final(self).max_y == old(self).max_y,
    {
        match self.pos.orientation {
            Orientation::N => {
                if self.pos.y < self.max_y {
                    let next_y = self.pos.y + 1;
                    if pelouse.is_free(self.pos.x, next_y) {
                        pelouse.libere(self.pos.x, self.pos.y);
                        pelouse.occupe(self.pos.x, next_y);
                        self.pos.y = next_y;
                    }
                }
            },
            Orientation::E => {
                if self.pos.x < self.max_x {
                    let next_x = self.pos.x + 1;
                    if pelouse.is_free(next_x, self.pos.y) {
                        pelouse.libere(self.pos.x, self.pos.y);
                        pelouse.occupe(next_x, self.pos.y);
                        self.pos.x = next_x;
                    }
                }
            },
            Orientation::S => {
                if self.pos.y > 0 {
                    let next_y = self.pos.y - 1;
                    if pelouse.is_free(self.pos.x, next_y) {
                        pelouse.libere(self.pos.x, self.pos.y);
                        pelouse.occupe(self.pos.x, next_y);
                        self.pos.y = next_y;
                    }
                }
            },
            Orientation::W => {
                if self.pos.x > 0 {
                    let next_x = self.pos.x - 1;
                    if pelouse.is_free(next_x, self.pos.y) {
                        pelouse.libere(self.pos.x, self.pos.y);
                        pelouse.occupe(next_x, self.pos.y);
                        self.pos.x = next_x;
                    }
                }
            },
        }
    }

    /// Interprets a whole instruction sequence against the shared grid:
    /// `L`/`R` turn in place, `F` attempts an advance, anything else is
    /// ignored.
    pub fn executer(&mut self, instructions: Vec<char>, pelouse: &mut Pelouse)
        ensures
            ({
                let r = run_spec(
                    old(self).pos,
                    old(self).max_x,
                    old(self).max_y,
                    old(pelouse).max_x,
                    old(pelouse).max_y,
                    old(pelouse).occupied@,
                    instructions@,
                );
                final(self).pos == r.0 && final(pelouse).occupied@ == r.1
            }),
            final(pelouse).max_x == old(pelouse).max_x,
            final(pelouse).max_y == old(pelouse).max_y,
            final(self).order == old(self).order,
            final(self).mouvement@ == old(self).mouvement@,
            final(self).max_x == old(self).max_x,
            final(self).max_y == old(self).max_y,
    {
        let ghost pos0 = self.pos;
        let ghost occ0 = pelouse.occupied@;
        let ghost tmx = self.max_x;
        let ghost tmy = self.max_y;
        let ghost gmx = pelouse.max_x;
        let ghost gmy = pelouse.max_y;
        let n = instructions.len();
        let mut i: usize = 0;
        assert(instructions@.skip(0) =~= instructions@);
        while i < n
            invariant
                0 <= i <= n,
                n == instructions@.len(),
                self.max_x == tmx,
                self.max_y == tmy,
                pelouse.max_x == gmx,
                pelouse.max_y == gmy,
                self.order == old(self).order,
                self.mouvement@ == old(self).mouvement@,
                run_spec(pos0, tmx, tmy, gmx, gmy, occ0, instructions@) == run_spec(
                    self.pos,
                    tmx,
                    tmy,
                    gmx,
                    gmy,
                    pelouse.occupied@,
                    instructions@.skip(i as int),
                ),
            decreases n - i,
        {
            let cmd = instructions[i];
            proof {
                let rest = instructions@.skip(i as int);
                assert(rest.len() > 0);
                assert(rest[0] == instructions@[i as int]);
                assert(rest.drop_first() =~= instructions@.skip(i as int + 1));
            }
            if cmd == 'L' {
                self.pos.orientation = self.pos.orientation.gauche();
            } else if cmd == 'R' {
                self.pos.orientation = self.pos.orientation.droite();
            } else if cmd == 'F' {
                self.avancer(pelouse);
            }
            i += 1;
        }
        proof {
            assert(instructions@.skip(n as int) =~= Seq::<char>::empty());
        }
    }
}

} // verus!
