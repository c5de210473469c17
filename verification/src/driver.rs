use vstd::prelude::*;
use crate::orientation::Orientation;
use crate::grid::Pelouse;
use crate::agent::Position;
use crate::agent::Tondeuse;
use crate::agent::cell_of;
use crate::agent::cells;
use crate::agent::run_spec;
use crate::parse::coord_field;
use crate::parse::orientation_field;
use crate::parse::token_start;
use crate::parse::token_end;
use crate::parse::skip_spaces;
use crate::parse::chars_of;
use crate::parse::find_token;
use crate::parse::parse_u8_token;
use crate::parse::parse_orientation_token;

verus! {

/// The input lines as character sequences.
pub open spec fn lines_view(content: Seq<&str>) -> Seq<Seq<char>> {
    content.map_values(|s: &str| s@)
}

/// How many agents an input of this many lines describes: the first line is
/// the bounds, then two lines per agent; a trailing odd line is ignored.
pub open spec fn num_agents(lines: Seq<Seq<char>>) -> int {
    (lines.len() - 1) / 2
}

/// The starting position an agent record describes: its first two fields as
/// coordinates, its third as an orientation, each defaulting on bad input.
pub open spec fn initial_position(line: Seq<char>) -> Position {
    Position {
        x: coord_field(line, 0),
        y: coord_field(line, 1),
        orientation: orientation_field(line),
    }
}

/// Every agent's starting position, in input order.
pub open spec fn initial_states(lines: Seq<Seq<char>>) -> Seq<Position> {
    Seq::new(num_agents(lines) as nat, |i: int| initial_position(lines[2 * i + 1]))
}

/// Every agent's instruction sequence, in input order.
pub open spec fn programs(lines: Seq<Seq<char>>) -> Seq<Seq<char>> {
    Seq::new(num_agents(lines) as nat, |i: int| lines[2 * i + 2])
}

/// Runs agents `k`, `k+1`, ... each to the end of its own program, in order,
/// against the shared occupancy: one legal serialization of the concurrent
/// run. Returns the final positions and the final occupancy.
pub open spec fn run_all_spec(
    states: Seq<Position>,
    progs: Seq<Seq<char>>,
    mx: u8,
    my: u8,
    occ: Seq<(u8, u8)>,
    k: int,
) -> (Seq<Position>, Seq<(u8, u8)>)
    decreases states.len() - k,
{
    if k < 0 || k >= states.len() {
        (states, occ)
    } else {
        let r = run_spec(states[k], mx, my, mx, my, occ, progs[k]);
        run_all_spec(states.update(k, r.0), progs, mx, my, r.1, k + 1)
    }
}

/// The whole run an input describes: bounds from the first line, agents
/// seeded on their starting cells, then every program executed.
pub open spec fn executor_spec(lines: Seq<Seq<char>>) -> (Seq<Position>, Seq<(u8, u8)>) {
    let mx = coord_field(lines[0], 0);
    let my = coord_field(lines[0], 1);
    let states = initial_states(lines);
    run_all_spec(states, programs(lines), mx, my, cells(states), 0)
}

/// A copy of an instruction vector.
fn copy_chars(v: &Vec<char>) -> (r: Vec<char>)
    ensures
        r@ == v@,
{
    let n = v.len();
    let mut out: Vec<char> = Vec::new();
    let mut i: usize = 0;
    while i < n
        invariant
            0 <= i <= n,
            n == v@.len(),
            out@ == v@.take(i as int),
        decreases n - i,
    {
        out.push(v[i]);
        proof {
            assert(out@ =~= v@.take(i as int + 1));
        }
        i += 1;
    }
    proof {
        assert(v@.take(n as int) =~= v@);
    }
    out
}

/// Reads the two coordinate fields of a bounds line, each defaulting to 0
/// when missing or malformed.
pub fn parse_two_coords(line: &str) -> (r: (u8, u8))
    ensures
        r.0 == coord_field(line@, 0),
        r.1 == coord_field(line@, 1),
{
    let chars = chars_of(line);
    let t0 = find_token(&chars, 0);
    let a = parse_u8_token(&chars, t0.0, t0.1);
    let t1 = find_token(&chars, t0.1);
    let b = parse_u8_token(&chars, t1.0, t1.1);
    proof {
        assert(token_start(line@, 0) == skip_spaces(line@, 0));
        assert(token_start(line@, 1) == skip_spaces(
            line@,
            token_end(line@, token_start(line@, 0)),
        ));
    }
    (a, b)
}

/// Builds an agent from its record line, its instruction line, the grid it
/// will move on, and its input-order index. Malformed coordinate fields
/// default to 0 and a malformed orientation field defaults to North: a lossy
/// recovery, kept so that bad records still yield a run.
pub fn get_initial_tondeuse(line: &str, mvt: &str, pelouse: &Pelouse, order: u8) -> (t: Tondeuse)
    ensures
        t.order == order,
        t.pos == initial_position(line@),
        t.mouvement@ == mvt@,
        t.max_x == pelouse.max_x,
        t.max_y == pelouse.max_y,
{
    let chars = chars_of(line);
    let t0 = find_token(&chars, 0);
    let x = parse_u8_token(&chars, t0.0, t0.1);
    let t1 = find_token(&chars, t0.1);
    let y = parse_u8_token(&chars, t1.0, t1.1);
    let t2 = find_token(&chars, t1.1);
    let o = parse_orientation_token(&chars, t2.0, t2.1);
    proof {
        assert(token_start(line@, 0) == skip_spaces(line@, 0));
        assert(token_start(line@, 1) == skip_spaces(
            line@,
            token_end(line@, token_start(line@, 0)),
        ));
        assert(token_start(line@, 2) == skip_spaces(
            line@,
            token_end(line@, token_start(line@, 1)),
        ));
    }
    let orientation = match o {
        Some(d) => d,
        None => Orientation::N,
    };
    Tondeuse {
        order,
        pos: Position { x, y, orientation },
        mouvement: chars_of(mvt),
        max_x: pelouse.max_x,
        max_y: pelouse.max_y,
    }
}

/// Parses the bounds and the agent records, seeds every agent's starting
/// cell, then runs every agent's program to completion, in input order: one
/// legal serialization of the concurrent run. Returns the final agents in
/// input order.
///
/// The input must hold at least the bounds line; the cap on its length keeps
/// the input-order index of every agent within a `u8`.
pub fn executor(content: Vec<&str>) -> (result: Vec<Tondeuse>)
    requires
        1 <= content@.len() <= 512,
    ensures
        result@.len() == num_agents(lines_view(content@)),
        forall|i: int|
            0 <= i < result@.len() ==> {
                let lines = lines_view(content@);
                &&& (#[trigger] result@[i]).order == i as u8
                &&& result@[i].pos == executor_spec(lines).0[i]
                &&& result@[i].mouvement@ == lines[2 * i + 2]
                &&& result@[i].max_x == coord_field(lines[0], 0)
                &&& result@[i].max_y == coord_field(lines[0], 1)
            },
{
    let ghost lines = lines_view(content@);
    proof {
        assert(lines.len() == content@.len());
        assert(lines[0] == content@[0]@);
    }
    let bounds = parse_two_coords(content[0]);
    let mx = bounds.0;
    let my = bounds.1;
    let mut pelouse = Pelouse { max_x: mx, max_y: my, occupied: Vec::new() };
    let n_agents: usize = (content.len() - 1) / 2;
    proof {
        assert(n_agents as int == num_agents(lines));
        assert(n_agents <= 255);
    }
    let ghost states0 = initial_states(lines);
    let ghost progs = programs(lines);

    let mut all: Vec<Tondeuse> = Vec::new();
    let mut i: usize = 0;
    proof {
        assert(pelouse.occupied@ =~= cells(states0).take(0));
    }
    while i < n_agents
        invariant
            0 <= i <= n_agents,
            n_agents <= 255,
            n_agents as int == num_agents(lines),
            content@.len() == lines.len(),
            1 <= lines.len() <= 512,
            lines == lines_view(content@),
            states0 == initial_states(lines),
            progs == programs(lines),
            pelouse.max_x == mx,
            pelouse.max_y == my,
            pelouse.occupied@ == cells(states0).take(i as int),
            all@.len() == i,
            forall|j: int|
                0 <= j < i ==> {
                    &&& (#[trigger] all@[j]).order == j as u8
                    &&& all@[j].pos == states0[j]
                    &&& all@[j].mouvement@ == progs[j]
                    &&& all@[j].max_x == mx
                    &&& all@[j].max_y == my
                },
        decreases n_agents - i,
    {
        proof {
            assert(2 * i + 2 < lines.len());
        }
        let line = content[1 + 2 * i];
        let mvt = content[2 + 2 * i];
        let t = get_initial_tondeuse(line, mvt, &pelouse, i as u8);
        proof {
            assert(line@ == lines[2 * i + 1]);
            assert(mvt@ == lines[2 * i + 2]);
            assert(states0[i as int] == initial_position(lines[2 * i + 1]));
            assert(progs[i as int] == lines[2 * i + 2]);
        }
        pelouse.occupe(t.pos.x, t.pos.y);
        all.push(t);
        proof {
            assert(cells(states0)[i as int] == cell_of(states0[i as int]));
            assert(pelouse.occupied@ =~= cells(states0).take(i as int + 1));
        }
        i += 1;
    }
    proof {
        assert(cells(states0).take(n_agents as int) =~= cells(states0));
        assert(states0.skip(0) =~= states0);
        assert(Seq::<Tondeuse>::empty().map_values(|t: Tondeuse| t.pos) + states0 =~= states0);
    }

    let mut finals: Vec<Tondeuse> = Vec::new();
    while all.len() > 0
        invariant
            finals@.len() + all@.len() == n_agents as int,
            n_agents <= 255,
            n_agents as int == num_agents(lines),
            states0 == initial_states(lines),
            progs == programs(lines),
            states0.len() == n_agents as int,
            progs.len() == n_agents as int,
            pelouse.max_x == mx,
            pelouse.max_y == my,
            forall|j: int|
                0 <= j < all@.len() ==> {
                    &&& (#[trigger] all@[j]).order == (finals@.len() + j) as u8
                    &&& all@[j].pos == states0[finals@.len() + j]
                    &&& all@[j].mouvement@ == progs[finals@.len() + j]
                    &&& all@[j].max_x == mx
                    &&& all@[j].max_y == my
                },
            forall|j: int|
                0 <= j < finals@.len() ==> {
                    &&& (#[trigger] finals@[j]).order == j as u8
                    &&& finals@[j].mouvement@ == progs[j]
                    &&& finals@[j].max_x == mx
                    &&& finals@[j].max_y == my
                },
            run_all_spec(states0, progs, mx, my, cells(states0), 0) == run_all_spec(
                finals@.map_values(|t: Tondeuse| t.pos) + states0.skip(finals@.len() as int),
                progs,
                mx,
                my,
                pelouse.occupied@,
                finals@.len() as int,
            ),
        decreases all@.len(),
    {
        let ghost k = finals@.len() as int;
        let ghost old_all = all@;
        let ghost old_finals_pos = finals@.map_values(|t: Tondeuse| t.pos);
        let ghost cur = old_finals_pos + states0.skip(k);
        let ghost occ_before = pelouse.occupied@;
        let mut t = all.remove(0);
        let instrs = copy_chars(&t.mouvement);
        proof {
            assert(t == old_all[0]);
            assert(t.pos == states0[k]);
            assert(instrs@ == progs[k]);
            assert(cur.len() == n_agents as int);
            assert(cur[k] == states0.skip(k)[0]);
            assert(cur[k] == states0[k]);
        }
        t.executer(instrs, &mut pelouse);
        let ghost r = run_spec(states0[k], mx, my, mx, my, occ_before, progs[k]);
        proof {
            assert(t.pos == r.0);
            assert(pelouse.occupied@ == r.1);
            assert(run_all_spec(cur, progs, mx, my, occ_before, k) == run_all_spec(
                cur.update(k, r.0),
                progs,
                mx,
                my,
                r.1,
                k + 1,
            ));
        }
        finals.push(t);
        proof {
            let new_finals_pos = finals@.map_values(|t: Tondeuse| t.pos);
            assert(new_finals_pos =~= old_finals_pos.push(r.0));
            assert(new_finals_pos + states0.skip(k + 1) =~= cur.update(k, r.0));
            assert(forall|j: int|
                0 <= j < all@.len() ==> all@[j] == #[trigger] old_all[j + 1]);
        }
    }
    proof {
        let finals_pos = finals@.map_values(|t: Tondeuse| t.pos);
        let cur = finals_pos + states0.skip(finals@.len() as int);
        assert(cur =~= finals_pos);
        assert(finals@.len() as int >= cur.len());
        assert(run_all_spec(cur, progs, mx, my, pelouse.occupied@, finals@.len() as int) == (
            cur,
            pelouse.occupied@,
        ));
        assert(executor_spec(lines).0 == finals_pos);
        assert(forall|j: int|
            0 <= j < finals@.len() ==> (#[trigger] finals@[j]).pos == finals_pos[j]);
    }
    finals
}

} // verus!

