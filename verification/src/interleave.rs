use vstd::prelude::*;
use crate::agent::Position;
use crate::agent::cell_of;
use crate::agent::cells;
use crate::agent::step_spec;
use crate::agent::run_spec;
use crate::grid::remove_cell;
use crate::grid::cell_free;
use crate::grid::lemma_remove_cell_contains;
use crate::grid::lemma_remove_cell_no_duplicates;
use crate::driver::run_all_spec;
use crate::driver::executor_spec;
use crate::driver::initial_states;
use crate::driver::programs;
use crate::parse::coord_field;

verus! {

/// The shared-grid invariant that holds at every observable instant of a
/// run: no two agents stand on the same cell, and the occupied sequence
/// holds exactly the agents' cells, each once.
pub open spec fn config_inv(states: Seq<Position>, occ: Seq<(u8, u8)>) -> bool {
    &&& forall|i: int, j: int|
        0 <= i < states.len() && 0 <= j < states.len() && i != j ==> cell_of(
            #[trigger] states[i],
        ) != cell_of(#[trigger] states[j])
    &&& occ.no_duplicates()
    &&& forall|c: (u8, u8)|
        #[trigger] occ.contains(c) ==> exists|i: int|
            0 <= i < states.len() && cell_of(#[trigger] states[i]) == c
    &&& forall|i: int|
        0 <= i < states.len() ==> occ.contains(cell_of(#[trigger] states[i]))
}

/// One instruction of one agent preserves the shared-grid invariant,
/// whichever agent runs and whatever the instruction: the core correctness
/// property of the check-then-move critical section.
pub proof fn lemma_step_preserves_inv(
    states: Seq<Position>,
    occ: Seq<(u8, u8)>,
    mx: u8,
    my: u8,
    a: int,
    cmd: char,
)
    requires
        config_inv(states, occ),
        0 <= a < states.len(),
    ensures
        ({
            let r = step_spec(states[a], mx, my, mx, my, occ, cmd);
            config_inv(states.update(a, r.0), r.1)
        }),
{
    let p = states[a];
    let r = step_spec(p, mx, my, mx, my, occ, cmd);
    let states2 = states.update(a, r.0);
    if r.1 == occ && cell_of(r.0) == cell_of(p) {
        // A turn, an ignored symbol, or a refused advance: cells unchanged.
        assert forall|c: (u8, u8)| #[trigger] occ.contains(c) implies exists|i: int|
            0 <= i < states2.len() && cell_of(#[trigger] states2[i]) == c by {
            let i = choose|i: int| 0 <= i < states.len() && cell_of(#[trigger] states[i]) == c;
            assert(cell_of(states2[i]) == c);
        }
        assert forall|i: int| 0 <= i < states2.len() implies occ.contains(
            cell_of(#[trigger] states2[i]),
        ) by {
            assert(cell_of(states2[i]) == cell_of(states[i]));
        }
    } else {
        // The moving advance: the target was free, the source cell leaves
        // the occupancy and the target enters it.
        let co = cell_of(p);
        let cn = crate::agent::next_cell(p);
        assert(cell_free(mx, my, occ, cn.0, cn.1));
        assert(!occ.contains(cn));
        let rc = remove_cell(occ, p.x, p.y);
        assert(r.1 == rc.push(cn));
        assert(cell_of(r.0) == cn);
        assert(co == (p.x, p.y));
        assert(occ.contains(co));
        assert(cn != co);

        // Membership in the new occupancy.
        assert forall|c: (u8, u8)| #[trigger] r.1.contains(c) implies (rc.contains(c) || c
            == cn) by {
            let i = choose|i: int| 0 <= i < r.1.len() && r.1[i] == c;
            if i < rc.len() {
                assert(rc[i] == c);
            }
        }
        assert forall|c: (u8, u8)| rc.contains(c) || c == cn implies #[trigger] r.1.contains(
            c,
        ) by {
            if rc.contains(c) {
                let i = choose|i: int| 0 <= i < rc.len() && rc[i] == c;
                assert(r.1[i] == c);
            } else {
                assert(r.1[rc.len() as int] == cn);
            }
        }

        // The new occupancy stays duplicate-free.
        lemma_remove_cell_no_duplicates(occ, p.x, p.y);
        lemma_remove_cell_contains(occ, p.x, p.y, cn);
        assert(!rc.contains(cn));
        assert(r.1.no_duplicates()) by {
            assert forall|i: int, j: int|
                0 <= i < r.1.len() && 0 <= j < r.1.len() && i != j implies r.1[i] != r.1[j] by {
                if i < rc.len() && j < rc.len() {
                    assert(r.1[i] == rc[i] && r.1[j] == rc[j]);
                } else if i < rc.len() {
                    assert(r.1[i] == rc[i] && r.1[j] == cn);
                    assert(rc.contains(rc[i]));
                } else {
                    assert(r.1[i] == cn && r.1[j] == rc[j]);
                    assert(rc.contains(rc[j]));
                }
            }
        }

        // No two agents share a cell afterwards.
        assert forall|i: int, j: int|
            0 <= i < states2.len() && 0 <= j < states2.len() && i != j implies cell_of(
            #[trigger] states2[i],
        ) != cell_of(#[trigger] states2[j]) by {
            if i == a {
                assert(occ.contains(cell_of(states[j])));
            } else if j == a {
                assert(occ.contains(cell_of(states[i])));
            }
        }

        // Every occupied cell is some agent's cell.
        assert forall|c: (u8, u8)| #[trigger] r.1.contains(c) implies exists|i: int|
            0 <= i < states2.len() && cell_of(#[trigger] states2[i]) == c by {
            if c == cn {
                assert(cell_of(states2[a]) == cn);
            } else {
                assert(rc.contains(c));
                lemma_remove_cell_contains(occ, p.x, p.y, c);
                assert(occ.contains(c) && c != co);
                let i = choose|i: int| 0 <= i < states.len() && cell_of(#[trigger] states[i]) == c;
                assert(i != a);
                assert(cell_of(states2[i]) == c);
            }
        }

        // Every agent's cell is occupied.
        assert forall|i: int| 0 <= i < states2.len() implies r.1.contains(
            cell_of(#[trigger] states2[i]),
        ) by {
            if i == a {
                assert(r.1.contains(cn));
            } else {
                let c = cell_of(states[i]);
                assert(occ.contains(c));
                assert(c != co);
                lemma_remove_cell_contains(occ, p.x, p.y, c);
                assert(rc.contains(c));
            }
        }
    }
}

/// One scheduling step: agent `a` executes its next instruction, if it has
/// one left; any other index is a no-op. `pcs` holds each agent's place in
/// its own program.
pub open spec fn sched_step(
    states: Seq<Position>,
    pcs: Seq<int>,
    occ: Seq<(u8, u8)>,
    mx: u8,
    my: u8,
    progs: Seq<Seq<char>>,
    a: int,
) -> (Seq<Position>, Seq<int>, Seq<(u8, u8)>) {
    if 0 <= a < states.len() && a < progs.len() && a < pcs.len() && 0 <= pcs[a] < progs[a].len() {
        let r = step_spec(states[a], mx, my, mx, my, occ, progs[a][pcs[a]]);
        (states.update(a, r.0), pcs.update(a, pcs[a] + 1), r.1)
    } else {
        (states, pcs, occ)
    }
}

/// A run under an arbitrary schedule: each entry of `sched` names the agent
/// that executes its next instruction at that instant. Every interleaving of
/// the agents' programs is some such schedule, and every reachable instant
/// is the end of some prefix of one.
pub open spec fn run_sched(
    states: Seq<Position>,
    pcs: Seq<int>,
    occ: Seq<(u8, u8)>,
    mx: u8,
    my: u8,
    progs: Seq<Seq<char>>,
    sched: Seq<int>,
) -> (Seq<Position>, Seq<int>, Seq<(u8, u8)>)
    decreases sched.len(),
{
    if sched.len() == 0 {
        (states, pcs, occ)
    } else {
        let r = sched_step(states, pcs, occ, mx, my, progs, sched[0]);
        run_sched(r.0, r.1, r.2, mx, my, progs, sched.drop_first())
    }
}

/// The shared-grid invariant holds after any schedule, hence at every
/// reachable instant of every interleaving: no two agents ever occupy the
/// same cell, under any scheduling of their instructions.
pub proof fn lemma_run_sched_preserves_inv(
    states: Seq<Position>,
    pcs: Seq<int>,
    occ: Seq<(u8, u8)>,
    mx: u8,
    my: u8,
    progs: Seq<Seq<char>>,
    sched: Seq<int>,
)
    requires
        config_inv(states, occ),
    ensures
        ({
            let r = run_sched(states, pcs, occ, mx, my, progs, sched);
            config_inv(r.0, r.2)
        }),
    decreases sched.len(),
{
    if sched.len() > 0 {
        let a = sched[0];
        let r = sched_step(states, pcs, occ, mx, my, progs, a);
        if 0 <= a < states.len() && a < progs.len() && a < pcs.len() && 0 <= pcs[a]
            < progs[a].len() {
            lemma_step_preserves_inv(states, occ, mx, my, a, progs[a][pcs[a]]);
        }
        lemma_run_sched_preserves_inv(r.0, r.1, r.2, mx, my, progs, sched.drop_first());
    }
}

/// Agents whose starting cells are pairwise distinct, seeded onto an
/// occupancy holding exactly those cells, satisfy the shared-grid invariant.
pub proof fn lemma_initial_config_inv(states: Seq<Position>)
    requires
        forall|i: int, j: int|
            0 <= i < states.len() && 0 <= j < states.len() && i != j ==> cell_of(
                #[trigger] states[i],
            ) != cell_of(#[trigger] states[j]),
    ensures
        config_inv(states, cells(states)),
{
    let occ = cells(states);
    assert(occ.no_duplicates()) by {
        assert forall|i: int, j: int|
            0 <= i < occ.len() && 0 <= j < occ.len() && i != j implies occ[i] != occ[j] by {
            assert(occ[i] == cell_of(states[i]));
            assert(occ[j] == cell_of(states[j]));
        }
    }
    assert forall|c: (u8, u8)| #[trigger] occ.contains(c) implies exists|i: int|
        0 <= i < states.len() && cell_of(#[trigger] states[i]) == c by {
        let i = choose|i: int| 0 <= i < occ.len() && occ[i] == c;
        assert(cell_of(states[i]) == c);
    }
    assert forall|i: int| 0 <= i < states.len() implies occ.contains(
        cell_of(#[trigger] states[i]),
    ) by {
        assert(occ[i] == cell_of(states[i]));
    }
}

/// Running one agent's whole program, the others standing still, preserves
/// the shared-grid invariant.
pub proof fn lemma_run_spec_preserves_inv(
    states: Seq<Position>,
    occ: Seq<(u8, u8)>,
    mx: u8,
    my: u8,
    a: int,
    prog: Seq<char>,
)
    requires
        config_inv(states, occ),
        0 <= a < states.len(),
    ensures
        ({
            let r = run_spec(states[a], mx, my, mx, my, occ, prog);
            config_inv(states.update(a, r.0), r.1)
        }),
    decreases prog.len(),
{
    if prog.len() == 0 {
        assert(states.update(a, states[a]) =~= states);
    } else {
        let s = step_spec(states[a], mx, my, mx, my, occ, prog[0]);
        lemma_step_preserves_inv(states, occ, mx, my, a, prog[0]);
        let states1 = states.update(a, s.0);
        lemma_run_spec_preserves_inv(states1, s.1, mx, my, a, prog.drop_first());
        let r2 = run_spec(states1[a], mx, my, mx, my, s.1, prog.drop_first());
        assert(states1.update(a, r2.0) =~= states.update(a, r2.0));
    }
}

/// The sequential driver preserves the shared-grid invariant: after running
/// agents `k`, `k+1`, ... to completion, no two agents share a cell and the
/// occupancy holds exactly the agents' cells.
pub proof fn lemma_run_all_preserves_inv(
    states: Seq<Position>,
    progs: Seq<Seq<char>>,
    mx: u8,
    my: u8,
    occ: Seq<(u8, u8)>,
    k: int,
)
    requires
        config_inv(states, occ),
    ensures
        ({
            let r = run_all_spec(states, progs, mx, my, occ, k);
            config_inv(r.0, r.1)
        }),
    decreases states.len() - k,
{
    if 0 <= k < states.len() {
        let r = run_spec(states[k], mx, my, mx, my, occ, progs[k]);
        lemma_run_spec_preserves_inv(states, occ, mx, my, k, progs[k]);
        lemma_run_all_preserves_inv(states.update(k, r.0), progs, mx, my, r.1, k + 1);
    }
}

/// Whatever the programs and the occupancy, the sequential driver keeps
/// every agent that starts within the grid within it, and moves no agent
/// out of the result list: P1 at the system level.
pub proof fn lemma_run_all_preserves_bounds(
    states: Seq<Position>,
    progs: Seq<Seq<char>>,
    mx: u8,
    my: u8,
    occ: Seq<(u8, u8)>,
    k: int,
)
    requires
        forall|i: int|
            0 <= i < states.len() ==> (#[trigger] states[i]).x <= mx && states[i].y <= my,
    ensures
        ({
            let r = run_all_spec(states, progs, mx, my, occ, k);
            r.0.len() == states.len() && forall|i: int|
                0 <= i < r.0.len() ==> (#[trigger] r.0[i]).x <= mx && r.0[i].y <= my
        }),
    decreases states.len() - k,
{
    if 0 <= k < states.len() {
        let r = run_spec(states[k], mx, my, mx, my, occ, progs[k]);
        crate::agent::lemma_run_preserves_bounds(states[k], mx, my, mx, my, occ, progs[k]);
        let states1 = states.update(k, r.0);
        assert(forall|i: int|
            0 <= i < states1.len() ==> (#[trigger] states1[i]).x <= mx && states1[i].y <= my);
        lemma_run_all_preserves_bounds(states1, progs, mx, my, r.1, k + 1);
    }
}

/// A whole run keeps the shared-grid invariant, provided the agents start on
/// pairwise distinct cells: in the final states, as at every instant on the
/// way there, no two agents occupy the same cell.
pub proof fn lemma_executor_spec_no_overlap(lines: Seq<Seq<char>>)
    requires
        forall|i: int, j: int|
            0 <= i < initial_states(lines).len() && 0 <= j < initial_states(lines).len() && i != j
                ==> cell_of(#[trigger] initial_states(lines)[i]) != cell_of(
                #[trigger] initial_states(lines)[j],
            ),
    ensures
        config_inv(executor_spec(lines).0, executor_spec(lines).1),
{
    let states = initial_states(lines);
    lemma_initial_config_inv(states);
    lemma_run_all_preserves_inv(
        states,
        programs(lines),
        coord_field(lines[0], 0),
        coord_field(lines[0], 1),
        cells(states),
        0,
    );
}

/// Every agent that starts within the grid ends within it: each final
/// position's coordinates lie within the bounds the first input line gives.
pub proof fn lemma_executor_spec_bounds(lines: Seq<Seq<char>>)
    requires
        forall|i: int|
            0 <= i < initial_states(lines).len() ==> (#[trigger] initial_states(lines)[i]).x
                <= coord_field(lines[0], 0) && initial_states(lines)[i].y <= coord_field(
                lines[0],
                1,
            ),
    ensures
        executor_spec(lines).0.len() == initial_states(lines).len(),
        forall|i: int|
            0 <= i < executor_spec(lines).0.len() ==> (#[trigger] executor_spec(lines).0[i]).x
                <= coord_field(lines[0], 0) && executor_spec(lines).0[i].y <= coord_field(
                lines[0],
                1,
            ),
{
    let states = initial_states(lines);
    lemma_run_all_preserves_bounds(
        states,
        programs(lines),
        coord_field(lines[0], 0),
        coord_field(lines[0], 1),
        cells(states),
        0,
    );
}

/// Under the invariant the occupancy holds exactly one entry per agent, so
/// its size equals, and in particular never exceeds, the number of agents.
pub proof fn lemma_occupancy_matches_agent_count(states: Seq<Position>, occ: Seq<(u8, u8)>)
    requires
        config_inv(states, occ),
    ensures
        occ.len() == states.len(),
{
    broadcast use vstd::seq_lib::seq_to_set_is_finite;

    let cs = cells(states);
    occ.unique_seq_to_set();
    assert(cs.no_duplicates()) by {
        assert forall|i: int, j: int| 0 <= i < cs.len() && 0 <= j < cs.len() && i != j implies cs[i]
            != cs[j] by {
            assert(cs[i] == cell_of(states[i]));
            assert(cs[j] == cell_of(states[j]));
        }
    }
    cs.unique_seq_to_set();
    assert(occ.to_set().subset_of(cs.to_set())) by {
        assert forall|c: (u8, u8)| occ.to_set().contains(c) implies cs.to_set().contains(c) by {
            assert(occ.contains(c));
            let i = choose|i: int| 0 <= i < states.len() && cell_of(#[trigger] states[i]) == c;
            assert(cs[i] == c);
            assert(cs.contains(c));
        }
    }
    assert(cs.to_set().subset_of(occ.to_set())) by {
        assert forall|c: (u8, u8)| cs.to_set().contains(c) implies occ.to_set().contains(c) by {
            assert(cs.contains(c));
            let i = choose|i: int| 0 <= i < cs.len() && cs[i] == c;
            assert(cell_of(states[i]) == c);
            assert(occ.contains(c));
        }
    }
    vstd::set_lib::lemma_len_subset(occ.to_set(), cs.to_set());
    vstd::set_lib::lemma_len_subset(cs.to_set(), occ.to_set());
}

/// The schedule that runs agent `k` to the end of its program, then agent
/// `k+1`, and so on: the serialization the sequential driver follows.
pub open spec fn sequential_schedule(progs: Seq<Seq<char>>, k: int) -> Seq<int>
    decreases progs.len() - k,
{
    if k < 0 || k >= progs.len() {
        Seq::empty()
    } else {
        Seq::new(progs[k].len(), |j: int| k) + sequential_schedule(progs, k + 1)
    }
}

/// Running one schedule after another is running their concatenation.
proof fn lemma_run_sched_append(
    states: Seq<Position>,
    pcs: Seq<int>,
    occ: Seq<(u8, u8)>,
    mx: u8,
    my: u8,
    progs: Seq<Seq<char>>,
    s1: Seq<int>,
    s2: Seq<int>,
)
    ensures
        ({
            let mid = run_sched(states, pcs, occ, mx, my, progs, s1);
            run_sched(states, pcs, occ, mx, my, progs, s1 + s2) == run_sched(
                mid.0,
                mid.1,
                mid.2,
                mx,
                my,
                progs,
                s2,
            )
        }),
    decreases s1.len(),
{
    if s1.len() == 0 {
        assert(s1 + s2 =~= s2);
    } else {
        assert((s1 + s2)[0] == s1[0]);
        assert((s1 + s2).drop_first() =~= s1.drop_first() + s2);
        let r = sched_step(states, pcs, occ, mx, my, progs, s1[0]);
        lemma_run_sched_append(r.0, r.1, r.2, mx, my, progs, s1.drop_first(), s2);
    }
}

/// Scheduling one agent for the whole remainder of its program runs that
/// program through, the other agents standing still.
proof fn lemma_one_agent_block(
    states: Seq<Position>,
    pcs: Seq<int>,
    occ: Seq<(u8, u8)>,
    mx: u8,
    my: u8,
    progs: Seq<Seq<char>>,
    a: int,
    m: int,
)
    requires
        0 <= a < states.len(),
        a < progs.len(),
        a < pcs.len(),
        0 <= pcs[a] <= progs[a].len(),
        pcs[a] + m == progs[a].len(),
    ensures
        ({
            let r = run_spec(states[a], mx, my, mx, my, occ, progs[a].skip(pcs[a]));
            run_sched(states, pcs, occ, mx, my, progs, Seq::new(m as nat, |j: int| a)) == (
                states.update(a, r.0),
                pcs.update(a, progs[a].len() as int),
                r.1,
            )
        }),
    decreases m,
{
    let block = Seq::new(m as nat, |j: int| a);
    if m == 0 {
        assert(progs[a].skip(pcs[a]) =~= Seq::<char>::empty());
        assert(states.update(a, states[a]) =~= states);
        assert(pcs.update(a, progs[a].len() as int) =~= pcs);
    } else {
        assert(block[0] == a);
        let pc = pcs[a];
        let s = step_spec(states[a], mx, my, mx, my, occ, progs[a][pc]);
        let states1 = states.update(a, s.0);
        let pcs1 = pcs.update(a, pc + 1);
        assert(block.drop_first() =~= Seq::new((m - 1) as nat, |j: int| a));
        lemma_one_agent_block(states1, pcs1, s.1, mx, my, progs, a, m - 1);
        assert(progs[a].skip(pc).len() > 0);
        assert(progs[a].skip(pc)[0] == progs[a][pc]);
        assert(progs[a].skip(pc).drop_first() =~= progs[a].skip(pc + 1));
        let r = run_spec(s.0, mx, my, mx, my, s.1, progs[a].skip(pc + 1));
        assert(states1.update(a, r.0) =~= states.update(a, r.0));
        assert(pcs1.update(a, progs[a].len() as int) =~= pcs.update(a, progs[a].len() as int));
    }
}

/// The sequential driver is one legal interleaving of the concurrent model:
/// running the agents one after another, each to the end of its program, is
/// exactly what `run_sched` yields under the agent-by-agent schedule. So the
/// single-threaded reference run and the concurrent engine agree whenever
/// the scheduler happens to serialize the agents in input order.
pub proof fn lemma_sequential_schedule_is_run_all(
    states: Seq<Position>,
    pcs: Seq<int>,
    occ: Seq<(u8, u8)>,
    mx: u8,
    my: u8,
    progs: Seq<Seq<char>>,
    k: int,
)
    requires
        states.len() == progs.len(),
        pcs.len() == states.len(),
        forall|i: int| k <= i < pcs.len() ==> #[trigger] pcs[i] == 0,
    ensures
        ({
            let r = run_sched(states, pcs, occ, mx, my, progs, sequential_schedule(progs, k));
            let q = run_all_spec(states, progs, mx, my, occ, k);
            r.0 == q.0 && r.2 == q.1
        }),
    decreases progs.len() - k,
{
    if k < 0 || k >= progs.len() {
    } else {
        let block = Seq::new(progs[k].len(), |j: int| k);
        let rest = sequential_schedule(progs, k + 1);
        assert(sequential_schedule(progs, k) == block + rest);
        lemma_run_sched_append(states, pcs, occ, mx, my, progs, block, rest);
        lemma_one_agent_block(states, pcs, occ, mx, my, progs, k, progs[k].len() as int);
        assert(progs[k].skip(0) =~= progs[k]);
        let r = run_spec(states[k], mx, my, mx, my, occ, progs[k]);
        let states1 = states.update(k, r.0);
        let pcs1 = pcs.update(k, progs[k].len() as int);
        lemma_sequential_schedule_is_run_all(states1, pcs1, r.1, mx, my, progs, k + 1);
    }
}

/// With a single agent, every sufficiently long schedule yields exactly what
/// the sequential interpreter yields from the same start: for one agent the
/// outcome does not depend on the interleaving.
proof fn lemma_single_sched_aux(
    pos: Position,
    pc: int,
    occ: Seq<(u8, u8)>,
    mx: u8,
    my: u8,
    prog: Seq<char>,
    sched: Seq<int>,
)
    requires
        forall|k: int| 0 <= k < sched.len() ==> #[trigger] sched[k] == 0,
        0 <= pc <= prog.len(),
        sched.len() >= prog.len() - pc,
    ensures
        ({
            let r = run_sched(seq![pos], seq![pc], occ, mx, my, seq![prog], sched);
            let q = run_spec(pos, mx, my, mx, my, occ, prog.skip(pc));
            r.0 == seq![q.0] && r.2 == q.1
        }),
    decreases sched.len(),
{
    if sched.len() == 0 {
        assert(prog.skip(pc) =~= Seq::<char>::empty());
    } else {
        assert(sched[0] == 0);
        let rest = sched.drop_first();
        assert(forall|k: int| 0 <= k < rest.len() ==> #[trigger] rest[k] == 0) by {
            assert(forall|k: int| 0 <= k < rest.len() ==> rest[k] == sched[k + 1]);
        }
        if pc < prog.len() {
            let s = step_spec(pos, mx, my, mx, my, occ, prog[pc]);
            assert(seq![pos].update(0, s.0) =~= seq![s.0]);
            assert(seq![pc].update(0, pc + 1) =~= seq![pc + 1]);
            lemma_single_sched_aux(s.0, pc + 1, s.1, mx, my, prog, rest);
            assert(prog.skip(pc).len() > 0);
            assert(prog.skip(pc)[0] == prog[pc]);
            assert(prog.skip(pc).drop_first() =~= prog.skip(pc + 1));
        } else {
            assert(prog.skip(pc) =~= Seq::<char>::empty());
            lemma_single_sched_aux(pos, pc, occ, mx, my, prog, rest);
        }
    }
}

/// A run with one agent is schedule-independent: any schedule long enough to
/// exhaust the program ends in the same position and occupancy as the
/// sequential interpreter. (With two or more agents the final states can
/// depend on the interleaving wherever agents contend for a cell.)
pub proof fn lemma_single_agent_schedule(
    pos: Position,
    occ: Seq<(u8, u8)>,
    mx: u8,
    my: u8,
    prog: Seq<char>,
    sched: Seq<int>,
)
    requires
        forall|k: int| 0 <= k < sched.len() ==> #[trigger] sched[k] == 0,
        sched.len() >= prog.len(),
    ensures
        ({
            let r = run_sched(seq![pos], seq![0], occ, mx, my, seq![prog], sched);
            let q = run_spec(pos, mx, my, mx, my, occ, prog);
            r.0 == seq![q.0] && r.2 == q.1
        }),
{
    lemma_single_sched_aux(pos, 0, occ, mx, my, prog, sched);
    assert(prog.skip(0) =~= prog);
}

} // verus!
