//! What holds of every run of the allocation.

use crate::app::App;
use crate::block::{lemma_block_index, Block};
use crate::model::{
    lemma_assign_blocks, lemma_fallback_step, lemma_place, lemma_pref_round, lemma_pref_step,
    AppView,
};
use crate::program::{ProgramId, StudentId};
use crate::student::{lemma_rank_cost, rank_cost, StudentView};
use vstd::prelude::*;

verus! {

/// A well-formed state is within capacity.
pub proof fn lemma_wf_within_capacity(a: AppView)
    requires
        a.wf(),
    ensures
        a.within_capacity(),
{
    assert forall|p: ProgramId| p < a.programs.len() implies (#[trigger] a.program(
        p,
    )).students.len() <= a.program(p).max_cap by {
        assert(a.program_ok(p));
    }
}

/// No roster ever exceeds its capacity: not after a single placement, not
/// after a student's turn in a preference round or in the fallback phase,
/// not after a whole round, and not at the end of the run. Capacities
/// themselves never change.
pub proof fn capacity_is_never_exceeded(a: AppView, s: StudentId, p: ProgramId, b: Block, r: int)
    requires
        a.wf(),
        s < a.students.len(),
    ensures
        a.can_place(s, p, b) ==> a.place(s, p, b).within_capacity(),
        a.pref_step(s, b, r).within_capacity(),
        a.fallback_step(s, b).within_capacity(),
        a.pref_round(b, r).within_capacity(),
        a.assign().within_capacity(),
        forall|q: ProgramId|
            q < a.programs.len() ==> (#[trigger] a.assign().program(q)).max_cap == a.program(
                q,
            ).max_cap,
{
    if a.can_place(s, p, b) {
        lemma_place(a, s, p, b);
        lemma_wf_within_capacity(a.place(s, p, b));
    }
    lemma_pref_step(a, s, b, r);
    lemma_wf_within_capacity(a.pref_step(s, b, r));
    lemma_fallback_step(a, s, b);
    lemma_wf_within_capacity(a.fallback_step(s, b));
    lemma_pref_round(a, b, r);
    lemma_wf_within_capacity(a.pref_round(b, r));
    lemma_assign_blocks(a, 5);
    lemma_wf_within_capacity(a.assign());
    assert forall|q: ProgramId| q < a.programs.len() implies (#[trigger] a.assign().program(
        q,
    )).max_cap == a.program(q).max_cap by {
        assert(a.program_grows(a.assign(), q));
    }
}

/// The run keeps the state well-formed and withdraws nothing: every roster
/// entry and every assignment made before the run is still there after it.
pub proof fn assign_only_adds(a: AppView)
    requires
        a.wf(),
    ensures
        a.assign().wf(),
        a.grows_to(a.assign()),
{
    lemma_assign_blocks(a, 5);
}

/// The table of a student has one slot per block, so a student has at most
/// one assignment per block. Provided every wish for a block names a
/// program of that block, the run keeps every assignment within its block.
pub proof fn assignments_stay_in_block(a: AppView)
    requires
        a.wf(),
        a.wishes_in_block(),
        a.assignments_in_block(),
    ensures
        a.assign().assignments_in_block(),
{
    lemma_assign_blocks(a, 5);
}

/// Run on a state as loaded whose wishes each name a program of their
/// block, the allocation assigns a student for a block only to a program
/// of that block.
pub proof fn assignments_match_blocks(a: AppView, s: StudentId, b: Block)
    requires
        a.fresh(),
        a.wishes_in_block(),
        s < a.students.len(),
    ensures
        a.assign().student(s).assignment(b) matches Some(p) ==> p < a.programs.len()
            && a.assign().program(p).block == b && a.program(p).block == b,
{
    lemma_assign_blocks(a, 5);
    let z = a.assign();
    assert(a.assignments_in_block());
    if let Some(p) = z.student(s).assignment(b) {
        assert(p < z.programs.len() && z.program(p).block == b);
        assert(a.program_grows(z, p));
    }
}

/// Where every assignment lies within its block, a student is on the roster
/// of at most one program of a block.
pub proof fn one_roster_per_block(a: AppView, s: StudentId, p: ProgramId, q: ProgramId)
    requires
        a.wf(),
        a.assignments_in_block(),
        p < a.programs.len(),
        q < a.programs.len(),
        a.program(p).block == a.program(q).block,
        a.program(p).students.contains(s),
        a.program(q).students.contains(s),
    ensures
        p == q,
{
    assert(a.program_ok(p));
    assert(a.program_ok(q));
    let i = choose|i: int| 0 <= i < a.program(p).students.len() && a.program(p).students[i] == s;
    let j = choose|j: int| 0 <= j < a.program(q).students.len() && a.program(q).students[j] == s;
    assert(a.entry_ok(p, i));
    assert(a.entry_ok(q, j));
    assert(a.attends(s, p));
    assert(a.attends(s, q));
}

/// Two runs from the same state end in the same state.
pub proof fn assign_is_deterministic(x: App, y: App)
    requires
        x@ == y@,
    ensures
        x@.assign() == y@.assign(),
{
}

/// After the run, a student without assignment for a block found every
/// program of that block full.
pub proof fn unassigned_means_block_full(a: AppView, s: StudentId, b: Block)
    requires
        a.wf(),
        s < a.students.len(),
        a.assign().student(s).assignment(b) is None,
    ensures
        a.assign().block_full(b),
{
    lemma_assign_blocks(a, 5);
    lemma_block_index(b);
    assert(a.assign().settled(Block::at(b.index()), a.students.len() as int));
}

/// A student who is assigned for the first block only scores the cost of
/// that assignment: the rank of the program among the wishes for the block,
/// or the penalty when it is not among them.
pub proof fn score_of_first_block(s: StudentView, program: ProgramId)
    requires
        s.wf(),
        s.assignments[0] == Some(program),
        s.assignments[1] is None,
        s.prefs[0] is Some,
    ensures
        s.score() == Some(rank_cost(s.prefs[0]->0, program)),
        forall|rank: int|
            0 <= rank < 5 && s.prefs[0]->0[rank] == Some(program) && (forall|j: int|
                0 <= j < rank ==> s.prefs[0]->0[j] != Some(program)) ==> s.score() == Some(rank),
        (forall|j: int| 0 <= j < 5 ==> s.prefs[0]->0[j] != Some(program)) ==> s.score() == Some(
            10int,
        ),
{
    lemma_rank_cost(s.prefs[0]->0, program);
    assert(s.score_from(1) == Some(0int));
    assert(s.score_from(0) == Some(rank_cost(s.prefs[0]->0, program) + 0));
}

/// A student who attends their first wish in every block scores 0.
pub proof fn top_wishes_score_zero(s: StudentView)
    requires
        s.wf(),
        forall|b: Block| (#[trigger] s.assignment(b)) is Some && s.pref(b, 0) == s.assignment(b),
    ensures
        s.score() == Some(0int),
{
    assert forall|k: int| 0 <= k < 5 implies (#[trigger] s.assignments[k]) is Some && s.prefs[k]
        is Some && rank_cost(s.prefs[k]->0, s.assignments[k]->0) == 0 by {
        let b = Block::at(k);
        assert(s.assignment(b) is Some && s.pref(b, 0) == s.assignment(b));
        lemma_rank_cost(s.prefs[k]->0, s.assignments[k]->0);
    }
    assert(s.score_from(5) == Some(0int));
    assert(s.assignments[4] is Some);
    assert(s.score_from(4) == Some(0int));
    assert(s.assignments[3] is Some);
    assert(s.score_from(3) == Some(0int));
    assert(s.assignments[2] is Some);
    assert(s.score_from(2) == Some(0int));
    assert(s.assignments[1] is Some);
    assert(s.score_from(1) == Some(0int));
    assert(s.assignments[0] is Some);
    assert(s.score_from(0) == Some(0int));
}

} // verus!
