//! The mathematical model of the allocation: the catalog and the signups as
//! sequences of values, the placement rule, the preference rounds and the
//! fallback phase as functions on them, and the invariants they keep.

use crate::block::Block;
use crate::order::{ascending, iota, key_before, lemma_stable_sort, sorted_by_key, stable_sort};
use crate::program::{ProgramId, ProgramView, StudentId};
use crate::student::StudentView;
use vstd::prelude::*;

verus! {

/// Mathematical value of the whole allocation state.
pub struct AppView {
    pub programs: Seq<ProgramView>,
    pub students: Seq<StudentView>,
}

/// Sort key of a score. An unknown score sorts below every known one.
pub open spec fn score_key(score: Option<int>) -> usize {
    match score {
        None => 0,
        Some(v) => (v + 1) as usize,
    }
}

impl AppView {
    pub open spec fn program(self, p: ProgramId) -> ProgramView {
        self.programs[p as int]
    }

    pub open spec fn student(self, s: StudentId) -> StudentView {
        self.students[s as int]
    }

    // ----- well-formedness -------------------------------------------------

    /// The student is assigned to the program in some block.
    pub open spec fn attends(self, s: StudentId, p: ProgramId) -> bool {
        let st = self.student(s);
        ||| st.assignment(Block::Academics) == Some(p)
        ||| st.assignment(Block::Culture) == Some(p)
        ||| st.assignment(Block::Fest) == Some(p)
        ||| st.assignment(Block::Community) == Some(p)
        ||| st.assignment(Block::Experience) == Some(p)
    }

    /// The roster entry names an existing student who attends the program.
    pub open spec fn entry_ok(self, p: ProgramId, i: int) -> bool {
        let s = self.program(p).students[i];
        s < self.students.len() && self.attends(s, p)
    }

    /// The program carries its catalog position as id, its roster is within
    /// capacity, and every roster entry is backed by an assignment.
    pub open spec fn program_ok(self, p: ProgramId) -> bool {
        &&& self.program(p).id == p
        &&& self.program(p).students.len() <= self.program(p).max_cap
        &&& forall|i: int|
            0 <= i < self.program(p).students.len() ==> #[trigger] self.entry_ok(p, i)
    }

    /// An assignment names an existing program that lists the student.
    pub open spec fn assignment_ok(self, s: StudentId, b: Block) -> bool {
        self.student(s).assignment(b) matches Some(p) ==> p < self.programs.len()
            && self.program(p).students.contains(s)
    }

    /// A wish names an existing program.
    pub open spec fn wish_ok(self, s: StudentId, b: Block, r: int) -> bool {
        self.student(s).pref(b, r) matches Some(p) ==> p < self.programs.len()
    }

    pub open spec fn student_ok(self, s: StudentId) -> bool {
        &&& self.student(s).wf()
        &&& self.student(s).id == s
        &&& forall|b: Block| #[trigger] self.assignment_ok(s, b)
        &&& forall|b: Block, r: int| #[trigger] self.wish_ok(s, b, r)
    }

    /// The invariant of the allocation state: ids are positions, every id
    /// that a roster, an assignment or a wish refers to exists, no roster
    /// exceeds its capacity, and rosters and assignments agree.
    pub open spec fn wf(self) -> bool {
        &&& self.programs.len() <= usize::MAX
        &&& self.students.len() <= usize::MAX
        &&& forall|p: ProgramId| p < self.programs.len() ==> #[trigger] self.program_ok(p)
        &&& forall|s: StudentId| s < self.students.len() ==> #[trigger] self.student_ok(s)
    }

    /// The state as loaded: well-formed, with empty rosters and no assignment.
    pub open spec fn fresh(self) -> bool {
        &&& self.wf()
        &&& forall|p: ProgramId|
            p < self.programs.len() ==> (#[trigger] self.program(p)).students.len() == 0
        &&& forall|s: StudentId, b: Block|
            s < self.students.len() ==> (#[trigger] self.student(s).assignment(b)) is None
    }

    // ----- growth ----------------------------------------------------------

    /// Between the two states the program changed at most by new roster
    /// entries at the end.
    pub open spec fn program_grows(self, next: AppView, p: ProgramId) -> bool {
        &&& next.program(p) == (ProgramView {
            students: next.program(p).students,
            ..self.program(p)
        })
        &&& self.program(p).students.is_prefix_of(next.program(p).students)
    }

    /// Between the two states the student changed at most by new assignments
    /// for blocks that had none.
    pub open spec fn student_grows(self, next: AppView, s: StudentId) -> bool {
        &&& next.student(s) == (StudentView {
            assignments: next.student(s).assignments,
            ..self.student(s)
        })
        &&& forall|b: Block| #[trigger]
            self.student(s).assignment(b) is Some ==> next.student(s).assignment(b)
                == self.student(s).assignment(b)
    }

    /// `next` arises from `self` by placements only: nothing is removed or
    /// rewritten.
    pub open spec fn grows_to(self, next: AppView) -> bool {
        &&& next.programs.len() == self.programs.len()
        &&& next.students.len() == self.students.len()
        &&& forall|p: ProgramId|
            p < self.programs.len() ==> #[trigger] self.program_grows(next, p)
        &&& forall|s: StudentId|
            s < self.students.len() ==> #[trigger] self.student_grows(next, s)
    }

    // ----- placement -------------------------------------------------------

    /// The student exists and is unassigned for the block, the program
    /// exists and has a free seat.
    pub open spec fn can_place(self, s: StudentId, p: ProgramId, b: Block) -> bool {
        &&& s < self.students.len()
        &&& p < self.programs.len()
        &&& self.student(s).assignment(b) is None
        &&& !self.program(p).is_full()
    }

    /// The state after placing the student: the id goes to the end of the
    /// program's roster and the program becomes the student's assignment for
    /// the block.
    pub open spec fn place(self, s: StudentId, p: ProgramId, b: Block) -> AppView {
        AppView {
            programs: self.programs.update(p as int, self.program(p).enroll(s)),
            students: self.students.update(s as int, self.student(s).assign_to(b, p)),
        }
    }

    // ----- preference rounds -----------------------------------------------

    /// One student's turn in the round of rank `r`: placed into the wish of
    /// that rank unless already assigned for the block, without such a wish,
    /// or facing a full program.
    pub open spec fn pref_step(self, s: StudentId, b: Block, r: int) -> AppView {
        if self.student(s).assignment(b) is Some {
            self
        } else {
            match self.student(s).pref(b, r) {
                None => self,
                Some(p) => if self.program(p).is_full() {
                    self
                } else {
                    self.place(s, p, b)
                },
            }
        }
    }

    /// The turns of the students of `order`, first to last.
    pub open spec fn pref_fold(self, order: Seq<StudentId>, b: Block, r: int) -> AppView
        decreases order.len(),
    {
        if order.len() == 0 {
            self
        } else {
            self.pref_fold(order.drop_last(), b, r).pref_step(order.last(), b, r)
        }
    }

    /// The sort key of every student's current score.
    pub open spec fn score_keys(self) -> Seq<usize> {
        self.students.map_values(|s: StudentView| score_key(s.score()))
    }

    /// The order of a round: all students by descending score, and among
    /// equal scores by descending id. It is the stable ascending order read
    /// back to front.
    pub open spec fn round_order(self) -> Seq<StudentId> {
        stable_sort(iota(self.students.len()), self.score_keys()).reverse()
    }

    /// One preference round: the order is fixed from the scores on entry.
    pub open spec fn pref_round(self, b: Block, r: int) -> AppView {
        self.pref_fold(self.round_order(), b, r)
    }

    /// The rounds of ranks `0, .., n - 1`.
    pub open spec fn pref_rounds(self, b: Block, n: int) -> AppView
        decreases n,
    {
        if n <= 0 {
            self
        } else {
            self.pref_rounds(b, n - 1).pref_round(b, n - 1)
        }
    }

    // ----- fallback --------------------------------------------------------

    /// The program belongs to the block and has a free seat.
    pub open spec fn open_in(self, b: Block, p: ProgramId) -> bool {
        &&& p < self.programs.len()
        &&& self.program(p).block == b
        &&& !self.program(p).is_full()
    }

    /// `p` has fewer students than `q`, or as many and no greater id.
    pub open spec fn less_enrolled(self, p: ProgramId, q: ProgramId) -> bool {
        let lp = self.program(p).students.len();
        let lq = self.program(q).students.len();
        lp < lq || (lp == lq && p <= q)
    }

    /// `p` is the least enrolled open program of the block.
    pub open spec fn is_fallback_target(self, b: Block, p: ProgramId) -> bool {
        &&& self.open_in(b, p)
        &&& forall|q: ProgramId| #[trigger] self.open_in(b, q) ==> self.less_enrolled(p, q)
    }

    /// The least enrolled open program of the block, if the block has an
    /// open program at all.
    pub open spec fn fallback_target(self, b: Block) -> Option<ProgramId> {
        if exists|p: ProgramId| self.is_fallback_target(b, p) {
            Some(choose|p: ProgramId| self.is_fallback_target(b, p))
        } else {
            None
        }
    }

    /// One student's turn in the fallback phase: unless already assigned
    /// for the block, placed into the fallback target, or left unassigned
    /// when the block has no free seat.
    pub open spec fn fallback_step(self, s: StudentId, b: Block) -> AppView {
        if self.student(s).assignment(b) is Some {
            self
        } else {
            match self.fallback_target(b) {
                Some(p) => self.place(s, p, b),
                None => self,
            }
        }
    }

    /// The fallback turns of the students `0, .., n - 1`.
    pub open spec fn fallback_fold(self, b: Block, n: int) -> AppView
        decreases n,
    {
        if n <= 0 {
            self
        } else {
            self.fallback_fold(b, n - 1).fallback_step((n - 1) as usize, b)
        }
    }

    /// Roster size of every program.
    pub open spec fn enrollment(self) -> Seq<usize> {
        self.programs.map_values(|p: ProgramView| p.students.len() as usize)
    }

    /// The ids below `n` of the programs of the block, ascending.
    pub open spec fn block_ids(self, b: Block, n: int) -> Seq<ProgramId>
        decreases n,
    {
        if n <= 0 {
            Seq::empty()
        } else if self.programs[n - 1].block == b {
            self.block_ids(b, n - 1).push((n - 1) as usize)
        } else {
            self.block_ids(b, n - 1)
        }
    }

    /// The programs of the block by ascending roster size, and among equal
    /// sizes by ascending id.
    pub open spec fn block_order(self, b: Block) -> Seq<ProgramId> {
        stable_sort(self.block_ids(b, self.programs.len() as int), self.enrollment())
    }

    // ----- the whole run ---------------------------------------------------

    /// One block: five preference rounds, then the fallback phase.
    pub open spec fn assign_block(self, b: Block) -> AppView {
        self.pref_rounds(b, 5).fallback_fold(b, self.students.len() as int)
    }

    /// The first `n` blocks of the canonical order.
    pub open spec fn assign_blocks(self, n: int) -> AppView
        decreases n,
    {
        if n <= 0 {
            self
        } else {
            self.assign_blocks(n - 1).assign_block(Block::at(n - 1))
        }
    }

    /// The complete allocation.
    pub open spec fn assign(self) -> AppView {
        self.assign_blocks(5)
    }

    /// The student exists, is unassigned for the block and wishes for the
    /// program at the rank: the student's turn in that round will ask for a
    /// seat in it.
    pub open spec fn contends(self, s: StudentId, b: Block, r: int, p: ProgramId) -> bool {
        &&& s < self.students.len()
        &&& self.student(s).assignment(b) is None
        &&& self.student(s).pref(b, r) == Some(p)
    }

    // ----- properties of a settled state -----------------------------------

    /// Every wish for a block names a program of that block.
    pub open spec fn wishes_in_block(self) -> bool {
        forall|s: StudentId, b: Block, r: int|
            s < self.students.len() ==> (#[trigger] self.student(s).pref(b, r) matches Some(p)
                ==> p < self.programs.len() ==> self.program(p).block == b)
    }

    /// Every assignment for a block names a program of that block.
    pub open spec fn assignments_in_block(self) -> bool {
        forall|s: StudentId, b: Block|
            s < self.students.len() ==> (#[trigger] self.student(s).assignment(b) matches Some(
                p,
            ) ==> p < self.programs.len() && self.program(p).block == b)
    }

    /// No roster holds more students than the program admits.
    pub open spec fn within_capacity(self) -> bool {
        forall|p: ProgramId|
            p < self.programs.len() ==> (#[trigger] self.program(p)).students.len()
                <= self.program(p).max_cap
    }

    /// Every program of the block is full.
    pub open spec fn block_full(self, b: Block) -> bool {
        forall|p: ProgramId|
            p < self.programs.len() && (#[trigger] self.program(p)).block == b ==> self.program(
                p,
            ).is_full()
    }

    /// Whoever is unassigned for the block among the first `n` students
    /// found every program of the block full.
    pub open spec fn settled(self, b: Block, n: int) -> bool {
        forall|s: StudentId|
            s < n && s < self.students.len() && (#[trigger] self.student(s).assignment(b))
                is None ==> self.block_full(b)
    }
}

// ----- lemmas: growth --------------------------------------------------------

pub proof fn lemma_grows_refl(a: AppView)
    ensures
        a.grows_to(a),
{
    assert forall|p: ProgramId| p < a.programs.len() implies #[trigger] a.program_grows(a, p) by {
        assert(a.program(p).students.is_prefix_of(a.program(p).students));
    }
    assert forall|s: StudentId| s < a.students.len() implies #[trigger] a.student_grows(a, s) by {}
}

pub proof fn lemma_grows_trans(a: AppView, m: AppView, n: AppView)
    requires
        a.grows_to(m),
        m.grows_to(n),
    ensures
        a.grows_to(n),
{
    assert forall|p: ProgramId| p < a.programs.len() implies #[trigger] a.program_grows(n, p) by {
        assert(a.program_grows(m, p));
        assert(m.program_grows(n, p));
    }
    assert forall|s: StudentId| s < a.students.len() implies #[trigger] a.student_grows(n, s) by {
        assert(a.student_grows(m, s));
        assert(m.student_grows(n, s));
    }
}

/// A full program stays full and an assignment stays as it is.
pub proof fn lemma_grows_keeps(a: AppView, n: AppView)
    requires
        a.grows_to(n),
    ensures
        forall|p: ProgramId|
            p < a.programs.len() && a.program(p).is_full() ==> (#[trigger] n.program(p)).is_full(),
        forall|s: StudentId, b: Block|
            s < a.students.len() && n.student(s).assignment(b) is None ==> (
            #[trigger] a.student(s).assignment(b)) is None,
{
    assert forall|p: ProgramId| p < a.programs.len() && a.program(p).is_full() implies (
    #[trigger] n.program(p)).is_full() by {
        assert(a.program_grows(n, p));
    }
    assert forall|s: StudentId, b: Block|
        s < a.students.len() && n.student(s).assignment(b) is None implies (#[trigger] a.student(
            s,
        ).assignment(b)) is None by {
        assert(a.student_grows(n, s));
    }
}

// ----- lemmas: placement -----------------------------------------------------

/// Placing a student keeps the state well-formed and only adds to it.
pub proof fn lemma_place(a: AppView, s: StudentId, p: ProgramId, b: Block)
    requires
        a.wf(),
        a.can_place(s, p, b),
    ensures
        a.place(s, p, b).wf(),
        a.grows_to(a.place(s, p, b)),
{
    let n = a.place(s, p, b);
    let old_len = a.program(p).students.len() as int;
    assert(a.student_ok(s));
    assert(a.program_ok(p));
    assert(n.program(p).students[old_len] == s);
    assert forall|t: StudentId| t < n.students.len() implies #[trigger] n.student_ok(t) by {
        assert(a.student_ok(t));
        assert forall|c: Block| #[trigger] n.assignment_ok(t, c) by {
            assert(a.assignment_ok(t, c));
            if let Some(q) = n.student(t).assignment(c) {
                if t == s && c == b {
                    assert(n.program(q).students.contains(t));
                } else {
                    assert(a.student(t).assignment(c) == Some(q));
                    let i = choose|i: int|
                        0 <= i < a.program(q).students.len() && a.program(q).students[i] == t;
                    assert(n.program(q).students[i] == t);
                }
            }
        }
        assert forall|c: Block, r: int| #[trigger] n.wish_ok(t, c, r) by {
            assert(a.wish_ok(t, c, r));
        }
    }
    assert forall|q: ProgramId| q < n.programs.len() implies #[trigger] n.program_ok(q) by {
        assert(a.program_ok(q));
        assert forall|i: int| 0 <= i < n.program(q).students.len() implies #[trigger] n.entry_ok(
            q,
            i,
        ) by {
            if q == p && i == old_len {
                assert(n.student(s).assignment(b) == Some(p));
            } else {
                assert(a.entry_ok(q, i));
                let t = a.program(q).students[i];
                assert(n.program(q).students[i] == t);
                assert(a.attends(t, q));
                assert(n.attends(t, q));
            }
        }
    }
    assert forall|q: ProgramId| q < a.programs.len() implies #[trigger] a.program_grows(n, q) by {
        assert(a.program(q).students.is_prefix_of(n.program(q).students));
    }
    assert forall|t: StudentId| t < a.students.len() implies #[trigger] a.student_grows(n, t) by {}
}

/// After a placement the student attends the program and no other
/// assignment has changed.
pub proof fn lemma_place_effect(a: AppView, s: StudentId, p: ProgramId, b: Block)
    requires
        a.wf(),
        a.can_place(s, p, b),
    ensures
        a.place(s, p, b).student(s).assignment(b) == Some(p),
        a.place(s, p, b).program(p).students == a.program(p).students.push(s),
        forall|t: StudentId, c: Block|
            t < a.students.len() && (t != s || c != b) ==> #[trigger] a.place(s, p, b).student(
                t,
            ).assignment(c) == a.student(t).assignment(c),
        forall|q: ProgramId|
            q < a.programs.len() && q != p ==> #[trigger] a.place(s, p, b).program(q) == a.program(
                q,
            ),
{
    assert(a.student_ok(s));
}

/// Wishes and the blocks of programs never change, so whether every wish
/// names a program of its block is the same before and after.
pub proof fn lemma_wishes_static(a: AppView, n: AppView)
    requires
        a.grows_to(n),
        a.wishes_in_block(),
    ensures
        n.wishes_in_block(),
{
    assert forall|s: StudentId, b: Block, r: int| s < n.students.len() implies (
    #[trigger] n.student(s).pref(b, r) matches Some(p) ==> p < n.programs.len() ==> n.program(
        p,
    ).block == b) by {
        assert(a.student_grows(n, s));
        assert(n.student(s).pref(b, r) == a.student(s).pref(b, r));
        if let Some(p) = a.student(s).pref(b, r) {
            if p < a.programs.len() {
                assert(a.program_grows(n, p));
            }
        }
    }
}

/// Placing a student into a program of the block keeps every assignment
/// within its block.
pub proof fn lemma_place_in_block(a: AppView, s: StudentId, p: ProgramId, b: Block)
    requires
        a.wf(),
        a.can_place(s, p, b),
        a.assignments_in_block(),
        a.program(p).block == b,
    ensures
        a.place(s, p, b).assignments_in_block(),
{
    let n = a.place(s, p, b);
    assert(a.student_ok(s));
    assert forall|t: StudentId, c: Block| t < n.students.len() implies (#[trigger] n.student(
        t,
    ).assignment(c) matches Some(q) ==> q < n.programs.len() && n.program(q).block == c) by {
        if t == s && c == b {
        } else {
            assert(n.student(t).assignment(c) == a.student(t).assignment(c));
        }
    }
}

/// What was settled stays settled: assignments are never withdrawn and a
/// full program never loses a student.
pub proof fn lemma_settled_persists(a: AppView, n: AppView, b: Block, k: int)
    requires
        a.grows_to(n),
        a.settled(b, k),
    ensures
        n.settled(b, k),
{
    lemma_grows_keeps(a, n);
    assert forall|s: StudentId|
        s < k && s < n.students.len() && (#[trigger] n.student(s).assignment(b))
            is None implies n.block_full(b) by {
        assert(a.student(s).assignment(b) is None);
        assert(a.block_full(b));
        assert forall|p: ProgramId|
            p < n.programs.len() && (#[trigger] n.program(p)).block == b implies n.program(
            p,
        ).is_full() by {
            assert(a.program_grows(n, p));
            assert(a.program(p).block == b);
        }
    }
}

// ----- lemmas: preference rounds ---------------------------------------------

pub proof fn lemma_pref_step(a: AppView, s: StudentId, b: Block, r: int)
    requires
        a.wf(),
        s < a.students.len(),
    ensures
        a.pref_step(s, b, r).wf(),
        a.grows_to(a.pref_step(s, b, r)),
        a.wishes_in_block() && a.assignments_in_block() ==> a.pref_step(s, b, r).assignments_in_block(),
{
    lemma_grows_refl(a);
    assert(a.student_ok(s));
    assert(a.wish_ok(s, b, r));
    if a.student(s).assignment(b) is None {
        if let Some(p) = a.student(s).pref(b, r) {
            if !a.program(p).is_full() {
                lemma_place(a, s, p, b);
                if a.wishes_in_block() && a.assignments_in_block() {
                    lemma_place_in_block(a, s, p, b);
                }
            }
        }
    }
}

pub proof fn lemma_pref_fold(a: AppView, order: Seq<StudentId>, b: Block, r: int)
    requires
        a.wf(),
        forall|i: int| 0 <= i < order.len() ==> #[trigger] order[i] < a.students.len(),
    ensures
        a.pref_fold(order, b, r).wf(),
        a.grows_to(a.pref_fold(order, b, r)),
        a.wishes_in_block() && a.assignments_in_block() ==> a.pref_fold(order, b, r).assignments_in_block(),
    decreases order.len(),
{
    if order.len() == 0 {
        lemma_grows_refl(a);
    } else {
        let front = order.drop_last();
        assert forall|i: int| 0 <= i < front.len() implies #[trigger] front[i]
            < a.students.len() by {
            assert(front[i] == order[i]);
        }
        lemma_pref_fold(a, front, b, r);
        let m = a.pref_fold(front, b, r);
        assert(order.last() == order[order.len() - 1]);
        lemma_pref_step(m, order.last(), b, r);
        lemma_grows_trans(a, m, m.pref_step(order.last(), b, r));
        if a.wishes_in_block() {
            lemma_wishes_static(a, m);
        }
    }
}

/// The order of a round lists every student once, worst score first and,
/// among equal scores, greatest id first.
pub proof fn lemma_round_order(a: AppView)
    requires
        a.students.len() <= usize::MAX,
    ensures
        a.round_order().len() == a.students.len(),
        forall|i: int|
            0 <= i < a.round_order().len() ==> #[trigger] a.round_order()[i] < a.students.len(),
        forall|s: StudentId| a.round_order().contains(s) <==> s < a.students.len(),
        forall|i: int, j: int|
            0 <= i < j < a.round_order().len() ==> key_before(
                a.score_keys(),
                #[trigger] a.round_order()[j],
                #[trigger] a.round_order()[i],
            ),
        a.round_order().no_duplicates(),
{
    let ids = iota(a.students.len());
    let up = stable_sort(ids, a.score_keys());
    let order = a.round_order();
    assert(ascending(ids));
    lemma_stable_sort(ids, a.score_keys());
    assert forall|s: StudentId| order.contains(s) <==> s < a.students.len() by {
        if order.contains(s) {
            let i = choose|i: int| 0 <= i < order.len() && order[i] == s;
            assert(up[up.len() - 1 - i] == s);
            assert(up.contains(s));
            assert(ids.contains(s));
            let k = choose|k: int| 0 <= k < ids.len() && ids[k] == s;
        }
        if s < a.students.len() {
            assert(ids[s as int] == s);
            assert(ids.contains(s));
            assert(up.contains(s));
            let k = choose|k: int| 0 <= k < up.len() && up[k] == s;
            assert(order[up.len() - 1 - k] == s);
        }
    }
    assert forall|i: int| 0 <= i < order.len() implies #[trigger] order[i]
        < a.students.len() by {
        assert(order.contains(order[i]));
    }
    assert forall|i: int, j: int| 0 <= i < j < order.len() implies key_before(
        a.score_keys(),
        #[trigger] order[j],
        #[trigger] order[i],
    ) by {
        assert(key_before(a.score_keys(), up[up.len() - 1 - j], up[up.len() - 1 - i]));
    }
    assert forall|i: int, j: int| 0 <= i < order.len() && 0 <= j < order.len() && i != j implies
        order[i] != order[j] by {
        if i < j {
            assert(key_before(a.score_keys(), order[j], order[i]));
        } else {
            assert(key_before(a.score_keys(), order[i], order[j]));
        }
    }
}

pub proof fn lemma_pref_round(a: AppView, b: Block, r: int)
    requires
        a.wf(),
    ensures
        a.pref_round(b, r).wf(),
        a.grows_to(a.pref_round(b, r)),
        a.wishes_in_block() && a.assignments_in_block() ==> a.pref_round(b, r).assignments_in_block(),
{
    lemma_round_order(a);
    lemma_pref_fold(a, a.round_order(), b, r);
}

pub proof fn lemma_pref_rounds(a: AppView, b: Block, n: int)
    requires
        a.wf(),
    ensures
        a.pref_rounds(b, n).wf(),
        a.grows_to(a.pref_rounds(b, n)),
        a.wishes_in_block() && a.assignments_in_block() ==> a.pref_rounds(b, n).assignments_in_block(),
    decreases n,
{
    if n <= 0 {
        lemma_grows_refl(a);
    } else {
        lemma_pref_rounds(a, b, n - 1);
        let m = a.pref_rounds(b, n - 1);
        lemma_pref_round(m, b, n - 1);
        lemma_grows_trans(a, m, m.pref_round(b, n - 1));
        if a.wishes_in_block() {
            lemma_wishes_static(a, m);
        }
    }
}

// ----- lemmas: fallback ------------------------------------------------------

/// The least enrolled open program of a block is unique.
pub proof fn lemma_fallback_target_unique(a: AppView, b: Block, p: ProgramId)
    requires
        a.is_fallback_target(b, p),
    ensures
        a.fallback_target(b) == Some(p),
{
    let q = choose|q: ProgramId| a.is_fallback_target(b, q);
    assert(a.open_in(b, p));
    assert(a.open_in(b, q));
}

/// A block with an open program has a least enrolled open program.
pub proof fn lemma_fallback_target_exists(a: AppView, b: Block, p: ProgramId)
    requires
        a.open_in(b, p),
    ensures
        a.fallback_target(b) is Some,
    decreases a.program(p).students.len(), p,
{
    if !a.is_fallback_target(b, p) {
        let q = choose|q: ProgramId| a.open_in(b, q) && !a.less_enrolled(p, q);
        lemma_fallback_target_exists(a, b, q);
    }
}

/// A block without a fallback target is full.
pub proof fn lemma_no_target_means_full(a: AppView, b: Block)
    requires
        a.fallback_target(b) is None,
    ensures
        a.block_full(b),
{
    assert forall|p: ProgramId|
        p < a.programs.len() && (#[trigger] a.program(p)).block == b implies a.program(
        p,
    ).is_full() by {
        if !a.program(p).is_full() {
            lemma_fallback_target_exists(a, b, p);
        }
    }
}

pub proof fn lemma_fallback_step(a: AppView, s: StudentId, b: Block)
    requires
        a.wf(),
        s < a.students.len(),
    ensures
        a.fallback_step(s, b).wf(),
        a.grows_to(a.fallback_step(s, b)),
        a.assignments_in_block() ==> a.fallback_step(s, b).assignments_in_block(),
        a.fallback_step(s, b).student(s).assignment(b) is None ==> a.block_full(b)
            && a.fallback_step(s, b) == a,
{
    lemma_grows_refl(a);
    if a.student(s).assignment(b) is None {
        if let Some(p) = a.fallback_target(b) {
            assert(a.is_fallback_target(b, p));
            lemma_place(a, s, p, b);
            lemma_place_effect(a, s, p, b);
            if a.assignments_in_block() {
                lemma_place_in_block(a, s, p, b);
            }
        } else {
            lemma_no_target_means_full(a, b);
        }
    }
}

pub proof fn lemma_fallback_fold(a: AppView, b: Block, n: int)
    requires
        a.wf(),
        n <= a.students.len(),
    ensures
        a.fallback_fold(b, n).wf(),
        a.grows_to(a.fallback_fold(b, n)),
        a.assignments_in_block() ==> a.fallback_fold(b, n).assignments_in_block(),
        a.fallback_fold(b, n).settled(b, n),
    decreases n,
{
    if n <= 0 {
        lemma_grows_refl(a);
    } else {
        lemma_fallback_fold(a, b, n - 1);
        let m = a.fallback_fold(b, n - 1);
        let s = (n - 1) as usize;
        let z = m.fallback_step(s, b);
        lemma_fallback_step(m, s, b);
        lemma_grows_trans(a, m, z);
        lemma_settled_persists(m, z, b, n - 1);
        assert forall|t: StudentId|
            t < n && t < z.students.len() && (#[trigger] z.student(t).assignment(b))
                is None implies z.block_full(b) by {
            if t == s {
            } else {
                assert(z.settled(b, n - 1));
            }
        }
    }
}

/// The ids of a block are ascending and are exactly the programs of the
/// block below the bound.
pub proof fn lemma_block_ids(a: AppView, b: Block, n: int)
    requires
        0 <= n <= a.programs.len() <= usize::MAX,
    ensures
        ascending(a.block_ids(b, n)),
        forall|i: int| 0 <= i < a.block_ids(b, n).len() ==> #[trigger] a.block_ids(b, n)[i] < n,
        forall|p: ProgramId|
            a.block_ids(b, n).contains(p) <==> (p < n && a.program(p).block == b),
    decreases n,
{
    let ids = a.block_ids(b, n);
    if n > 0 {
        let front = a.block_ids(b, n - 1);
        lemma_block_ids(a, b, n - 1);
        assert forall|p: ProgramId| ids.contains(p) <==> (p < n && a.program(p).block == b) by {
            if ids.contains(p) {
                let i = choose|i: int| 0 <= i < ids.len() && ids[i] == p;
                if i < front.len() {
                    assert(front[i] == p);
                    assert(front.contains(p));
                }
            }
            if p < n && a.program(p).block == b {
                if p == n - 1 {
                    assert(ids[ids.len() - 1] == p);
                } else {
                    assert(front.contains(p));
                    let i = choose|i: int| 0 <= i < front.len() && front[i] == p;
                    assert(ids[i] == p);
                }
            }
        }
    }
}

/// The order of a block lists exactly the programs of the block, by
/// ascending roster size and, among equal sizes, by ascending id.
pub proof fn lemma_block_order(a: AppView, b: Block)
    requires
        a.programs.len() <= usize::MAX,
    ensures
        forall|p: ProgramId|
            a.block_order(b).contains(p) <==> (p < a.programs.len() && a.program(p).block == b),
        sorted_by_key(a.block_order(b), a.enrollment()),
{
    let ids = a.block_ids(b, a.programs.len() as int);
    lemma_block_ids(a, b, a.programs.len() as int);
    lemma_stable_sort(ids, a.enrollment());
    assert forall|p: ProgramId|
        a.block_order(b).contains(p) <==> (p < a.programs.len() && a.program(p).block
            == b) by {
        assert(a.block_order(b).contains(p) <==> ids.contains(p));
    }
}

// ----- lemmas: the whole run -------------------------------------------------

pub proof fn lemma_assign_block(a: AppView, b: Block)
    requires
        a.wf(),
    ensures
        a.assign_block(b).wf(),
        a.grows_to(a.assign_block(b)),
        a.wishes_in_block() && a.assignments_in_block() ==> a.assign_block(b).assignments_in_block(),
        a.assign_block(b).settled(b, a.students.len() as int),
{
    lemma_pref_rounds(a, b, 5);
    let m = a.pref_rounds(b, 5);
    lemma_fallback_fold(m, b, a.students.len() as int);
    lemma_grows_trans(a, m, a.assign_block(b));
}

pub proof fn lemma_assign_blocks(a: AppView, n: int)
    requires
        a.wf(),
    ensures
        a.assign_blocks(n).wf(),
        a.grows_to(a.assign_blocks(n)),
        a.wishes_in_block() && a.assignments_in_block() ==> a.assign_blocks(n).assignments_in_block(),
        forall|k: int|
            0 <= k < n ==> #[trigger] a.assign_blocks(n).settled(
                Block::at(k),
                a.students.len() as int,
            ),
    decreases n,
{
    if n <= 0 {
        lemma_grows_refl(a);
    } else {
        lemma_assign_blocks(a, n - 1);
        let m = a.assign_blocks(n - 1);
        let z = m.assign_block(Block::at(n - 1));
        lemma_assign_block(m, Block::at(n - 1));
        lemma_grows_trans(a, m, z);
        if a.wishes_in_block() {
            lemma_wishes_static(a, m);
        }
        assert forall|k: int| 0 <= k < n implies #[trigger] z.settled(
            Block::at(k),
            a.students.len() as int,
        ) by {
            if k < n - 1 {
                assert(m.settled(Block::at(k), a.students.len() as int));
                lemma_settled_persists(m, z, Block::at(k), a.students.len() as int);
            }
        }
    }
}

} // verus!
