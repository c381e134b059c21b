//! The allocation engine: preference rounds and fallback placement over the
//! catalog and the signups.

use crate::block::{lemma_block_at, Block, BLOCK_COUNT};
use crate::load::LoadError;
use crate::model::{
    lemma_block_ids, lemma_block_order, lemma_fallback_target_unique, lemma_grows_refl,
    lemma_grows_trans, lemma_place, lemma_round_order, AppView,
};
use crate::order::{ids_upto, key_before, reversed, sort_by_key, sorted_by_key};
use crate::program::{catalog, Program, ProgramId, ProgramView, StudentId};
use crate::student::{signups, Student, StudentView, PREF_COUNT};
use vstd::prelude::*;

verus! {

/// The catalog and the signups of one run. Rosters and assignments are
/// written by the engine alone.
#[derive(Debug, Clone)]
pub struct App {
    programs: Vec<Program>,
    students: Vec<Student>,
}

impl View for App {
    type V = AppView;

    closed spec fn view(&self) -> AppView {
        AppView { programs: catalog(self.programs@), students: signups(self.students@) }
    }
}

/// The program sits at its own id and has an empty roster.
pub open spec fn fresh_program(programs: Seq<ProgramView>, p: int) -> bool {
    programs[p].id == p && programs[p].students.len() == 0
}

/// The student sits at their own id, has no assignment, and wishes only
/// for programs of the catalog.
pub open spec fn fresh_student(programs: Seq<ProgramView>, students: Seq<StudentView>, s: int) -> bool {
    &&& students[s].id == s
    &&& forall|b: Block| (#[trigger] students[s].assignment(b)) is None
    &&& forall|b: Block, r: int| #[trigger]
        students[s].pref(b, r) matches Some(p) ==> p < programs.len()
}

/// Every program and every student is as loaded.
pub open spec fn loadable(programs: Seq<ProgramView>, students: Seq<StudentView>) -> bool {
    &&& forall|p: int| 0 <= p < programs.len() ==> #[trigger] fresh_program(programs, p)
    &&& forall|s: int| 0 <= s < students.len() ==> #[trigger] fresh_student(programs, students, s)
}

fn program_is_fresh(programs: &Vec<Program>, p: usize) -> (fresh: bool)
    requires
        p < programs.len(),
    ensures
        fresh == fresh_program(catalog(programs@), p as int),
{
    programs[p].id == p && programs[p].students.len() == 0
}

fn student_is_fresh(programs: &Vec<Program>, students: &Vec<Student>, s: usize) -> (fresh: bool)
    requires
        s < students.len(),
    ensures
        fresh == fresh_student(catalog(programs@), signups(students@), s as int),
{
    let student = &students[s];
    let ghost sv = signups(students@)[s as int];
    assert(sv == student@);
    if student.id != s {
        return false;
    }
    let blocks = Block::values();
    let mut b: usize = 0;
    while b < BLOCK_COUNT
        invariant
            b <= 5,
            sv == student@,
            sv == signups(students@)[s as int],
            forall|i: int| 0 <= i < 5 ==> blocks[i] == Block::at(i),
            forall|c: Block| c.index() < b ==> (#[trigger] sv.assignment(c)) is None,
            forall|c: Block, r: int|
                c.index() < b ==> (#[trigger] sv.pref(c, r) matches Some(p) ==> p
                    < programs.len()),
        decreases 5 - b,
    {
        let block = blocks[b];
        proof {
            lemma_block_at(b as int);
        }
        if student.is_assigned(&block) {
            assert(sv.assignment(block) is Some);
            return false;
        }
        let mut r: usize = 0;
        while r < PREF_COUNT
            invariant
                r <= 5,
                sv == student@,
                sv == signups(students@)[s as int],
                block.index() == b,
                forall|k: int|
                    0 <= k < r ==> (#[trigger] sv.pref(block, k) matches Some(p) ==> p
                        < programs.len()),
            decreases 5 - r,
        {
            match student.get_pref_program(&block, r) {
                Some(p) => {
                    if p >= programs.len() {
                        assert(sv.pref(block, r as int) == Some(p));
                        return false;
                    }
                },
                None => {},
            }
            r += 1;
        }
        assert forall|c: Block, k: int| c.index() < b + 1 implies (#[trigger] sv.pref(c, k)
            matches Some(p) ==> p < programs.len()) by {
            if c.index() == b {
                assert(c == block);
            }
        }
        assert forall|c: Block| c.index() < b + 1 implies (#[trigger] sv.assignment(c))
            is None by {
            if c.index() == b {
                assert(c == block);
            }
        }
        b += 1;
    }
    true
}

/// A loadable input is a fresh, well-formed state.
pub proof fn lemma_loadable_is_fresh(a: AppView)
    requires
        loadable(a.programs, a.students),
        a.programs.len() <= usize::MAX,
        a.students.len() <= usize::MAX,
        forall|s: int| 0 <= s < a.students.len() ==> (#[trigger] a.students[s]).wf(),
    ensures
        a.fresh(),
{
    assert forall|p: ProgramId| p < a.programs.len() implies #[trigger] a.program_ok(p) by {
        assert(fresh_program(a.programs, p as int));
    }
    assert forall|s: StudentId| s < a.students.len() implies #[trigger] a.student_ok(s) by {
        assert(fresh_student(a.programs, a.students, s as int));
        assert(a.students[s as int].wf());
        assert forall|b: Block| #[trigger] a.assignment_ok(s, b) by {
            assert(a.student(s).assignment(b) is None);
        }
        assert forall|b: Block, r: int| #[trigger] a.wish_ok(s, b, r) by {}
    }
    assert forall|p: ProgramId| p < a.programs.len() implies (#[trigger] a.program(
        p,
    )).students.len() == 0 by {
        assert(fresh_program(a.programs, p as int));
    }
    assert forall|s: StudentId, b: Block| s < a.students.len() implies (#[trigger] a.student(
        s,
    ).assignment(b)) is None by {
        assert(fresh_student(a.programs, a.students, s as int));
    }
}

impl App {
    /// Takes the loaded catalog and signups. The input is refused unless
    /// every program sits at its own id with an empty roster, and every
    /// student sits at their own id, has no assignment and wishes only for
    /// programs of the catalog. The error names the first offender,
    /// programs before students.
    pub fn new(programs: Vec<Program>, students: Vec<Student>) -> (r: Result<App, LoadError>)
        ensures
            r is Ok <==> loadable(catalog(programs@), signups(students@)),
            match r {
                Ok(app) => app@ == (AppView {
                    programs: catalog(programs@),
                    students: signups(students@),
                }) && app@.fresh(),
                Err(LoadError::InvalidProgram(i)) => {
                    &&& i < programs.len()
                    &&& !fresh_program(catalog(programs@), i as int)
                    &&& forall|p: int| 0 <= p < i ==> #[trigger] fresh_program(catalog(programs@), p)
                },
                Err(LoadError::InvalidStudent(i)) => {
                    &&& forall|p: int|
                        0 <= p < programs.len() ==> #[trigger] fresh_program(catalog(programs@), p)
                    &&& i < students.len()
                    &&& !fresh_student(catalog(programs@), signups(students@), i as int)
                    &&& forall|s: int|
                        0 <= s < i ==> #[trigger] fresh_student(
                            catalog(programs@),
                            signups(students@),
                            s,
                        )
                },
                Err(LoadError::UnknownBlock(_)) => false,
            },
    {
        let mut p: usize = 0;
        while p < programs.len()
            invariant
                p <= programs.len(),
                forall|j: int| 0 <= j < p ==> #[trigger] fresh_program(catalog(programs@), j),
            decreases programs.len() - p,
        {
            if !program_is_fresh(&programs, p) {
                return Err(LoadError::InvalidProgram(p));
            }
            p += 1;
        }
        let mut s: usize = 0;
        while s < students.len()
            invariant
                s <= students.len(),
                forall|j: int|
                    0 <= j < programs.len() ==> #[trigger] fresh_program(catalog(programs@), j),
                forall|j: int|
                    0 <= j < s ==> #[trigger] fresh_student(
                        catalog(programs@),
                        signups(students@),
                        j,
                    ),
            decreases students.len() - s,
        {
            if !student_is_fresh(&programs, &students, s) {
                return Err(LoadError::InvalidStudent(s));
            }
            s += 1;
        }
        let app = App { programs, students };
        proof {
            assert forall|s: int| 0 <= s < app@.students.len() implies (
            #[trigger] app@.students[s]).wf() by {
                Student::lemma_view_wf(app.students@[s]);
            }
            lemma_loadable_is_fresh(app@);
        }
        Ok(app)
    }

    /// The catalog with the current rosters.
    pub fn programs(&self) -> (programs: &Vec<Program>)
        ensures
            catalog(programs@) == self@.programs,
    {
        &self.programs
    }

    /// The signups with the current assignments.
    pub fn students(&self) -> (students: &Vec<Student>)
        ensures
            signups(students@) == self@.students,
    {
        &self.students
    }

    /// Places a student: the id goes onto the roster and the program into
    /// the student's assignment table.
    fn place(&mut self, student_id: StudentId, program_id: ProgramId, block: &Block)
        requires
            old(self)@.wf(),
            old(self)@.can_place(student_id, program_id, *block),
        ensures
            final(self)@ == old(self)@.place(student_id, program_id, *block),
            final(self)@.wf(),
            old(self)@.grows_to(final(self)@),
    {
        let ghost before = self@;
        let ghost want = before.place(student_id, program_id, *block);
        let id = self.students[student_id].id;
        assert(before.student_ok(student_id));
        assert(id == student_id);
        self.programs[program_id].students.push(id);
        self.students[student_id].assignments[block.slot()] = Some(program_id);
        proof {
            assert forall|q: int| 0 <= q < want.programs.len() implies self@.programs[q]
                == want.programs[q] by {
                if q == program_id {
                    assert(self@.programs[q].students =~= want.programs[q].students);
                }
            }
            assert(self@.programs =~= want.programs);
            assert forall|t: int| 0 <= t < want.students.len() implies self@.students[t]
                == want.students[t] by {
                if t == student_id {
                    assert(self@.students[t].assignments =~= want.students[t].assignments);
                    assert(self@.students[t].prefs =~= want.students[t].prefs);
                }
            }
            assert(self@.students =~= want.students);
            lemma_place(before, student_id, program_id, *block);
        }
    }

    /// The sort key of every student's current score.
    fn score_keys(&self) -> (keys: Vec<usize>)
        ensures
            keys@ == self@.score_keys(),
    {
        let mut keys: Vec<usize> = Vec::new();
        let mut s: usize = 0;
        while s < self.students.len()
            invariant
                s <= self.students.len(),
                keys.len() == s,
                forall|j: int| 0 <= j < s ==> keys[j] == #[trigger] self@.score_keys()[j],
            decreases self.students.len() - s,
        {
            let key: usize = match self.students[s].get_assignment_score() {
                Some(v) => v as usize + 1,
                None => 0,
            };
            keys.push(key);
            s += 1;
        }
        assert(keys@ =~= self@.score_keys());
        keys
    }

    /// Roster size of every program.
    fn enrollment(&self) -> (sizes: Vec<usize>)
        ensures
            sizes@ == self@.enrollment(),
    {
        let mut sizes: Vec<usize> = Vec::new();
        let mut p: usize = 0;
        while p < self.programs.len()
            invariant
                p <= self.programs.len(),
                sizes.len() == p,
                forall|j: int| 0 <= j < p ==> sizes[j] == #[trigger] self@.enrollment()[j],
            decreases self.programs.len() - p,
        {
            sizes.push(self.programs[p].students.len());
            p += 1;
        }
        assert(sizes@ =~= self@.enrollment());
        sizes
    }

    /// The programs of the block, least enrolled first; among equally
    /// enrolled programs the one earlier in the catalog comes first.
    pub fn program_id_list_sorted(&self, block: &Block) -> (ids: Vec<ProgramId>)
        ensures
            ids@ == self@.block_order(*block),
            forall|p: ProgramId|
                ids@.contains(p) <==> (p < self@.programs.len() && self@.program(p).block
                    == *block),
            sorted_by_key(ids@, self@.enrollment()),
    {
        let mut program_ids: Vec<ProgramId> = Vec::new();
        let mut p: usize = 0;
        while p < self.programs.len()
            invariant
                p <= self.programs.len(),
                program_ids@ == self@.block_ids(*block, p as int),
            decreases self.programs.len() - p,
        {
            if self.programs[p].block == *block {
                program_ids.push(p);
            }
            p += 1;
        }
        let sizes = self.enrollment();
        proof {
            lemma_block_ids(self@, *block, self.programs.len() as int);
            lemma_block_order(self@, *block);
        }
        sort_by_key(&program_ids, &sizes)
    }

    /// All students, worst score first; among equal scores the student
    /// later in the signup list comes first.
    pub fn student_id_list_sorted(&self) -> (order: Vec<StudentId>)
        ensures
            order@ == self@.round_order(),
            order.len() == self@.students.len(),
            forall|s: StudentId| order@.contains(s) <==> s < self@.students.len(),
            forall|i: int, j: int|
                0 <= i < j < order.len() ==> key_before(
                    self@.score_keys(),
                    #[trigger] order[j],
                    #[trigger] order[i],
                ),
    {
        let keys = self.score_keys();
        let student_ids = ids_upto(self.students.len());
        let sorted = sort_by_key(&student_ids, &keys);
        proof {
            lemma_round_order(self@);
        }
        reversed(&sorted)
    }

    /// One student's turn in the round of rank `prefn`.
    fn pref_turn(&mut self, student_id: StudentId, block: &Block, prefn: usize)
        requires
            old(self)@.wf(),
            student_id < old(self)@.students.len(),
        ensures
            final(self)@ == old(self)@.pref_step(student_id, *block, prefn as int),
            final(self)@.wf(),
            old(self)@.grows_to(final(self)@),
    {
        proof {
            lemma_grows_refl(self@);
            assert(self@.student_ok(student_id));
            assert(self@.wish_ok(student_id, *block, prefn as int));
        }
        if self.students[student_id].is_assigned(block) {
            return ;
        }
        let program_id = match self.students[student_id].get_pref_program(block, prefn) {
            Some(p) => p,
            None => {
                return ;
            },
        };
        if self.programs[program_id].is_full() {
            return ;
        }
        self.place(student_id, program_id, block);
    }

    /// One preference round for the block: the students take their turn in
    /// the order that their scores on entry give.
    pub fn pref_round(&mut self, block: &Block, prefn: usize)
        requires
            old(self)@.wf(),
        ensures
            final(self)@ == old(self)@.pref_round(*block, prefn as int),
            final(self)@.wf(),
            old(self)@.grows_to(final(self)@),
    {
        let student_ids = self.student_id_list_sorted();
        let ghost before = self@;
        proof {
            lemma_round_order(before);
            lemma_grows_refl(before);
        }
        let mut k: usize = 0;
        while k < student_ids.len()
            invariant
                k <= student_ids.len(),
                before.wf(),
                student_ids@ == before.round_order(),
                forall|i: int|
                    0 <= i < student_ids.len() ==> #[trigger] student_ids[i]
                        < before.students.len(),
                self@ == before.pref_fold(student_ids@.take(k as int), *block, prefn as int),
                self@.wf(),
                before.grows_to(self@),
            decreases student_ids.len() - k,
        {
            let ghost mid = self@;
            self.pref_turn(student_ids[k], block, prefn);
            proof {
                let head = student_ids@.take(k + 1);
                assert(head.drop_last() =~= student_ids@.take(k as int));
                assert(head.last() == student_ids[k as int]);
                lemma_grows_trans(before, mid, self@);
            }
            k += 1;
        }
        assert(student_ids@.take(student_ids.len() as int) =~= student_ids@);
    }

    /// Places one student into the least enrolled program of the block that
    /// has a free seat. A student who is already assigned for the block, or
    /// who finds every program of the block full, is left as they are.
    pub fn no_pref_assign(&mut self, block: &Block, student_id: StudentId)
        requires
            old(self)@.wf(),
            student_id < old(self)@.students.len(),
        ensures
            final(self)@ == old(self)@.fallback_step(student_id, *block),
            final(self)@.wf(),
            old(self)@.grows_to(final(self)@),
    {
        let ghost before = self@;
        proof {
            lemma_grows_refl(before);
        }
        if self.students[student_id].is_assigned(block) {
            return ;
        }
        let program_ids = self.program_id_list_sorted(block);
        let mut i: usize = 0;
        while i < program_ids.len()
            invariant
                i <= program_ids.len(),
                self@ == before,
                before == old(self)@,
                before.wf(),
                student_id < before.students.len(),
                before.student(student_id).assignment(*block) is None,
                forall|p: ProgramId|
                    program_ids@.contains(p) <==> (p < before.programs.len() && before.program(
                        p,
                    ).block == *block),
                sorted_by_key(program_ids@, before.enrollment()),
                forall|j: int|
                    0 <= j < i ==> before.program(#[trigger] program_ids[j]).is_full(),
            decreases program_ids.len() - i,
        {
            let program_id = program_ids[i];
            assert(program_ids@.contains(program_id));
            if !self.programs[program_id].is_full() {
                proof {
                    assert forall|q: ProgramId| #[trigger]
                        before.open_in(*block, q) implies before.less_enrolled(program_id, q) by {
                        assert(program_ids@.contains(q));
                        let j = choose|j: int| 0 <= j < program_ids.len() && program_ids[j] == q;
                        assert(before.program_ok(q));
                        assert(before.program_ok(program_id));
                        if j > i {
                            assert(key_before(
                                before.enrollment(),
                                program_ids[i as int],
                                program_ids[j],
                            ));
                        }
                    }
                    lemma_fallback_target_unique(before, *block, program_id);
                }
                self.place(student_id, program_id, block);
                return ;
            }
            i += 1;
        }
        proof {
            assert forall|p: ProgramId| !before.is_fallback_target(*block, p) by {
                if before.open_in(*block, p) {
                    assert(program_ids@.contains(p));
                    let j = choose|j: int| 0 <= j < program_ids.len() && program_ids[j] == p;
                    assert(before.program(program_ids[j]).is_full());
                }
            }
        }
    }

    /// The fallback phase of a block: every student who is still unassigned
    /// for the block takes a fallback turn, in signup order.
    pub fn fallback_phase(&mut self, block: &Block)
        requires
            old(self)@.wf(),
        ensures
            final(self)@ == old(self)@.fallback_fold(
                *block,
                old(self)@.students.len() as int,
            ),
            final(self)@.wf(),
            old(self)@.grows_to(final(self)@),
    {
        let ghost before = self@;
        proof {
            lemma_grows_refl(before);
        }
        let count = self.students.len();
        let mut student_id: usize = 0;
        while student_id < count
            invariant
                student_id <= count,
                count == before.students.len(),
                self@ == before.fallback_fold(*block, student_id as int),
                self@.wf(),
                before.grows_to(self@),
            decreases count - student_id,
        {
            let ghost mid = self@;
            if !self.students[student_id].is_assigned(block) {
                self.no_pref_assign(block, student_id);
            }
            proof {
                lemma_grows_refl(mid);
                lemma_grows_trans(before, mid, self@);
            }
            student_id += 1;
        }
    }

    /// One block: the five preference rounds, most wanted rank first, then
    /// the fallback phase.
    pub fn assign_block(&mut self, block: &Block)
        requires
            old(self)@.wf(),
        ensures
            final(self)@ == old(self)@.assign_block(*block),
            final(self)@.wf(),
            old(self)@.grows_to(final(self)@),
    {
        let ghost before = self@;
        proof {
            lemma_grows_refl(before);
        }
        let mut prefn: usize = 0;
        while prefn < PREF_COUNT
            invariant
                prefn <= 5,
                self@ == before.pref_rounds(*block, prefn as int),
                self@.wf(),
                before.grows_to(self@),
            decreases 5 - prefn,
        {
            let ghost mid = self@;
            self.pref_round(block, prefn);
            proof {
                lemma_grows_trans(before, mid, self@);
            }
            prefn += 1;
        }
        let ghost mid = self@;
        self.fallback_phase(block);
        proof {
            lemma_grows_trans(before, mid, self@);
        }
    }

    /// Runs the whole allocation: block by block in canonical order, and
    /// within a block rank by rank before the fallback phase.
    pub fn assign(&mut self)
        requires
            old(self)@.wf(),
        ensures
            final(self)@ == old(self)@.assign(),
            final(self)@.wf(),
            old(self)@.grows_to(final(self)@),
    {
        let ghost before = self@;
        proof {
            lemma_grows_refl(before);
        }
        let blocks = Block::values();
        let mut b: usize = 0;
        while b < BLOCK_COUNT
            invariant
                b <= 5,
                forall|i: int| 0 <= i < 5 ==> blocks[i] == Block::at(i),
                self@ == before.assign_blocks(b as int),
                self@.wf(),
                before.grows_to(self@),
            decreases 5 - b,
        {
            let ghost mid = self@;
            let block = blocks[b];
            self.assign_block(&block);
            proof {
                lemma_grows_trans(before, mid, self@);
            }
            b += 1;
        }
    }
}

} // verus!
