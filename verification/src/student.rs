//! Students: ranked wishes per block, the assignment table, and the score
//! that measures how well the wishes were met.

use crate::block::{Block, BLOCK_COUNT};
use crate::program::{catalog, Program, ProgramId, ProgramView, StudentId};
use vstd::prelude::*;

verus! {

/// Number of ranked wishes per block.
pub const PREF_COUNT: usize = 5;

/// Cost of a block in which the student attends a program they did not rank.
pub const UNRANKED_PENALTY: u8 = 10;

/// Least number of fields in a signup record: six leading fields, then five
/// program names for each of the five blocks.
pub const RECORD_FIELDS: usize = 31;

/// The ranked wishes for one block, most wanted first. A slot is empty when
/// the submitted name matched no program.
pub type Preference = [Option<ProgramId>; 5];

#[derive(Debug, Clone)]
pub struct Student {
    pub name: String,
    /// Wishes per block, by [`Block::index`]; `None` where the table has no
    /// entry for the block.
    pub prefs: [Option<Preference>; 5],
    pub id: StudentId,
    /// Assigned program per block, by [`Block::index`]; `None` while the
    /// student is unassigned for the block.
    pub assignments: [Option<ProgramId>; 5],
}

/// Mathematical value of a [`Student`].
pub struct StudentView {
    pub name: Seq<char>,
    pub prefs: Seq<Option<Seq<Option<ProgramId>>>>,
    pub id: StudentId,
    pub assignments: Seq<Option<ProgramId>>,
}

/// Cost of attending `program` given the ranked wishes of the block: the
/// rank of its first occurrence, or the penalty when it was not ranked.
pub open spec fn rank_cost(wishes: Seq<Option<ProgramId>>, program: ProgramId) -> int {
    match wishes.index_of_first(Some(program)) {
        Some(rank) => rank,
        None => UNRANKED_PENALTY as int,
    }
}

/// The signups as mathematical values.
pub open spec fn signups(students: Seq<Student>) -> Seq<StudentView> {
    students.map_values(|s: Student| s@)
}

/// The fields of a signup record as mathematical values.
pub open spec fn fields(record: Seq<String>) -> Seq<Seq<char>> {
    record.map_values(|f: String| f@)
}

/// The names of the catalog, in catalog order.
pub open spec fn program_names(programs: Seq<ProgramView>) -> Seq<Seq<char>> {
    programs.map_values(|p: ProgramView| p.name)
}

/// The id of the first program of the catalog that bears `name`.
pub open spec fn resolve(programs: Seq<ProgramView>, name: Seq<char>) -> Option<ProgramId> {
    match program_names(programs).index_of_first(name) {
        Some(k) => Some(programs[k].id),
        None => None,
    }
}

/// Where a signup record holds the wish of rank `rank` for the block at
/// position `block`.
pub open spec fn wish_field(block: int, rank: int) -> int {
    block * 5 + rank + 6
}

/// The student that a signup record of at least [`RECORD_FIELDS`] fields
/// describes: given name and family name joined by a space, every wish
/// resolved against the catalog, and no assignment yet.
pub open spec fn record_student(
    record: Seq<Seq<char>>,
    programs: Seq<ProgramView>,
    id: StudentId,
) -> StudentView {
    StudentView {
        name: record[3] + seq![' '] + record[2],
        prefs: Seq::new(
            5,
            |b: int| Some(Seq::new(5, |r: int| resolve(programs, record[wish_field(b, r)]))),
        ),
        id,
        assignments: Seq::new(5, |b: int| None),
    }
}

impl StudentView {
    /// Both tables have one slot per block and every wish list has five ranks.
    pub open spec fn wf(self) -> bool {
        &&& self.prefs.len() == 5
        &&& self.assignments.len() == 5
        &&& forall|b: int|
            0 <= b < 5 ==> (#[trigger] self.prefs[b] matches Some(wishes) ==> wishes.len() == 5)
    }

    /// The program assigned for `block`, if any.
    pub open spec fn assignment(self, block: Block) -> Option<ProgramId> {
        self.assignments[block.index()]
    }

    /// The wish of rank `rank` for `block`; empty where the rank is out of
    /// range, the block has no wish list, or the slot itself is empty.
    pub open spec fn pref(self, block: Block, rank: int) -> Option<ProgramId> {
        match self.prefs[block.index()] {
            Some(wishes) => if 0 <= rank < wishes.len() {
                wishes[rank]
            } else {
                None
            },
            None => None,
        }
    }

    /// The student with `program` recorded for `block`.
    pub open spec fn assign_to(self, block: Block, program: ProgramId) -> StudentView {
        StudentView { assignments: self.assignments.update(block.index(), Some(program)), ..self }
    }

    /// Score of the blocks from position `k` on. The scan ends at the first
    /// block without an assignment; an assigned block without a wish list
    /// makes the score unknown.
    pub open spec fn score_from(self, k: int) -> Option<int>
        decreases 5 - k,
    {
        if k < 0 || k >= 5 {
            Some(0)
        } else {
            match self.assignments[k] {
                None => Some(0),
                Some(program) => match self.prefs[k] {
                    None => None,
                    Some(wishes) => match self.score_from(k + 1) {
                        Some(rest) => Some(rank_cost(wishes, program) + rest),
                        None => None,
                    },
                },
            }
        }
    }

    /// Assignment quality: the sum of the ranks achieved, lower is better.
    pub open spec fn score(self) -> Option<int> {
        self.score_from(0)
    }
}

/// Mathematical value of an optional wish list.
pub open spec fn wishes_view(p: Option<Preference>) -> Option<Seq<Option<ProgramId>>> {
    match p {
        Some(wishes) => Some(wishes@),
        None => None,
    }
}

impl View for Student {
    type V = StudentView;

    open spec fn view(&self) -> StudentView {
        StudentView {
            name: self.name@,
            prefs: Seq::new(5, |b: int| wishes_view(self.prefs[b])),
            id: self.id,
            assignments: self.assignments@,
        }
    }
}

/// The cost of a ranked program is its rank; an unranked one costs the
/// penalty. Either way the cost of a list of five wishes is at most ten.
pub proof fn lemma_rank_cost(wishes: Seq<Option<ProgramId>>, program: ProgramId)
    ensures
        0 <= rank_cost(wishes, program),
        wishes.len() <= UNRANKED_PENALTY ==> rank_cost(wishes, program) <= UNRANKED_PENALTY,
        forall|rank: int|
            0 <= rank < wishes.len() && wishes[rank] == Some(program) && (forall|j: int|
                0 <= j < rank ==> wishes[j] != Some(program)) ==> rank_cost(wishes, program)
                == rank,
        (forall|j: int| 0 <= j < wishes.len() ==> wishes[j] != Some(program)) ==> rank_cost(
            wishes,
            program,
        ) == UNRANKED_PENALTY,
{
    wishes.index_of_first_ensures(Some(program));
}

/// A known score lies between 0 and ten times the number of blocks scanned.
pub proof fn lemma_score_bounds(s: StudentView, k: int)
    requires
        s.wf(),
        0 <= k <= 5,
    ensures
        s.score_from(k) matches Some(v) ==> 0 <= v <= UNRANKED_PENALTY * (5 - k),
    decreases 5 - k,
{
    if k < 5 {
        lemma_score_bounds(s, k + 1);
        if let Some(program) = s.assignments[k] {
            if let Some(wishes) = s.prefs[k] {
                lemma_rank_cost(wishes, program);
            }
        }
    }
}

fn find_program(programs: &Vec<Program>, name: &String) -> (r: Option<ProgramId>)
    ensures
        r == resolve(catalog(programs@), name@),
{
    let ghost names = program_names(catalog(programs@));
    proof {
        names.index_of_first_ensures(name@);
    }
    let mut k: usize = 0;
    while k < programs.len()
        invariant
            k <= programs.len(),
            names == program_names(catalog(programs@)),
            forall|j: int| 0 <= j < k ==> names[j] != name@,
        decreases programs.len() - k,
    {
        if programs[k].name == *name {
            proof {
                names.index_of_first_ensures(name@);
                assert(names[k as int] == name@);
                assert(catalog(programs@)[k as int].id == programs[k as int].id);
            }
            return Some(programs[k].id);
        }
        k += 1;
    }
    None
}

fn wish_cost(wishes: &Preference, program: ProgramId) -> (cost: u8)
    ensures
        cost == rank_cost(wishes@, program),
        cost <= UNRANKED_PENALTY,
{
    proof {
        lemma_rank_cost(wishes@, program);
    }
    let mut rank: u8 = 0;
    while rank < 5
        invariant
            rank <= 5,
            forall|j: int| 0 <= j < rank ==> wishes[j] != Some(program),
        decreases 5 - rank,
    {
        if wishes[rank as usize] == Some(program) {
            proof {
                lemma_rank_cost(wishes@, program);
            }
            return rank;
        }
        rank += 1;
    }
    UNRANKED_PENALTY
}

impl Student {
    /// The value of a student has one slot per block in both tables and
    /// five ranks in every wish list.
    pub proof fn lemma_view_wf(s: Student)
        ensures
            s@.wf(),
    {
    }

    /// A student with the given wishes, id 0 and no assignment.
    pub fn new(name: String, prefs: [Option<Preference>; 5]) -> (s: Student)
        ensures
            s.name == name,
            s.prefs == prefs,
            s.id == 0,
            forall|b: int| 0 <= b < 5 ==> s.assignments[b] is None,
    {
        Student { name, prefs, id: 0, assignments: [None;5] }
    }

    /// Builds the student that a signup record describes, resolving each
    /// submitted program name to the first catalog entry of that name. A
    /// record with fewer than [`RECORD_FIELDS`] fields describes no student.
    pub fn from_record(record: &Vec<String>, programs: &Vec<Program>, id: StudentId) -> (r: Option<
        Student,
    >)
        ensures
            match r {
                Some(s) => record.len() >= RECORD_FIELDS && s@ == record_student(
                    fields(record@),
                    catalog(programs@),
                    id,
                ),
                None => record.len() < RECORD_FIELDS,
            },
    {
        if record.len() < RECORD_FIELDS {
            return None;
        }
        let ghost want = record_student(fields(record@), catalog(programs@), id);
        let mut prefs: [Option<Preference>; 5] = [None;5];
        let mut b: usize = 0;
        while b < BLOCK_COUNT
            invariant
                b <= 5,
                record.len() >= RECORD_FIELDS,
                want == record_student(fields(record@), catalog(programs@), id),
                forall|i: int| 0 <= i < b ==> wishes_view(#[trigger] prefs[i]) == want.prefs[i],
            decreases 5 - b,
        {
            let mut wishes: Preference = [None;5];
            let mut r: usize = 0;
            while r < PREF_COUNT
                invariant
                    r <= 5,
                    b < 5,
                    record.len() >= RECORD_FIELDS,
                    forall|j: int|
                        0 <= j < r ==> #[trigger] wishes[j] == resolve(
                            catalog(programs@),
                            fields(record@)[wish_field(b as int, j)],
                        ),
                decreases 5 - r,
            {
                let found = find_program(programs, &record[b * 5 + r + 6]);
                wishes[r] = found;
                r += 1;
            }
            assert(wishes@ =~= want.prefs[b as int]->0);
            prefs[b] = Some(wishes);
            b += 1;
        }
        let mut name = record[3].clone();
        name.append(" ");
        name.append(record[2].as_str());
        proof {
            reveal_strlit(" ");
            assert(" "@ =~= seq![' ']);
        }
        let s = Student { name, prefs, id, assignments: [None;5] };
        assert(s@.prefs =~= want.prefs);
        assert(s@.assignments =~= want.assignments);
        Some(s)
    }

    pub fn get_pref_program(&self, block: &Block, prefn: usize) -> (p: Option<ProgramId>)
        ensures
            p == self@.pref(*block, prefn as int),
    {
        if prefn >= PREF_COUNT {
            return None;
        }
        match self.prefs[block.slot()] {
            Some(wishes) => wishes[prefn],
            None => None,
        }
    }

    pub fn is_assigned(&self, block: &Block) -> (assigned: bool)
        ensures
            assigned == self@.assignment(*block) is Some,
    {
        self.assignments[block.slot()].is_some()
    }

    /// The student's score, or `None` when some scanned block is assigned
    /// but has no wish list.
    pub fn get_assignment_score(&self) -> (r: Option<u8>)
        ensures
            match r {
                Some(v) => self@.score() == Some(v as int),
                None => self@.score() is None,
            },
    {
        let mut score: u8 = 0;
        let mut k: usize = 0;
        while k < BLOCK_COUNT
            invariant
                k <= 5,
                score <= UNRANKED_PENALTY * k,
                self@.score() == match self@.score_from(k as int) {
                    Some(rest) => Some(score + rest),
                    None => None,
                },
            decreases 5 - k,
        {
            let program = match self.assignments[k] {
                Some(p) => p,
                None => {
                    return Some(score);
                },
            };
            let wishes = match self.prefs[k] {
                Some(w) => w,
                None => {
                    return None;
                },
            };
            let cost = wish_cost(&wishes, program);
            score += cost;
            k += 1;
        }
        Some(score)
    }
}

} // verus!
