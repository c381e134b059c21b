//! Programs: activity offerings with a capacity and a roster.

use crate::block::Block;
use vstd::prelude::*;

verus! {

/// Position of a program in the catalog.
pub type ProgramId = usize;

/// Position of a student in the signup list.
pub type StudentId = usize;

/// An activity offering that belongs to one block.
#[derive(Debug, Clone)]
pub struct Program {
    pub name: String,
    pub block: Block,
    pub room_num: u32,
    pub min_cap: u8,
    pub max_cap: u8,
    /// Ids of the students placed here, in order of placement.
    pub students: Vec<StudentId>,
    pub id: ProgramId,
}

/// Mathematical value of a [`Program`].
pub struct ProgramView {
    pub name: Seq<char>,
    pub block: Block,
    pub room_num: u32,
    pub min_cap: u8,
    pub max_cap: u8,
    pub students: Seq<StudentId>,
    pub id: ProgramId,
}

impl ProgramView {
    /// A program is full once its roster has reached the maximum capacity.
    pub open spec fn is_full(self) -> bool {
        self.students.len() >= self.max_cap
    }

    /// The program with one more student at the end of its roster.
    pub open spec fn enroll(self, student: StudentId) -> ProgramView {
        ProgramView { students: self.students.push(student), ..self }
    }
}

/// The catalog as mathematical values.
pub open spec fn catalog(programs: Seq<Program>) -> Seq<ProgramView> {
    programs.map_values(|p: Program| p@)
}

impl View for Program {
    type V = ProgramView;

    open spec fn view(&self) -> ProgramView {
        ProgramView {
            name: self.name@,
            block: self.block,
            room_num: self.room_num,
            min_cap: self.min_cap,
            max_cap: self.max_cap,
            students: self.students@,
            id: self.id,
        }
    }
}

impl Program {
    /// A catalog entry with an empty roster and id 0.
    pub fn new(name: String, block: Block, room_num: u32, min_cap: u8, max_cap: u8) -> (p: Program)
        ensures
            p@ == (ProgramView {
                name: name@,
                block,
                room_num,
                min_cap,
                max_cap,
                students: Seq::empty(),
                id: 0,
            }),
    {
        Program { name, block, room_num, min_cap, max_cap, students: Vec::new(), id: 0 }
    }

    pub fn is_full(&self) -> (full: bool)
        ensures
            full == self@.is_full(),
    {
        self.students.len() >= self.max_cap as usize
    }

    pub fn student_is_assigned(&self, studentid: StudentId) -> (found: bool)
        ensures
            found == self@.students.contains(studentid),
    {
        let mut i: usize = 0;
        while i < self.students.len()
            invariant
                i <= self.students.len(),
                forall|j: int| 0 <= j < i ==> self.students@[j] != studentid,
            decreases self.students.len() - i,
        {
            if self.students[i] == studentid {
                return true;
            }
            i += 1;
        }
        false
    }
}

} // verus!
