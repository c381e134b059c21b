//! Turning parsed catalog rows and signup records into entities.

use crate::program::{catalog, Program, ProgramView};
use crate::student::{fields, record_student, Student, RECORD_FIELDS};
use vstd::prelude::*;

verus! {

/// Why the input could not be loaded.
#[derive(Debug, PartialEq, Eq, Clone, Copy, Structural)]
pub enum LoadError {
    /// A catalog row names a block code outside `1..=5`.
    UnknownBlock(u8),
    /// The program at this position is not a fresh catalog entry.
    InvalidProgram(usize),
    /// The student or signup record at this position is malformed.
    InvalidStudent(usize),
}

/// Gives every catalog row its position as id. Nothing else changes.
pub fn load_programs(rows: Vec<Program>) -> (programs: Vec<Program>)
    ensures
        programs.len() == rows.len(),
        forall|i: int|
            0 <= i < rows.len() ==> (#[trigger] programs[i])@ == (ProgramView {
                id: i as usize,
                ..rows[i]@
            }),
{
    let mut programs = rows;
    let mut id: usize = 0;
    while id < programs.len()
        invariant
            id <= programs.len(),
            programs.len() == rows.len(),
            forall|i: int|
                0 <= i < id ==> (#[trigger] programs[i])@ == (ProgramView {
                    id: i as usize,
                    ..rows[i]@
                }),
            forall|i: int| id <= i < rows.len() ==> #[trigger] programs[i] == rows[i],
        decreases programs.len() - id,
    {
        programs[id].id = id;
        id += 1;
    }
    programs
}

/// Builds one student per signup record, numbered by position, with every
/// wish resolved against the catalog. The first record that is too short to
/// hold all wishes is reported by its position.
pub fn load_students(records: &Vec<Vec<String>>, programs: &Vec<Program>) -> (r: Result<
    Vec<Student>,
    LoadError,
>)
    ensures
        match r {
            Ok(students) => {
                &&& students.len() == records.len()
                &&& forall|i: int|
                    0 <= i < records.len() ==> (#[trigger] records[i]).len() >= RECORD_FIELDS
                        && students[i]@ == record_student(
                        fields(records[i]@),
                        catalog(programs@),
                        i as usize,
                    )
            },
            Err(LoadError::InvalidStudent(i)) => {
                &&& i < records.len()
                &&& records[i as int].len() < RECORD_FIELDS
                &&& forall|j: int| 0 <= j < i ==> (#[trigger] records[j]).len() >= RECORD_FIELDS
            },
            Err(_) => false,
        },
{
    let mut students: Vec<Student> = Vec::new();
    let mut id: usize = 0;
    while id < records.len()
        invariant
            id <= records.len(),
            students.len() == id,
            forall|i: int|
                0 <= i < id ==> (#[trigger] records[i]).len() >= RECORD_FIELDS && students[i]@
                    == record_student(fields(records[i]@), catalog(programs@), i as usize),
        decreases records.len() - id,
    {
        match Student::from_record(&records[id], programs, id) {
            Some(student) => {
                students.push(student);
            },
            None => {
                return Err(LoadError::InvalidStudent(id));
            },
        }
        id += 1;
    }
    Ok(students)
}

} // verus!
