use program_assign::app::App;
use program_assign::block::{Block, BLOCK_COUNT};
use program_assign::load::{load_programs, load_students, LoadError};
use program_assign::program::Program;
use program_assign::student::{Preference, Student, RECORD_FIELDS};

const NO_WISHES: Preference = [None; 5];

fn program(name: &str, block: Block, max_cap: u8) -> Program {
    Program::new(name.to_string(), block, 100, 0, max_cap)
}

fn catalog() -> Vec<Program> {
    load_programs(vec![
        program("1. Chess", Block::Academics, 2),
        program("2. Debate", Block::Academics, 2),
        program("3. Choir", Block::Culture, 2),
        program("3. Choir", Block::Fest, 2),
        program("4. Hiking", Block::Experience, 2),
    ])
}

fn record(given: &str, family: &str, wishes: &[(usize, usize, &str)]) -> Vec<String> {
    let mut fields = vec![String::new(); 31];
    fields[0] = "2024-05-01".to_string();
    fields[1] = "sam@example.org".to_string();
    fields[2] = family.to_string();
    fields[3] = given.to_string();
    for (block, rank, name) in wishes {
        fields[block * 5 + rank + 6] = name.to_string();
    }
    fields
}

fn numbered(students: Vec<Student>) -> Vec<Student> {
    let mut out = students;
    for (i, s) in out.iter_mut().enumerate() {
        s.id = i;
    }
    out
}

#[test]
fn block_codes_run_from_one_to_five() {
    assert_eq!(Block::from_code(1), Ok(Block::Academics));
    assert_eq!(Block::from_code(2), Ok(Block::Culture));
    assert_eq!(Block::from_code(3), Ok(Block::Fest));
    assert_eq!(Block::from_code(4), Ok(Block::Community));
    assert_eq!(Block::from_code(5), Ok(Block::Experience));
}

#[test]
fn other_block_codes_are_refused() {
    assert_eq!(Block::from_code(0), Err(LoadError::UnknownBlock(0)));
    assert_eq!(Block::from_code(6), Err(LoadError::UnknownBlock(6)));
    assert_eq!(Block::from_code(255), Err(LoadError::UnknownBlock(255)));
}

#[test]
fn blocks_come_in_canonical_order() {
    assert_eq!(
        Block::values(),
        [Block::Academics, Block::Culture, Block::Fest, Block::Community, Block::Experience]
    );
    assert_eq!(BLOCK_COUNT, 5);
    for (i, b) in Block::values().iter().enumerate() {
        assert_eq!(b.slot(), i);
    }
}

#[test]
fn load_programs_numbers_rows_by_position() {
    let programs = catalog();
    assert_eq!(programs.len(), 5);
    for (i, p) in programs.iter().enumerate() {
        assert_eq!(p.id, i);
        assert!(p.students.is_empty());
    }
    assert_eq!(programs[1].name, "2. Debate");
    assert_eq!(programs[3].block, Block::Fest);
    assert_eq!(programs[4].max_cap, 2);
    assert_eq!(programs[4].room_num, 100);
}

#[test]
fn load_programs_overwrites_ids_only() {
    let mut odd = program("Odd", Block::Community, 9);
    odd.id = 77;
    odd.students.push(5);
    let programs = load_programs(vec![odd]);
    assert_eq!(programs[0].id, 0);
    assert_eq!(programs[0].students, vec![5]);
    assert_eq!(programs[0].max_cap, 9);
}

#[test]
fn load_programs_of_nothing_is_nothing() {
    assert!(load_programs(Vec::new()).is_empty());
}

#[test]
fn from_record_joins_given_and_family_name() {
    let s = Student::from_record(&record("Ada", "Lovelace", &[]), &catalog(), 4).unwrap();
    assert_eq!(s.name, "Ada Lovelace");
    assert_eq!(s.id, 4);
    assert_eq!(s.assignments, [None; 5]);
}

#[test]
fn from_record_resolves_names_to_ids() {
    let rec = record(
        "Ada",
        "Lovelace",
        &[(0, 0, "2. Debate"), (0, 1, "1. Chess"), (1, 0, "3. Choir"), (4, 4, "4. Hiking")],
    );
    let s = Student::from_record(&rec, &catalog(), 0).unwrap();
    assert_eq!(s.prefs[0], Some([Some(1), Some(0), None, None, None]));
    assert_eq!(s.prefs[1], Some([Some(2), None, None, None, None]));
    assert_eq!(s.prefs[2], Some(NO_WISHES));
    assert_eq!(s.prefs[3], Some(NO_WISHES));
    assert_eq!(s.prefs[4], Some([None, None, None, None, Some(4)]));
}

#[test]
fn from_record_leaves_unknown_names_empty() {
    let rec = record("Ada", "Lovelace", &[(2, 0, "9. Juggling"), (2, 1, "3. Choir")]);
    let s = Student::from_record(&rec, &catalog(), 0).unwrap();
    assert_eq!(s.prefs[2], Some([None, Some(2), None, None, None]));
}

#[test]
fn from_record_takes_the_first_program_of_a_name_whatever_its_block() {
    let rec = record("Ada", "Lovelace", &[(2, 0, "3. Choir")]);
    let s = Student::from_record(&rec, &catalog(), 0).unwrap();
    assert_eq!(s.prefs[2].unwrap()[0], Some(2));
}

#[test]
fn from_record_hands_on_the_id_that_the_program_carries() {
    let mut programs = catalog();
    programs[1].id = 40;
    let rec = record("Ada", "Lovelace", &[(0, 0, "2. Debate")]);
    let s = Student::from_record(&rec, &programs, 0).unwrap();
    assert_eq!(s.prefs[0].unwrap()[0], Some(40));
}

#[test]
fn from_record_matches_names_exactly() {
    let rec = record("Ada", "Lovelace", &[(0, 0, "2. debate"), (0, 1, "2. Debate ")]);
    let s = Student::from_record(&rec, &catalog(), 0).unwrap();
    assert_eq!(s.prefs[0], Some(NO_WISHES));
}

#[test]
fn from_record_refuses_a_short_record() {
    let mut rec = record("Ada", "Lovelace", &[]);
    rec.pop();
    assert_eq!(rec.len(), RECORD_FIELDS - 1);
    assert!(Student::from_record(&rec, &catalog(), 0).is_none());
    assert!(Student::from_record(&Vec::new(), &catalog(), 0).is_none());
}

#[test]
fn from_record_ignores_fields_behind_the_wishes() {
    let mut rec = record("Ada", "Lovelace", &[(4, 4, "1. Chess")]);
    rec.push("1. Chess".to_string());
    let s = Student::from_record(&rec, &catalog(), 0).unwrap();
    assert_eq!(s.prefs[4], Some([None, None, None, None, Some(0)]));
}

#[test]
fn load_students_numbers_records_by_position() {
    let records = vec![
        record("Ada", "Lovelace", &[(0, 0, "1. Chess")]),
        record("Alan", "Turing", &[(0, 0, "2. Debate")]),
    ];
    let students = load_students(&records, &catalog()).unwrap();
    assert_eq!(students.len(), 2);
    assert_eq!(students[0].id, 0);
    assert_eq!(students[1].id, 1);
    assert_eq!(students[0].name, "Ada Lovelace");
    assert_eq!(students[1].name, "Alan Turing");
    assert_eq!(students[0].prefs[0].unwrap()[0], Some(0));
    assert_eq!(students[1].prefs[0].unwrap()[0], Some(1));
}

#[test]
fn load_students_reports_the_first_short_record() {
    let mut short = record("Bad", "Row", &[]);
    short.truncate(10);
    let records = vec![
        record("Ada", "Lovelace", &[]),
        short.clone(),
        record("Alan", "Turing", &[]),
        short,
    ];
    assert_eq!(load_students(&records, &catalog()).unwrap_err(), LoadError::InvalidStudent(1));
}

#[test]
fn load_students_of_nothing_is_nothing() {
    assert!(load_students(&Vec::new(), &catalog()).unwrap().is_empty());
}

#[test]
fn app_takes_what_the_loaders_give() {
    let programs = catalog();
    let records = vec![record("Ada", "Lovelace", &[(0, 0, "1. Chess"), (4, 0, "4. Hiking")])];
    let students = load_students(&records, &programs).unwrap();
    let app = App::new(programs, students).unwrap();
    assert_eq!(app.programs().len(), 5);
    assert_eq!(app.students().len(), 1);
    assert_eq!(app.students()[0].name, "Ada Lovelace");
}

#[test]
fn app_takes_an_empty_input() {
    let app = App::new(Vec::new(), Vec::new()).unwrap();
    assert!(app.programs().is_empty());
    assert!(app.students().is_empty());
}

#[test]
fn app_refuses_a_program_away_from_its_id() {
    let mut programs = catalog();
    programs[2].id = 3;
    programs[4].id = 0;
    assert_eq!(App::new(programs, Vec::new()).unwrap_err(), LoadError::InvalidProgram(2));
}

#[test]
fn app_refuses_a_program_with_a_roster() {
    let mut programs = catalog();
    programs[3].students.push(0);
    let students = numbered(vec![Student::new("Ada".to_string(), [Some(NO_WISHES); 5])]);
    assert_eq!(App::new(programs, students).unwrap_err(), LoadError::InvalidProgram(3));
}

#[test]
fn app_refuses_a_student_away_from_their_id() {
    let a = Student::new("Ada".to_string(), [Some(NO_WISHES); 5]);
    let b = Student::new("Alan".to_string(), [Some(NO_WISHES); 5]);
    assert_eq!(App::new(catalog(), vec![a, b]).unwrap_err(), LoadError::InvalidStudent(1));
}

#[test]
fn app_refuses_a_student_with_an_assignment() {
    let mut students = numbered(vec![
        Student::new("Ada".to_string(), [Some(NO_WISHES); 5]),
        Student::new("Alan".to_string(), [Some(NO_WISHES); 5]),
        Student::new("Grace".to_string(), [Some(NO_WISHES); 5]),
    ]);
    students[1].assignments[4] = Some(4);
    students[2].assignments[0] = Some(0);
    assert_eq!(App::new(catalog(), students).unwrap_err(), LoadError::InvalidStudent(1));
}

#[test]
fn app_refuses_a_wish_for_a_program_outside_the_catalog() {
    let mut prefs = [Some(NO_WISHES); 5];
    prefs[3] = Some([None, None, None, None, Some(5)]);
    let students = numbered(vec![
        Student::new("Ada".to_string(), [Some(NO_WISHES); 5]),
        Student::new("Alan".to_string(), prefs),
    ]);
    assert_eq!(App::new(catalog(), students).unwrap_err(), LoadError::InvalidStudent(1));
}

#[test]
fn app_accepts_a_wish_for_the_last_program() {
    let mut prefs = [Some(NO_WISHES); 5];
    prefs[3] = Some([None, None, None, None, Some(4)]);
    let students = numbered(vec![Student::new("Alan".to_string(), prefs)]);
    assert!(App::new(catalog(), students).is_ok());
}

#[test]
fn app_accepts_a_student_without_wish_lists() {
    let students = numbered(vec![Student::new("Alan".to_string(), [None; 5])]);
    assert!(App::new(catalog(), students).is_ok());
}

#[test]
fn app_reports_programs_before_students() {
    let mut programs = catalog();
    programs[4].id = 9;
    let students = vec![
        Student::new("Ada".to_string(), [Some(NO_WISHES); 5]),
        Student::new("Alan".to_string(), [Some(NO_WISHES); 5]),
    ];
    assert_eq!(App::new(programs, students).unwrap_err(), LoadError::InvalidProgram(4));
}
