use program_assign::app::App;
use program_assign::block::Block;
use program_assign::load::load_programs;
use program_assign::program::Program;
use program_assign::student::{Preference, Student};

const NO_WISHES: Preference = [None; 5];

fn program(name: &str, block: Block, max_cap: u8) -> Program {
    Program::new(name.to_string(), block, 0, 0, max_cap)
}

fn wishing(name: &str, wishes: &[(Block, &[usize])]) -> Student {
    let mut prefs = [Some(NO_WISHES); 5];
    for (block, ranked) in wishes {
        let mut list = NO_WISHES;
        for (rank, p) in ranked.iter().enumerate() {
            list[rank] = Some(*p);
        }
        prefs[block.slot()] = Some(list);
    }
    Student::new(name.to_string(), prefs)
}

fn build(programs: Vec<Program>, students: Vec<Student>) -> App {
    let mut students = students;
    for (i, s) in students.iter_mut().enumerate() {
        s.id = i;
    }
    App::new(load_programs(programs), students).unwrap()
}

fn assignments(app: &App) -> Vec<[Option<usize>; 5]> {
    app.students().iter().map(|s| s.assignments).collect()
}

fn rosters(app: &App) -> Vec<Vec<usize>> {
    app.programs().iter().map(|p| p.students.clone()).collect()
}

fn scores(app: &App) -> Vec<Option<u8>> {
    app.students().iter().map(|s| s.get_assignment_score()).collect()
}

fn two_for_one_seat() -> App {
    build(
        vec![program("Chess", Block::Academics, 1), program("Debate", Block::Academics, 5)],
        vec![
            wishing("Ada", &[(Block::Academics, &[0])]),
            wishing("Alan", &[(Block::Academics, &[0])]),
        ],
    )
}

fn two_blocks_two_students() -> App {
    build(
        vec![
            program("Chess", Block::Academics, 1),
            program("Debate", Block::Academics, 1),
            program("Choir", Block::Culture, 1),
            program("Dance", Block::Culture, 1),
        ],
        vec![
            wishing("Ada", &[(Block::Academics, &[0, 1]), (Block::Culture, &[2])]),
            wishing("Alan", &[(Block::Academics, &[0, 1]), (Block::Culture, &[2])]),
        ],
    )
}

fn ten_programs_four_students() -> App {
    let blocks = Block::values();
    let mut programs = Vec::new();
    for b in blocks {
        programs.push(program("first", b, 2));
        programs.push(program("second", b, 2));
    }
    let mut students = Vec::new();
    for s in 0..4 {
        let mut prefs = [Some(NO_WISHES); 5];
        for b in 0..5 {
            let top = if s < 2 { 2 * b } else { 2 * b + 1 };
            prefs[b] = Some([Some(top), None, None, None, None]);
        }
        students.push(Student::new(format!("student {}", s), prefs));
    }
    build(programs, students)
}

fn seven_for_five_seats() -> App {
    let mut students = Vec::new();
    for s in 0..7 {
        students.push(wishing(&format!("student {}", s), &[(Block::Academics, &[0, 1])]));
    }
    build(
        vec![program("Chess", Block::Academics, 2), program("Debate", Block::Academics, 3)],
        students,
    )
}

#[test]
fn fresh_round_order_is_by_descending_id() {
    let app = two_for_one_seat();
    assert_eq!(app.student_id_list_sorted(), vec![1, 0]);
}

#[test]
fn first_in_round_order_wins_the_last_seat() {
    let mut app = two_for_one_seat();
    app.pref_round(&Block::Academics, 0);
    assert_eq!(app.students()[1].assignments[0], Some(0));
    assert_eq!(app.students()[0].assignments[0], None);
    assert_eq!(rosters(&app), vec![vec![1], vec![]]);
}

#[test]
fn loser_of_round_zero_is_placed_by_fallback() {
    let mut app = two_for_one_seat();
    app.assign();
    assert_eq!(app.students()[1].assignments, [Some(0), None, None, None, None]);
    assert_eq!(app.students()[0].assignments, [Some(1), None, None, None, None]);
    assert_eq!(rosters(&app), vec![vec![1], vec![0]]);
    assert_eq!(scores(&app), vec![Some(10), Some(0)]);
}

#[test]
fn loser_of_round_zero_gets_a_later_wish() {
    let mut app = build(
        vec![program("Chess", Block::Academics, 1), program("Debate", Block::Academics, 1)],
        vec![
            wishing("Ada", &[(Block::Academics, &[0, 1])]),
            wishing("Alan", &[(Block::Academics, &[0, 1])]),
        ],
    );
    app.assign();
    assert_eq!(rosters(&app), vec![vec![1], vec![0]]);
    assert_eq!(scores(&app), vec![Some(1), Some(0)]);
}

#[test]
fn a_later_round_never_displaces_an_earlier_placement() {
    let mut app = build(
        vec![program("Chess", Block::Academics, 1)],
        vec![
            wishing("Ada", &[(Block::Academics, &[0])]),
            wishing("Alan", &[(Block::Academics, &[0])]),
        ],
    );
    app.pref_round(&Block::Academics, 0);
    let after_first = assignments(&app);
    app.pref_round(&Block::Academics, 1);
    assert_eq!(assignments(&app), after_first);
    assert_eq!(rosters(&app), vec![vec![1]]);
}

#[test]
fn fallback_fills_least_enrolled_program_first() {
    let mut app = build(
        vec![program("Small", Block::Academics, 1), program("Large", Block::Academics, 2)],
        vec![wishing("a", &[]), wishing("b", &[]), wishing("c", &[])],
    );
    app.assign();
    assert_eq!(rosters(&app), vec![vec![0], vec![1, 2]]);
    assert_eq!(app.students()[0].assignments[0], Some(0));
    assert_eq!(app.students()[1].assignments[0], Some(1));
    assert_eq!(app.students()[2].assignments[0], Some(1));
}

#[test]
fn fallback_leaves_a_student_out_when_the_block_is_full() {
    let mut app = build(
        vec![program("Small", Block::Academics, 1), program("Large", Block::Academics, 2)],
        vec![wishing("a", &[]), wishing("b", &[]), wishing("c", &[]), wishing("d", &[])],
    );
    app.assign();
    assert_eq!(rosters(&app), vec![vec![0], vec![1, 2]]);
    assert_eq!(app.students()[3].assignments, [None; 5]);
    assert!(app.programs().iter().all(|p| p.is_full()));
}

#[test]
fn fallback_considers_only_programs_of_the_block() {
    let mut app = build(
        vec![program("Choir", Block::Culture, 5), program("Chess", Block::Academics, 5)],
        vec![wishing("a", &[])],
    );
    app.fallback_phase(&Block::Academics);
    assert_eq!(app.students()[0].assignments, [Some(1), None, None, None, None]);
    app.fallback_phase(&Block::Fest);
    assert_eq!(app.students()[0].assignments, [Some(1), None, None, None, None]);
    assert_eq!(rosters(&app), vec![vec![], vec![0]]);
}

#[test]
fn program_without_seats_is_never_used() {
    let mut app = build(
        vec![program("Closed", Block::Academics, 0), program("Open", Block::Academics, 1)],
        vec![wishing("a", &[(Block::Academics, &[0])]), wishing("b", &[(Block::Academics, &[0])])],
    );
    app.assign();
    assert_eq!(rosters(&app), vec![vec![], vec![0]]);
    assert_eq!(app.students()[1].assignments, [None; 5]);
}

#[test]
fn no_pref_assign_places_one_student() {
    let mut app = build(
        vec![program("Chess", Block::Academics, 2), program("Debate", Block::Academics, 2)],
        vec![wishing("a", &[]), wishing("b", &[])],
    );
    app.no_pref_assign(&Block::Academics, 1);
    assert_eq!(rosters(&app), vec![vec![1], vec![]]);
    assert_eq!(app.students()[1].assignments[0], Some(0));
    app.no_pref_assign(&Block::Academics, 0);
    assert_eq!(rosters(&app), vec![vec![1], vec![0]]);
}

#[test]
fn no_pref_assign_leaves_an_assigned_student_alone() {
    let mut app = build(
        vec![program("Chess", Block::Academics, 2), program("Debate", Block::Academics, 2)],
        vec![wishing("a", &[])],
    );
    app.no_pref_assign(&Block::Academics, 0);
    app.no_pref_assign(&Block::Academics, 0);
    assert_eq!(rosters(&app), vec![vec![0], vec![]]);
    assert_eq!(app.students()[0].assignments, [Some(0), None, None, None, None]);
}

#[test]
fn worse_score_goes_first_in_the_next_block() {
    let mut app = two_blocks_two_students();
    app.assign_block(&Block::Academics);
    assert_eq!(scores(&app), vec![Some(1), Some(0)]);
    assert_eq!(app.student_id_list_sorted(), vec![0, 1]);
    app.assign_block(&Block::Culture);
    assert_eq!(rosters(&app), vec![vec![1], vec![0], vec![0], vec![1]]);
    assert_eq!(scores(&app), vec![Some(1), Some(10)]);
    assert_eq!(app.student_id_list_sorted(), vec![1, 0]);
}

#[test]
fn whole_run_over_two_blocks() {
    let mut app = two_blocks_two_students();
    app.assign();
    assert_eq!(
        assignments(&app),
        vec![[Some(1), Some(2), None, None, None], [Some(0), Some(3), None, None, None]]
    );
    assert_eq!(scores(&app), vec![Some(1), Some(10)]);
}

#[test]
fn round_order_breaks_ties_by_descending_id() {
    let mut app = build(
        vec![program("Chess", Block::Academics, 1)],
        vec![wishing("a", &[]), wishing("b", &[]), wishing("c", &[])],
    );
    app.assign();
    assert_eq!(scores(&app), vec![Some(10), Some(0), Some(0)]);
    assert_eq!(app.student_id_list_sorted(), vec![0, 2, 1]);
}

#[test]
fn unknown_score_sorts_last() {
    let mut app = build(
        vec![program("Chess", Block::Academics, 3)],
        vec![
            Student::new("no lists".to_string(), [None; 5]),
            wishing("no wishes", &[]),
            wishing("one wish", &[(Block::Academics, &[0])]),
        ],
    );
    app.assign();
    assert_eq!(rosters(&app), vec![vec![2, 0, 1]]);
    assert_eq!(scores(&app), vec![None, Some(10), Some(0)]);
    assert_eq!(app.student_id_list_sorted(), vec![1, 2, 0]);
}

#[test]
fn program_list_is_ordered_by_roster_size_then_id() {
    let mut app = build(
        vec![
            program("Chess", Block::Academics, 3),
            program("Debate", Block::Academics, 3),
            program("Choir", Block::Culture, 1),
            program("Logic", Block::Academics, 3),
        ],
        vec![
            wishing("a", &[(Block::Academics, &[0])]),
            wishing("b", &[(Block::Academics, &[0])]),
            wishing("c", &[(Block::Academics, &[3])]),
        ],
    );
    assert_eq!(app.program_id_list_sorted(&Block::Academics), vec![0, 1, 3]);
    app.assign();
    assert_eq!(rosters(&app), vec![vec![1, 0], vec![], vec![0], vec![2]]);
    assert_eq!(app.program_id_list_sorted(&Block::Academics), vec![1, 3, 0]);
    assert_eq!(app.program_id_list_sorted(&Block::Culture), vec![2]);
    assert_eq!(app.program_id_list_sorted(&Block::Fest), Vec::<usize>::new());
}

#[test]
fn end_to_end_everyone_gets_their_top_wish() {
    let mut app = ten_programs_four_students();
    app.assign();
    assert_eq!(scores(&app), vec![Some(0); 4]);
    assert_eq!(app.students()[0].assignments, [Some(0), Some(2), Some(4), Some(6), Some(8)]);
    assert_eq!(app.students()[1].assignments, [Some(0), Some(2), Some(4), Some(6), Some(8)]);
    assert_eq!(app.students()[2].assignments, [Some(1), Some(3), Some(5), Some(7), Some(9)]);
    assert_eq!(app.students()[3].assignments, [Some(1), Some(3), Some(5), Some(7), Some(9)]);
    for b in 0..5 {
        assert_eq!(app.programs()[2 * b].students, vec![1, 0]);
        assert_eq!(app.programs()[2 * b + 1].students, vec![3, 2]);
    }
}

#[test]
fn two_runs_on_the_same_input_agree() {
    let mut first = seven_for_five_seats();
    let mut second = seven_for_five_seats();
    first.assign();
    second.assign();
    assert_eq!(assignments(&first), assignments(&second));
    assert_eq!(rosters(&first), rosters(&second));
    let mut copy = two_blocks_two_students();
    let mut twin = copy.clone();
    copy.assign();
    twin.assign();
    assert_eq!(assignments(&copy), assignments(&twin));
    assert_eq!(rosters(&copy), rosters(&twin));
}

#[test]
fn no_roster_exceeds_its_capacity() {
    let mut app = seven_for_five_seats();
    for rank in 0..5 {
        app.pref_round(&Block::Academics, rank);
        assert!(app.programs().iter().all(|p| p.students.len() <= p.max_cap as usize));
    }
    app.fallback_phase(&Block::Academics);
    assert!(app.programs().iter().all(|p| p.students.len() <= p.max_cap as usize));
    assert_eq!(rosters(&app), vec![vec![6, 5], vec![4, 3, 2]]);
    assert_eq!(app.students()[0].assignments, [None; 5]);
    assert_eq!(app.students()[1].assignments, [None; 5]);
}

#[test]
fn every_assignment_lies_in_its_block() {
    for mut app in [ten_programs_four_students(), two_blocks_two_students(), seven_for_five_seats()] {
        app.assign();
        for s in app.students() {
            for b in Block::values() {
                if let Some(p) = s.assignments[b.slot()] {
                    assert_eq!(app.programs()[p].block, b);
                }
            }
        }
    }
}

#[test]
fn rosters_and_assignments_agree() {
    for mut app in [ten_programs_four_students(), two_blocks_two_students(), seven_for_five_seats()] {
        app.assign();
        for s in app.students() {
            for p in s.assignments.iter().flatten() {
                assert!(app.programs()[*p].student_is_assigned(s.id));
            }
        }
        for p in app.programs() {
            for s in &p.students {
                assert!(app.students()[*s].assignments.contains(&Some(p.id)));
            }
        }
    }
}

#[test]
fn unassigned_student_means_full_block() {
    let mut app = seven_for_five_seats();
    app.assign();
    for s in app.students() {
        for b in Block::values() {
            if s.assignments[b.slot()].is_none() {
                assert!(app.programs().iter().filter(|p| p.block == b).all(|p| p.is_full()));
            }
        }
    }
}

#[test]
fn wish_outside_its_block_is_followed() {
    let mut app = build(
        vec![program("Chess", Block::Academics, 2)],
        vec![wishing("a", &[(Block::Academics, &[0]), (Block::Culture, &[0])])],
    );
    app.assign();
    assert_eq!(app.students()[0].assignments, [Some(0), Some(0), None, None, None]);
    assert_eq!(rosters(&app), vec![vec![0, 0]]);
    assert_eq!(scores(&app), vec![Some(0)]);
}

#[test]
fn run_without_students_changes_nothing() {
    let mut app = build(vec![program("Chess", Block::Academics, 2)], Vec::new());
    app.assign();
    assert_eq!(rosters(&app), vec![Vec::<usize>::new()]);
    assert!(app.student_id_list_sorted().is_empty());
}

#[test]
fn run_without_programs_leaves_everyone_unassigned() {
    let mut app = build(Vec::new(), vec![wishing("a", &[]), wishing("b", &[])]);
    app.assign();
    assert_eq!(assignments(&app), vec![[None; 5]; 2]);
    assert_eq!(scores(&app), vec![Some(0), Some(0)]);
}

#[test]
fn second_run_on_a_finished_state_places_nobody_twice() {
    let mut app = seven_for_five_seats();
    app.assign();
    let before = (assignments(&app), rosters(&app));
    app.assign();
    assert_eq!((assignments(&app), rosters(&app)), before);
}
