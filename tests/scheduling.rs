use luten_scheduling::instances::{small_instance0, small_instance1};
use luten_scheduling::solver::{solve, SolveError};
use luten_scheduling::types::{
    Instance, SlotAssignment, SlotRating, Solution, Student, Team, Testat, Timeslot, Tutor, WorkDay,
};
use luten_scheduling::validator::{find_violations, is_valid_solution, Violation};

fn ts(day: WorkDay, slot_of_day: u16) -> Timeslot {
    Timeslot { day, slot_of_day }
}

fn student(name: &str, partner: Option<&str>, good: &[Timeslot], tolerable: &[Timeslot]) -> Student {
    Student {
        name: name.to_string(),
        slot_assignment: SlotAssignment::new(good, tolerable),
        partner: partner.map(|p| p.to_string()),
    }
}

fn tutor(name: &str, good: &[Timeslot], tolerable: &[Timeslot]) -> Tutor {
    Tutor {
        name: name.to_string(),
        slot_assignment: SlotAssignment::new(good, tolerable),
        scale_factor: 1,
    }
}

fn find<'a>(inst: &'a Instance, name: &str) -> &'a Student {
    inst.students.iter().find(|s| s.name == name).unwrap()
}

const MISSING: &str = "Some students from the instance are missing in the solution.";
const DOUBLE: &str = "Some students occur more than once in the solution.";
const TIME_TURNER: &str = "Some tutors have more than one Testat at the same time. Unfortunately the university does not provide time turners. =(";
const SPLIT: &str = "Some teams were ripped apart by the algorithm.";
const UNFIT: &str = "Some people were allocated Timeslots that are not fitting.";

fn expected_solution0(inst: &Instance) -> Solution {
    let tobias = inst.tutors[0].clone();
    Solution {
        testats: vec![
            Testat {
                slot: ts(WorkDay::Monday, 0),
                tutor: tobias.clone(),
                team: Team::Single(find(inst, "Lisa").clone()),
            },
            Testat {
                slot: ts(WorkDay::Monday, 1),
                tutor: tobias,
                team: Team::Full(find(inst, "Willi").clone(), find(inst, "Susi").clone()),
            },
        ],
    }
}

fn errors_of(inst: &Instance, sol: &Solution) -> Vec<String> {
    match is_valid_solution(inst, sol) {
        Ok(()) => Vec::new(),
        Err(e) => e,
    }
}

#[test]
fn rating_is_ok() {
    assert!(SlotRating::Good.is_ok());
    assert!(SlotRating::Tolerable.is_ok());
    assert!(!SlotRating::NotFitting.is_ok());
}

#[test]
fn ratings_round_trip() {
    let good = [ts(WorkDay::Monday, 0), ts(WorkDay::Tuesday, 3)];
    let tolerable = [ts(WorkDay::Friday, 7)];
    let a = SlotAssignment::new(&good, &tolerable);
    assert_eq!(a.rating_for(ts(WorkDay::Monday, 0)), SlotRating::Good);
    assert_eq!(a.rating_for(ts(WorkDay::Tuesday, 3)), SlotRating::Good);
    assert_eq!(a.rating_for(ts(WorkDay::Friday, 7)), SlotRating::Tolerable);
}

#[test]
fn unrated_slot_is_not_fitting() {
    let a = SlotAssignment::new(&[ts(WorkDay::Monday, 0)], &[ts(WorkDay::Monday, 1)]);
    assert_eq!(a.rating_for(ts(WorkDay::Monday, 2)), SlotRating::NotFitting);
    assert_eq!(a.rating_for(ts(WorkDay::Tuesday, 0)), SlotRating::NotFitting);
    assert_eq!(a.rating_for(ts(WorkDay::Friday, 65535)), SlotRating::NotFitting);
}

#[test]
fn no_good_slot_fails_to_construct() {
    assert!(SlotAssignment::try_new(&[], &[ts(WorkDay::Monday, 1)]).is_none());
    assert!(SlotAssignment::try_new(&[], &[]).is_none());
}

#[test]
fn slot_good_and_tolerable_fails_to_construct() {
    let s = ts(WorkDay::Wednesday, 4);
    assert!(SlotAssignment::try_new(&[s], &[s]).is_none());
    assert!(SlotAssignment::try_new(&[ts(WorkDay::Monday, 0), s], &[ts(WorkDay::Monday, 1), s]).is_none());
}

#[test]
fn slot_listed_twice_fails_to_construct() {
    let s = ts(WorkDay::Thursday, 2);
    assert!(SlotAssignment::try_new(&[s, s], &[]).is_none());
    assert!(SlotAssignment::try_new(&[ts(WorkDay::Monday, 0)], &[s, s]).is_none());
}

#[test]
fn checked_constructor_keeps_ratings() {
    let a = SlotAssignment::try_new(&[ts(WorkDay::Monday, 0)], &[ts(WorkDay::Monday, 1)]).unwrap();
    assert_eq!(a.rating_for(ts(WorkDay::Monday, 0)), SlotRating::Good);
    assert_eq!(a.rating_for(ts(WorkDay::Monday, 1)), SlotRating::Tolerable);
    assert_eq!(a.rating_for(ts(WorkDay::Monday, 2)), SlotRating::NotFitting);
}

#[test]
fn rated_slots_lists_each_slot_once() {
    let a = SlotAssignment::new(&[ts(WorkDay::Monday, 0), ts(WorkDay::Monday, 5)], &[ts(WorkDay::Friday, 1)]);
    let mut r = a.rated_slots();
    r.sort_by_key(|s| (s.day as u8, s.slot_of_day));
    assert_eq!(r, vec![ts(WorkDay::Monday, 0), ts(WorkDay::Monday, 5), ts(WorkDay::Friday, 1)]);
}

#[test]
fn slot_assignments_equal_regardless_of_order() {
    let a = SlotAssignment::new(&[ts(WorkDay::Monday, 0), ts(WorkDay::Monday, 1)], &[ts(WorkDay::Monday, 2)]);
    let b = SlotAssignment::new(&[ts(WorkDay::Monday, 1), ts(WorkDay::Monday, 0)], &[ts(WorkDay::Monday, 2)]);
    let c = SlotAssignment::new(&[ts(WorkDay::Monday, 1), ts(WorkDay::Monday, 0)], &[]);
    let d = SlotAssignment::new(&[ts(WorkDay::Monday, 0)], &[ts(WorkDay::Monday, 1), ts(WorkDay::Monday, 2)]);
    assert!(a == b);
    assert!(a == a.clone());
    assert!(a != c);
    assert!(a != d);
}

#[test]
fn team_contains_its_students() {
    let s1 = student("A", Some("B"), &[ts(WorkDay::Monday, 0)], &[]);
    let s2 = student("B", Some("A"), &[ts(WorkDay::Monday, 0)], &[]);
    let s3 = student("C", None, &[ts(WorkDay::Monday, 0)], &[]);
    let full = Team::Full(s1.clone(), s2.clone());
    let single = Team::Single(s3.clone());
    assert!(full.contains(&s1));
    assert!(full.contains(&s2));
    assert!(!full.contains(&s3));
    assert!(single.contains(&s3));
    assert!(!single.contains(&s1));
    let other_ratings = student("C", None, &[ts(WorkDay::Monday, 1)], &[]);
    assert!(!single.contains(&other_ratings));
    assert_eq!(full.size(), 2);
    assert_eq!(single.size(), 1);
    assert_eq!(full.student_at(1).name, "B");
}

#[test]
fn team_all_students() {
    let s1 = student("A", None, &[ts(WorkDay::Monday, 0)], &[]);
    let s2 = student("Bob", None, &[ts(WorkDay::Monday, 0)], &[]);
    let full = Team::Full(s1.clone(), s2);
    assert!(full.all_students(|s| s.name.len() >= 1));
    assert!(!full.all_students(|s| s.name.len() == 1));
    assert!(Team::Single(s1).all_students(|s| s.name == "A"));
}

#[test]
fn violation_messages() {
    assert_eq!(Violation::MissingStudent.message(), MISSING);
    assert_eq!(Violation::DuplicateStudent.message(), DOUBLE);
    assert_eq!(Violation::TutorDoubleBooked.message(), TIME_TURNER);
    assert_eq!(Violation::TeamSplit.message(), SPLIT);
    assert_eq!(Violation::UnfittingSlot.message(), UNFIT);
}

#[test]
fn small_instance0_expected_solution_is_valid() {
    let inst = small_instance0();
    let sol = expected_solution0(&inst);
    assert!(is_valid_solution(&inst, &sol).is_ok());
    assert!(find_violations(&inst, &sol).is_empty());
}

#[test]
fn solve_small_instance0() {
    let inst = small_instance0();
    let sol = solve(&inst).unwrap();
    assert!(is_valid_solution(&inst, &sol).is_ok());
    assert_eq!(sol.testats.len(), 2);
    for t in &sol.testats {
        assert_eq!(t.tutor.name, "Tobias");
        match &t.team {
            Team::Single(s) => {
                assert_eq!(s.name, "Lisa");
                assert_eq!(t.slot, ts(WorkDay::Monday, 0));
            }
            Team::Full(a, b) => {
                let mut names = vec![a.name.clone(), b.name.clone()];
                names.sort();
                assert_eq!(names, vec!["Susi".to_string(), "Willi".to_string()]);
                assert_eq!(t.slot, ts(WorkDay::Monday, 1));
            }
        }
    }
}

#[test]
fn solve_small_instance1() {
    let inst = small_instance1();
    let sol = solve(&inst).unwrap();
    assert!(is_valid_solution(&inst, &sol).is_ok());
    let pair = sol
        .testats
        .iter()
        .find(|t| matches!(&t.team, Team::Full(_, _)))
        .unwrap();
    assert_eq!(pair.slot, ts(WorkDay::Wednesday, 0));
    assert_eq!(pair.tutor.name, "T2");
    for name in ["S1", "S2", "S3", "S4"] {
        assert!(sol.testats.iter().any(|t| t.team.contains(find(&inst, name))));
    }
}

#[test]
fn missing_student_is_reported() {
    let inst = small_instance0();
    let mut sol = expected_solution0(&inst);
    sol.testats.remove(0);
    assert_eq!(errors_of(&inst, &sol), vec![MISSING.to_string()]);
    assert_eq!(find_violations(&inst, &sol), vec![Violation::MissingStudent]);
}

#[test]
fn double_booked_tutor_is_reported() {
    let inst = small_instance0();
    let mut sol = expected_solution0(&inst);
    sol.testats[0].slot = ts(WorkDay::Monday, 1);
    let errs = errors_of(&inst, &sol);
    assert!(errs.contains(&TIME_TURNER.to_string()));
    assert_eq!(
        find_violations(&inst, &sol),
        vec![Violation::TutorDoubleBooked]
    );
}

#[test]
fn unrated_slot_is_reported() {
    let inst = small_instance0();
    let mut sol = expected_solution0(&inst);
    sol.testats[0].slot = ts(WorkDay::Monday, 2);
    sol.testats[0].tutor = inst.tutors[1].clone();
    let errs = errors_of(&inst, &sol);
    assert_eq!(errs, vec![UNFIT.to_string()]);
}

#[test]
fn duplicate_student_is_reported() {
    let inst = small_instance0();
    let mut sol = expected_solution0(&inst);
    sol.testats.push(Testat {
        slot: ts(WorkDay::Monday, 2),
        tutor: inst.tutors[1].clone(),
        team: Team::Single(find(&inst, "Lisa").clone()),
    });
    assert_eq!(errors_of(&inst, &sol), vec![DOUBLE.to_string(), UNFIT.to_string()]);
}

#[test]
fn split_team_is_reported() {
    let inst = small_instance0();
    let mut sol = expected_solution0(&inst);
    sol.testats[1].team = Team::Single(find(&inst, "Susi").clone());
    sol.testats.push(Testat {
        slot: ts(WorkDay::Monday, 2),
        tutor: inst.tutors[1].clone(),
        team: Team::Single(find(&inst, "Willi").clone()),
    });
    assert_eq!(errors_of(&inst, &sol), vec![SPLIT.to_string()]);
}

#[test]
fn all_violations_are_reported_in_order() {
    let inst = small_instance0();
    let lisa = find(&inst, "Lisa").clone();
    let sol = Solution {
        testats: vec![
            Testat { slot: ts(WorkDay::Friday, 9), tutor: inst.tutors[0].clone(), team: Team::Single(lisa.clone()) },
            Testat {
                slot: ts(WorkDay::Friday, 9),
                tutor: inst.tutors[0].clone(),
                team: Team::Single(find(&inst, "Susi").clone()),
            },
            Testat { slot: ts(WorkDay::Monday, 0), tutor: inst.tutors[1].clone(), team: Team::Single(lisa) },
        ],
    };
    assert_eq!(
        errors_of(&inst, &sol),
        vec![MISSING.to_string(), DOUBLE.to_string(), TIME_TURNER.to_string(), SPLIT.to_string(), UNFIT.to_string()]
    );
}

#[test]
fn verdict_ignores_order_of_testats() {
    let inst = small_instance0();
    let sol = expected_solution0(&inst);
    let mut rev = sol.clone();
    rev.testats.reverse();
    assert_eq!(is_valid_solution(&inst, &sol), is_valid_solution(&inst, &rev));
    let mut bad = sol.clone();
    bad.testats[0].slot = ts(WorkDay::Monday, 1);
    let mut bad_rev = bad.clone();
    bad_rev.testats.reverse();
    assert_eq!(errors_of(&inst, &bad), errors_of(&inst, &bad_rev));
}

#[test]
fn unpartnered_students_share_an_appointment() {
    let inst = Instance {
        students: vec![
            student("A", None, &[ts(WorkDay::Monday, 0)], &[]),
            student("B", None, &[ts(WorkDay::Monday, 0)], &[]),
        ],
        tutors: vec![tutor("T", &[ts(WorkDay::Monday, 0)], &[])],
    };
    let sol = solve(&inst).unwrap();
    assert!(is_valid_solution(&inst, &sol).is_ok());
    assert_eq!(sol.testats.len(), 1);
    assert!(matches!(&sol.testats[0].team, Team::Full(_, _)));
    assert_eq!(sol.testats[0].tutor.name, "T");
}

#[test]
fn too_little_capacity_is_infeasible() {
    let inst = Instance {
        students: vec![
            student("A", None, &[ts(WorkDay::Monday, 0)], &[]),
            student("B", None, &[ts(WorkDay::Monday, 0)], &[]),
            student("C", None, &[ts(WorkDay::Monday, 0)], &[]),
        ],
        tutors: vec![tutor("T", &[ts(WorkDay::Monday, 0)], &[])],
    };
    assert_eq!(solve(&inst).unwrap_err(), SolveError::NoFeasibleSolution);
}

#[test]
fn no_common_slot_is_infeasible() {
    let inst = Instance {
        students: vec![student("A", None, &[ts(WorkDay::Tuesday, 0)], &[])],
        tutors: vec![tutor("T", &[ts(WorkDay::Monday, 0)], &[ts(WorkDay::Monday, 1)])],
    };
    assert_eq!(solve(&inst).unwrap_err(), SolveError::NoFeasibleSolution);
}

#[test]
fn partners_without_common_slot_are_infeasible() {
    let inst = Instance {
        students: vec![
            student("A", Some("B"), &[ts(WorkDay::Monday, 0)], &[]),
            student("B", Some("A"), &[ts(WorkDay::Monday, 1)], &[]),
        ],
        tutors: vec![tutor("T", &[ts(WorkDay::Monday, 0)], &[ts(WorkDay::Monday, 1)])],
    };
    assert_eq!(solve(&inst).unwrap_err(), SolveError::NoFeasibleSolution);
}

#[test]
fn backtracking_finds_the_only_schedule() {
    // A takes Monday 0 first, but the partners B and C need it alone.
    let m0 = ts(WorkDay::Monday, 0);
    let m1 = ts(WorkDay::Monday, 1);
    let inst = Instance {
        students: vec![
            student("A", None, &[m0], &[m1]),
            student("B", Some("C"), &[m0], &[]),
            student("C", Some("B"), &[m0], &[]),
        ],
        tutors: vec![tutor("T", &[m0, m1], &[])],
    };
    let sol = solve(&inst).unwrap();
    assert!(is_valid_solution(&inst, &sol).is_ok());
    let a = sol.testats.iter().find(|t| t.team.contains(&inst.students[0])).unwrap();
    let b = sol.testats.iter().find(|t| t.team.contains(&inst.students[1])).unwrap();
    assert_eq!(a.slot, m1);
    assert_eq!(b.slot, m0);
    assert!(b.team.contains(&inst.students[2]));
}

#[test]
fn solver_prefers_good_slots() {
    let inst = Instance {
        students: vec![student("A", None, &[ts(WorkDay::Monday, 1)], &[ts(WorkDay::Monday, 0)])],
        tutors: vec![tutor("T", &[ts(WorkDay::Monday, 0), ts(WorkDay::Monday, 1)], &[])],
    };
    let sol = solve(&inst).unwrap();
    assert_eq!(sol.testats.len(), 1);
    assert_eq!(sol.testats[0].slot, ts(WorkDay::Monday, 1));
}

#[test]
fn empty_instance_has_empty_solution() {
    let inst = Instance { students: vec![], tutors: vec![] };
    let sol = solve(&inst).unwrap();
    assert!(sol.testats.is_empty());
    assert!(is_valid_solution(&inst, &sol).is_ok());
}

#[test]
fn unknown_partner_is_invalid_input() {
    let inst = Instance {
        students: vec![student("A", Some("Nobody"), &[ts(WorkDay::Monday, 0)], &[])],
        tutors: vec![tutor("T", &[ts(WorkDay::Monday, 0)], &[])],
    };
    assert_eq!(solve(&inst).unwrap_err(), SolveError::InvalidInput);
}

#[test]
fn one_sided_partner_is_invalid_input() {
    let inst = Instance {
        students: vec![
            student("A", Some("B"), &[ts(WorkDay::Monday, 0)], &[]),
            student("B", None, &[ts(WorkDay::Monday, 0)], &[]),
        ],
        tutors: vec![tutor("T", &[ts(WorkDay::Monday, 0)], &[])],
    };
    assert_eq!(solve(&inst).unwrap_err(), SolveError::InvalidInput);
}

#[test]
fn self_partner_is_invalid_input() {
    let inst = Instance {
        students: vec![student("A", Some("A"), &[ts(WorkDay::Monday, 0)], &[])],
        tutors: vec![tutor("T", &[ts(WorkDay::Monday, 0)], &[])],
    };
    assert_eq!(solve(&inst).unwrap_err(), SolveError::InvalidInput);
}

#[test]
fn repeated_names_are_invalid_input() {
    let inst = Instance {
        students: vec![
            student("A", None, &[ts(WorkDay::Monday, 0)], &[]),
            student("A", None, &[ts(WorkDay::Monday, 1)], &[]),
        ],
        tutors: vec![tutor("T", &[ts(WorkDay::Monday, 0), ts(WorkDay::Monday, 1)], &[])],
    };
    assert_eq!(solve(&inst).unwrap_err(), SolveError::InvalidInput);
    let inst = Instance {
        students: vec![student("A", None, &[ts(WorkDay::Monday, 0)], &[])],
        tutors: vec![
            tutor("T", &[ts(WorkDay::Monday, 0)], &[]),
            tutor("T", &[ts(WorkDay::Monday, 1)], &[]),
        ],
    };
    assert_eq!(solve(&inst).unwrap_err(), SolveError::InvalidInput);
}

#[test]
fn two_tutors_share_a_slot() {
    let inst = Instance {
        students: vec![
            student("A", None, &[ts(WorkDay::Monday, 0)], &[]),
            student("B", None, &[ts(WorkDay::Monday, 0)], &[]),
            student("C", None, &[ts(WorkDay::Monday, 0)], &[]),
        ],
        tutors: vec![
            tutor("T1", &[ts(WorkDay::Monday, 0)], &[]),
            tutor("T2", &[ts(WorkDay::Monday, 0)], &[]),
        ],
    };
    let sol = solve(&inst).unwrap();
    assert!(is_valid_solution(&inst, &sol).is_ok());
    assert_eq!(sol.testats.len(), 2);
    assert_ne!(sol.testats[0].tutor.name, sol.testats[1].tutor.name);
}

#[test]
fn zero_scale_factor_is_invalid_input() {
    let mut t = tutor("T", &[ts(WorkDay::Monday, 0)], &[]);
    t.scale_factor = 0;
    let inst = Instance { students: vec![student("A", None, &[ts(WorkDay::Monday, 0)], &[])], tutors: vec![t] };
    assert_eq!(solve(&inst).unwrap_err(), SolveError::InvalidInput);
}

#[test]
fn solve_small_instance0_exactly() {
    let inst = small_instance0();
    let sol = solve(&inst).unwrap();
    let expected = expected_solution0(&inst);
    assert_eq!(sol.testats.len(), expected.testats.len());
    for t in &sol.testats {
        assert!(expected.testats.iter().any(|e| e.slot == t.slot
            && e.tutor.name == t.tutor.name
            && t.team.all_students(|s| e.team.contains(s))
            && e.team.size() == t.team.size()));
    }
}
