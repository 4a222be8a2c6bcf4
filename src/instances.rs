use vstd::prelude::*;

use crate::types::{
    Instance, SlotAssignment, Student, Timeslot, Tutor, WorkDay, name_view, rating_from_lists,
};

verus! {

/// `s` is the student `name` with partner `partner`, who finds the slots of
/// `good` good and those of `tolerable` tolerable.
pub open spec fn student_is(
    s: Student,
    name: Seq<char>,
    partner: Option<Seq<char>>,
    good: Seq<Timeslot>,
    tolerable: Seq<Timeslot>,
) -> bool {
    &&& s.name@ == name
    &&& name_view(s.partner) == partner
    &&& forall|t: Timeslot| #[trigger] s.slot_assignment.spec_rating_for(t) == rating_from_lists(good, tolerable, t)
}

/// `t` is the tutor `name` taking one team per slot, who finds the slots of
/// `good` good and those of `tolerable` tolerable.
pub open spec fn tutor_is(t: Tutor, name: Seq<char>, good: Seq<Timeslot>, tolerable: Seq<Timeslot>) -> bool {
    &&& t.name@ == name
    &&& t.scale_factor == 1
    &&& forall|s: Timeslot| #[trigger] t.slot_assignment.spec_rating_for(s) == rating_from_lists(good, tolerable, s)
}

pub open spec fn ts(day: WorkDay, slot: u16) -> Timeslot {
    Timeslot { day, slot_of_day: slot }
}

fn slot(day: WorkDay, slot_of_day: u16) -> (r: Timeslot)
    ensures
        r == ts(day, slot_of_day),
{
    Timeslot { day, slot_of_day }
}

fn tutor(name: &str, good: &[Timeslot], tolerable: &[Timeslot]) -> (r: Tutor)
    requires
        good@.len() > 0,
        (good@ + tolerable@).no_duplicates(),
    ensures
        tutor_is(r, name@, good@, tolerable@),
{
    Tutor { name: String::from_str(name), slot_assignment: SlotAssignment::new(good, tolerable), scale_factor: 1 }
}

fn student(name: &str, partner: Option<&str>, good: &[Timeslot], tolerable: &[Timeslot]) -> (r: Student)
    requires
        good@.len() > 0,
        (good@ + tolerable@).no_duplicates(),
    ensures
        student_is(
            r,
            name@,
            match partner {
                Some(p) => Some(p@),
                None => None,
            },
            good@,
            tolerable@,
        ),
{
    let partner = match partner {
        Some(p) => Some(String::from_str(p)),
        None => None,
    };
    Student { name: String::from_str(name), slot_assignment: SlotAssignment::new(good, tolerable), partner }
}

/// Tutors Tobias (good: Monday 0, tolerable: Monday 1) and Karo (good:
/// Monday 2, tolerable: Monday 3); students Susi (good: Monday 1, partner
/// Willi), Willi (good: Monday 2 and 3, tolerable: Monday 1, partner Susi) and
/// Lisa (good: Monday 0 and 1).
pub fn small_instance0() -> (r: Instance)
    ensures
        r.tutors@.len() == 2,
        tutor_is(r.tutors@[0], "Tobias"@, seq![ts(WorkDay::Monday, 0)], seq![ts(WorkDay::Monday, 1)]),
        tutor_is(r.tutors@[1], "Karo"@, seq![ts(WorkDay::Monday, 2)], seq![ts(WorkDay::Monday, 3)]),
        r.students@.len() == 3,
        student_is(r.students@[0], "Susi"@, Some("Willi"@), seq![ts(WorkDay::Monday, 1)], seq![]),
        student_is(
            r.students@[1],
            "Willi"@,
            Some("Susi"@),
            seq![ts(WorkDay::Monday, 2), ts(WorkDay::Monday, 3)],
            seq![ts(WorkDay::Monday, 1)],
        ),
        student_is(
            r.students@[2],
            "Lisa"@,
            None,
            seq![ts(WorkDay::Monday, 0), ts(WorkDay::Monday, 1)],
            seq![],
        ),
{
    let m0 = slot(WorkDay::Monday, 0);
    let m1 = slot(WorkDay::Monday, 1);
    let m2 = slot(WorkDay::Monday, 2);
    let m3 = slot(WorkDay::Monday, 3);
    let g = [m0];
    let t = [m1];
    assert((g@ + t@).no_duplicates());
    assert(g@ =~= seq![ts(WorkDay::Monday, 0)]);
    assert(t@ =~= seq![ts(WorkDay::Monday, 1)]);
    let tobias = tutor("Tobias", &g, &t);
    let g = [m2];
    let t = [m3];
    assert((g@ + t@).no_duplicates());
    assert(g@ =~= seq![ts(WorkDay::Monday, 2)]);
    assert(t@ =~= seq![ts(WorkDay::Monday, 3)]);
    let karo = tutor("Karo", &g, &t);
    let g = [m1];
    let t: [Timeslot; 0] = [];
    assert((g@ + t@).no_duplicates());
    let susi = student("Susi", Some("Willi"), &g, &t);
    let g = [m2, m3];
    let t = [m1];
    assert((g@ + t@).no_duplicates());
    let willi = student("Willi", Some("Susi"), &g, &t);
    let g = [m0, m1];
    let t: [Timeslot; 0] = [];
    assert((g@ + t@).no_duplicates());
    let lisa = student("Lisa", None, &g, &t);
    let ghost (tb, kr) = (tobias, karo);
    let r = Instance { students: vec![susi, willi, lisa], tutors: vec![tobias, karo] };
    assert(r.tutors@[0] == tb);
    assert(r.tutors@[1] == kr);
    r
}

/// Tutors T1 (good: Tuesday 0, tolerable: Monday 0) and T2 (good: Wednesday
/// 0, tolerable: Tuesday 0); partners S1 (good: Wednesday 0, tolerable:
/// Tuesday 0) and S2 (good: Thursday 0, tolerable: Wednesday 0); S3 (good:
/// Tuesday 0 and Wednesday 0) and S4 (good: Monday 0, Tuesday 0 and
/// Wednesday 0) without partner.
pub fn small_instance1() -> (r: Instance)
    ensures
        r.tutors@.len() == 2,
        tutor_is(r.tutors@[0], "T1"@, seq![ts(WorkDay::Tuesday, 0)], seq![ts(WorkDay::Monday, 0)]),
        tutor_is(r.tutors@[1], "T2"@, seq![ts(WorkDay::Wednesday, 0)], seq![ts(WorkDay::Tuesday, 0)]),
        r.students@.len() == 4,
        student_is(r.students@[0], "S1"@, Some("S2"@), seq![ts(WorkDay::Wednesday, 0)], seq![ts(WorkDay::Tuesday, 0)]),
        student_is(r.students@[1], "S2"@, Some("S1"@), seq![ts(WorkDay::Thursday, 0)], seq![ts(WorkDay::Wednesday, 0)]),
        student_is(
            r.students@[2],
            "S3"@,
            None,
            seq![ts(WorkDay::Tuesday, 0), ts(WorkDay::Wednesday, 0)],
            seq![],
        ),
        student_is(
            r.students@[3],
            "S4"@,
            None,
            seq![ts(WorkDay::Monday, 0), ts(WorkDay::Tuesday, 0), ts(WorkDay::Wednesday, 0)],
            seq![],
        ),
{
    let mon = slot(WorkDay::Monday, 0);
    let tue = slot(WorkDay::Tuesday, 0);
    let wed = slot(WorkDay::Wednesday, 0);
    let thu = slot(WorkDay::Thursday, 0);
    let none: [Timeslot; 0] = [];
    let g = [tue];
    let t = [mon];
    assert((g@ + t@).no_duplicates());
    assert(g@ =~= seq![ts(WorkDay::Tuesday, 0)]);
    assert(t@ =~= seq![ts(WorkDay::Monday, 0)]);
    let t1 = tutor("T1", &g, &t);
    let g = [wed];
    let t = [tue];
    assert((g@ + t@).no_duplicates());
    assert(g@ =~= seq![ts(WorkDay::Wednesday, 0)]);
    assert(t@ =~= seq![ts(WorkDay::Tuesday, 0)]);
    let t2 = tutor("T2", &g, &t);
    let g = [wed];
    let t = [tue];
    assert((g@ + t@).no_duplicates());
    assert(g@ =~= seq![ts(WorkDay::Wednesday, 0)]);
    assert(t@ =~= seq![ts(WorkDay::Tuesday, 0)]);
    let s1 = student("S1", Some("S2"), &g, &t);
    let g = [thu];
    let t = [wed];
    assert((g@ + t@).no_duplicates());
    assert(g@ =~= seq![ts(WorkDay::Thursday, 0)]);
    assert(t@ =~= seq![ts(WorkDay::Wednesday, 0)]);
    let s2 = student("S2", Some("S1"), &g, &t);
    let g = [tue, wed];
    assert((g@ + none@).no_duplicates());
    assert(g@ =~= seq![ts(WorkDay::Tuesday, 0), ts(WorkDay::Wednesday, 0)]);
    assert(none@ =~= Seq::<Timeslot>::empty());
    let s3 = student("S3", None, &g, &none);
    let g = [mon, tue, wed];
    assert((g@ + none@).no_duplicates());
    assert(g@ =~= seq![ts(WorkDay::Monday, 0), ts(WorkDay::Tuesday, 0), ts(WorkDay::Wednesday, 0)]);
    let s4 = student("S4", None, &g, &none);
    let ghost (a, b) = (t1, t2);
    let ghost (c, d, e, f) = (s1, s2, s3, s4);
    let r = Instance { students: vec![s1, s2, s3, s4], tutors: vec![t1, t2] };
    assert(r.tutors@[0] == a && r.tutors@[1] == b);
    assert(r.students@[0] == c && r.students@[1] == d && r.students@[2] == e && r.students@[3] == f);
    r
}

} // verus!
