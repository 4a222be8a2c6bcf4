use vstd::prelude::*;

use crate::types::{Instance, Solution, Student, Team, Testat};

verus! {

/// One way in which a schedule can be wrong.
#[derive(Clone, Copy, PartialEq, Eq, Debug, Structural)]
pub enum Violation {
    /// A student of the instance has no appointment.
    MissingStudent,
    /// A student name occurs more than once in the schedule.
    DuplicateStudent,
    /// A tutor has two appointments in the same slot.
    TutorDoubleBooked,
    /// A student is not together with the partner they asked for.
    TeamSplit,
    /// Someone has an appointment in a slot they did not rate.
    UnfittingSlot,
}

impl Violation {
    pub open spec fn text(&self) -> Seq<char> {
        match *self {
            Violation::MissingStudent => "Some students from the instance are missing in the solution."@,
            Violation::DuplicateStudent => "Some students occur more than once in the solution."@,
            Violation::TutorDoubleBooked => "Some tutors have more than one Testat at the same time. Unfortunately the university does not provide time turners. =("@,
            Violation::TeamSplit => "Some teams were ripped apart by the algorithm."@,
            Violation::UnfittingSlot => "Some people were allocated Timeslots that are not fitting."@,
        }
    }

    /// The message shown for this violation.
    pub fn message(&self) -> (r: String)
        ensures
            r@ == self.text(),
    {
        match *self {
            Violation::MissingStudent => String::from_str("Some students from the instance are missing in the solution."),
            Violation::DuplicateStudent => String::from_str("Some students occur more than once in the solution."),
            Violation::TutorDoubleBooked => String::from_str("Some tutors have more than one Testat at the same time. Unfortunately the university does not provide time turners. =("),
            Violation::TeamSplit => String::from_str("Some teams were ripped apart by the algorithm."),
            Violation::UnfittingSlot => String::from_str("Some people were allocated Timeslots that are not fitting."),
        }
    }
}

/// The `k`-th student of the `j`-th appointment.
pub open spec fn member(ts: Seq<Testat>, j: int, k: int) -> Student {
    ts[j].team.members()[k]
}

/// Whether `(j, k)` names a student of the appointments.
pub open spec fn is_pos(ts: Seq<Testat>, j: int, k: int) -> bool {
    0 <= j < ts.len() && 0 <= k < ts[j].team.members().len()
}

/// Some place of the appointments holds `s`.
pub open spec fn is_covered(ts: Seq<Testat>, s: Student) -> bool {
    exists|j: int, k: int| is_pos(ts, j, k) && #[trigger] member(ts, j, k).same(&s)
}

/// Every student of the instance is in some appointment.
pub open spec fn all_covered(inst: Instance, ts: Seq<Testat>) -> bool {
    forall|i: int| 0 <= i < inst.students@.len() ==> is_covered(ts, #[trigger] inst.students@[i])
}

/// No two places in the appointments hold the same student name.
pub open spec fn names_unique(ts: Seq<Testat>) -> bool {
    forall|j1: int, k1: int, j2: int, k2: int|
        is_pos(ts, j1, k1) && is_pos(ts, j2, k2) && (j1 != j2 || k1 != k2) ==> #[trigger] member(
            ts,
            j1,
            k1,
        ).name@ != #[trigger] member(ts, j2, k2).name@
}

/// No tutor (by name) has two appointments in the same slot.
pub open spec fn no_double_booking(ts: Seq<Testat>) -> bool {
    forall|j1: int, j2: int|
        0 <= j1 < ts.len() && 0 <= j2 < ts.len() && j1 != j2 ==> !(#[trigger] ts[j1].slot == #[trigger] ts[j2].slot
            && ts[j1].tutor.name@ == ts[j2].tutor.name@)
}

/// The `k`-th student of `t` has either no partner, or the other student of
/// a full team is that partner.
pub open spec fn partner_kept(t: Team, k: int) -> bool {
    match t.members()[k].partner {
        None => true,
        Some(p) => match t {
            Team::Single(_) => false,
            Team::Full(s1, s2) => if k == 0 {
                s2.name@ == p@
            } else {
                s1.name@ == p@
            },
        },
    }
}

/// Every student who named a partner sits in a full team with that partner.
pub open spec fn partners_kept(ts: Seq<Testat>) -> bool {
    forall|j: int, k: int| is_pos(ts, j, k) ==> #[trigger] partner_kept(ts[j].team, k)
}

/// Everyone in an appointment rated its slot `Good` or `Tolerable`.
pub open spec fn testat_fits(t: Testat) -> bool {
    &&& forall|k: int|
        0 <= k < t.team.members().len() ==> (#[trigger] t.team.members()[k]).slot_assignment.spec_rating_for(
            t.slot,
        ).is_ok()
    &&& t.tutor.slot_assignment.spec_rating_for(t.slot).is_ok()
}

pub open spec fn all_fit(ts: Seq<Testat>) -> bool {
    forall|j: int| 0 <= j < ts.len() ==> #[trigger] testat_fits(ts[j])
}

/// The violations of `ts` against `inst`, in the order in which they are checked.
pub open spec fn violations(inst: Instance, ts: Seq<Testat>) -> Seq<Violation> {
    let a = if all_covered(inst, ts) {
        Seq::<Violation>::empty()
    } else {
        seq![Violation::MissingStudent]
    };
    let b = if names_unique(ts) {
        a
    } else {
        a.push(Violation::DuplicateStudent)
    };
    let c = if no_double_booking(ts) {
        b
    } else {
        b.push(Violation::TutorDoubleBooked)
    };
    let d = if partners_kept(ts) {
        c
    } else {
        c.push(Violation::TeamSplit)
    };
    if all_fit(ts) {
        d
    } else {
        d.push(Violation::UnfittingSlot)
    }
}

/// A schedule is valid for an instance when it has no violation.
pub open spec fn is_valid(inst: Instance, sol: Solution) -> bool {
    violations(inst, sol.testats@).len() == 0
}

/// No student name occurs twice among the places of appointments `a` and `b`.
pub open spec fn pair_apart(ts: Seq<Testat>, a: int, b: int) -> bool {
    forall|k1: int, k2: int|
        is_pos(ts, a, k1) && is_pos(ts, b, k2) && (a != b || k1 != k2) ==> #[trigger] member(ts, a, k1).name@
            != #[trigger] member(ts, b, k2).name@
}

/// Whether some place of the appointments holds `s`.
fn find_student(sol: &Solution, s: &Student) -> (r: bool)
    ensures
        r == is_covered(sol.testats@, *s),
{
    let ghost ts = sol.testats@;
    let mut j: usize = 0;
    while j < sol.testats.len()
        invariant
            0 <= j <= sol.testats@.len(),
            ts == sol.testats@,
            forall|y: int, k: int|
                0 <= y < j && is_pos(ts, y, k) ==> !(#[trigger] member(ts, y, k)).same(s),
        decreases sol.testats@.len() - j,
    {
        if sol.testats[j].team.contains(s) {
            proof {
                let k = choose|k: int|
                    0 <= k < ts[j as int].team.members().len() && ts[j as int].team.members()[k].same(s);
                assert(member(ts, j as int, k).same(s));
            }
            return true;
        }
        j = j + 1;
    }
    false
}

fn check_covered(inst: &Instance, sol: &Solution) -> (r: bool)
    ensures
        r == all_covered(*inst, sol.testats@),
{
    let ghost ts = sol.testats@;
    let mut i: usize = 0;
    while i < inst.students.len()
        invariant
            0 <= i <= inst.students@.len(),
            ts == sol.testats@,
            forall|x: int| 0 <= x < i ==> is_covered(ts, #[trigger] inst.students@[x]),
        decreases inst.students@.len() - i,
    {
        if !find_student(sol, &inst.students[i]) {
            return false;
        }
        i = i + 1;
    }
    true
}

/// Whether no name is shared between the places of appointments `a` and `b`.
fn teams_apart(ts: &Vec<Testat>, a: usize, b: usize) -> (r: bool)
    requires
        a < ts@.len(),
        b < ts@.len(),
    ensures
        r == pair_apart(ts@, a as int, b as int),
{
    let ta = &ts[a].team;
    let tb = &ts[b].team;
    let mut k1: usize = 0;
    while k1 < ta.size()
        invariant
            0 <= k1 <= ta.members().len(),
            *ta == ts@[a as int].team,
            *tb == ts@[b as int].team,
            a < ts@.len(),
            b < ts@.len(),
            forall|x: int, y: int|
                0 <= x < k1 && is_pos(ts@, a as int, x) && is_pos(ts@, b as int, y) && (a != b || x != y)
                    ==> #[trigger] member(ts@, a as int, x).name@ != #[trigger] member(ts@, b as int, y).name@,
        decreases ta.members().len() - k1,
    {
        let mut k2: usize = 0;
        while k2 < tb.size()
            invariant
                0 <= k1 < ta.members().len(),
                0 <= k2 <= tb.members().len(),
                *ta == ts@[a as int].team,
                *tb == ts@[b as int].team,
                a < ts@.len(),
                b < ts@.len(),
                forall|x: int, y: int|
                    0 <= x < k1 && is_pos(ts@, a as int, x) && is_pos(ts@, b as int, y) && (a != b || x != y)
                        ==> #[trigger] member(ts@, a as int, x).name@ != #[trigger] member(ts@, b as int, y).name@,
                forall|y: int|
                    0 <= y < k2 && (a != b || k1 != y) ==> member(ts@, a as int, k1 as int).name@ != #[trigger] member(
                        ts@,
                        b as int,
                        y,
                    ).name@,
            decreases tb.members().len() - k2,
        {
            if (a != b || k1 != k2) && ta.student_at(k1).name == tb.student_at(k2).name {
                proof {
                    assert(member(ts@, a as int, k1 as int).name@ == member(ts@, b as int, k2 as int).name@);
                }
                return false;
            }
            k2 = k2 + 1;
        }
        k1 = k1 + 1;
    }
    true
}

fn check_names_unique(sol: &Solution) -> (r: bool)
    ensures
        r == names_unique(sol.testats@),
{
    let ts = &sol.testats;
    let n = ts.len();
    let mut a: usize = 0;
    while a < n
        invariant
            0 <= a <= ts@.len(),
            n == ts@.len(),
            *ts == sol.testats,
            forall|x: int, y: int| 0 <= y <= x < a ==> #[trigger] pair_apart(ts@, x, y),
        decreases ts@.len() - a,
    {
        let mut b: usize = 0;
        while b <= a
            invariant
                0 <= a < ts@.len(),
                n == ts@.len(),
                0 <= b <= a + 1,
                *ts == sol.testats,
                forall|x: int, y: int| 0 <= y <= x < a ==> #[trigger] pair_apart(ts@, x, y),
                forall|y: int| 0 <= y < b ==> #[trigger] pair_apart(ts@, a as int, y),
            decreases a + 1 - b,
        {
            if !teams_apart(ts, a, b) {
                return false;
            }
            b = b + 1;
        }
        a = a + 1;
    }
    proof {
        assert forall|j1: int, k1: int, j2: int, k2: int|
            is_pos(ts@, j1, k1) && is_pos(ts@, j2, k2) && (j1 != j2 || k1 != k2) implies #[trigger] member(
            ts@,
            j1,
            k1,
        ).name@ != #[trigger] member(ts@, j2, k2).name@ by {
            if j2 <= j1 {
                assert(pair_apart(ts@, j1, j2));
            } else {
                assert(pair_apart(ts@, j2, j1));
            }
        }
    }
    true
}

fn check_double_booking(sol: &Solution) -> (r: bool)
    ensures
        r == no_double_booking(sol.testats@),
{
    let ts = &sol.testats;
    let mut a: usize = 0;
    while a < ts.len()
        invariant
            0 <= a <= ts@.len(),
            *ts == sol.testats,
            forall|x: int, y: int|
                0 <= y < x < a ==> !(#[trigger] ts@[x].slot == #[trigger] ts@[y].slot && ts@[x].tutor.name@
                    == ts@[y].tutor.name@),
        decreases ts@.len() - a,
    {
        let mut b: usize = 0;
        while b < a
            invariant
                0 <= b <= a < ts@.len(),
                *ts == sol.testats,
                forall|x: int, y: int|
                    0 <= y < x < a ==> !(#[trigger] ts@[x].slot == #[trigger] ts@[y].slot && ts@[x].tutor.name@
                        == ts@[y].tutor.name@),
                forall|y: int|
                    0 <= y < b ==> !(ts@[a as int].slot == #[trigger] ts@[y].slot && ts@[a as int].tutor.name@
                        == ts@[y].tutor.name@),
            decreases a - b,
        {
            if ts[a].slot == ts[b].slot && ts[a].tutor.name == ts[b].tutor.name {
                return false;
            }
            b = b + 1;
        }
        a = a + 1;
    }
    proof {
        assert forall|j1: int, j2: int|
            0 <= j1 < ts@.len() && 0 <= j2 < ts@.len() && j1 != j2 implies !(#[trigger] ts@[j1].slot
            == #[trigger] ts@[j2].slot && ts@[j1].tutor.name@ == ts@[j2].tutor.name@) by {
            if j2 < j1 {
                assert(!(ts@[j1].slot == ts@[j2].slot && ts@[j1].tutor.name@ == ts@[j2].tutor.name@));
            } else {
                assert(!(ts@[j2].slot == ts@[j1].slot && ts@[j2].tutor.name@ == ts@[j1].tutor.name@));
            }
        }
    }
    true
}

/// Whether the `k`-th student of `t` is with the partner they named.
fn keeps_partner(t: &Team, k: usize) -> (r: bool)
    requires
        k < t.members().len(),
    ensures
        r == partner_kept(*t, k as int),
{
    match &t.student_at(k).partner {
        None => true,
        Some(p) => match t {
            Team::Single(_) => false,
            Team::Full(s1, s2) => if k == 0 {
                s2.name == *p
            } else {
                s1.name == *p
            },
        },
    }
}

fn check_partners(sol: &Solution) -> (r: bool)
    ensures
        r == partners_kept(sol.testats@),
{
    let ts = &sol.testats;
    let mut j: usize = 0;
    while j < ts.len()
        invariant
            0 <= j <= ts@.len(),
            *ts == sol.testats,
            forall|y: int, k: int| 0 <= y < j && is_pos(ts@, y, k) ==> #[trigger] partner_kept(ts@[y].team, k),
        decreases ts@.len() - j,
    {
        let t = &ts[j].team;
        let mut k: usize = 0;
        while k < t.size()
            invariant
                0 <= j < ts@.len(),
                0 <= k <= t.members().len(),
                *t == ts@[j as int].team,
                *ts == sol.testats,
                forall|y: int, x: int| 0 <= y < j && is_pos(ts@, y, x) ==> #[trigger] partner_kept(ts@[y].team, x),
                forall|x: int| 0 <= x < k ==> #[trigger] partner_kept(*t, x),
            decreases t.members().len() - k,
        {
            if !keeps_partner(t, k) {
                return false;
            }
            k = k + 1;
        }
        j = j + 1;
    }
    true
}

fn check_fit(sol: &Solution) -> (r: bool)
    ensures
        r == all_fit(sol.testats@),
{
    let ts = &sol.testats;
    let mut j: usize = 0;
    while j < ts.len()
        invariant
            0 <= j <= ts@.len(),
            *ts == sol.testats,
            forall|y: int| 0 <= y < j ==> #[trigger] testat_fits(ts@[y]),
        decreases ts@.len() - j,
    {
        let t = &ts[j];
        let mut k: usize = 0;
        while k < t.team.size()
            invariant
                0 <= j < ts@.len(),
                0 <= k <= t.team.members().len(),
                *t == ts@[j as int],
                *ts == sol.testats,
                forall|y: int| 0 <= y < j ==> #[trigger] testat_fits(ts@[y]),
                forall|x: int|
                    0 <= x < k ==> (#[trigger] t.team.members()[x]).slot_assignment.spec_rating_for(t.slot).is_ok(),
            decreases t.team.members().len() - k,
        {
            if !t.team.student_at(k).slot_assignment.rating_for(t.slot).is_ok() {
                proof {
                    assert(!t.team.members()[k as int].slot_assignment.spec_rating_for(t.slot).is_ok());
                    assert(!testat_fits(ts@[j as int]));
                }
                return false;
            }
            k = k + 1;
        }
        if !t.tutor.slot_assignment.rating_for(t.slot).is_ok() {
            proof {
                assert(!testat_fits(ts@[j as int]));
            }
            return false;
        }
        j = j + 1;
    }
    true
}

/// All violations of `solution` against `instance`, each once, in the order
/// coverage, duplicates, double bookings, partners, fitness.
pub fn find_violations(instance: &Instance, solution: &Solution) -> (r: Vec<Violation>)
    ensures
        r@ == violations(*instance, solution.testats@),
{
    let mut r: Vec<Violation> = Vec::new();
    if !check_covered(instance, solution) {
        r.push(Violation::MissingStudent);
    }
    if !check_names_unique(solution) {
        r.push(Violation::DuplicateStudent);
    }
    if !check_double_booking(solution) {
        r.push(Violation::TutorDoubleBooked);
    }
    if !check_partners(solution) {
        r.push(Violation::TeamSplit);
    }
    if !check_fit(solution) {
        r.push(Violation::UnfittingSlot);
    }
    proof {
        assert(r@ =~= violations(*instance, solution.testats@));
    }
    r
}

/// Checks `solution` against `instance`: `Ok` when it has no violation, else
/// the message of each violation, in the order of `find_violations`.
pub fn is_valid_solution(instance: &Instance, solution: &Solution) -> (r: Result<(), Vec<String>>)
    ensures
        r is Ok <==> is_valid(*instance, *solution),
        r matches Err(msgs) ==> msgs@.len() == violations(*instance, solution.testats@).len() && forall|i: int|
            0 <= i < msgs@.len() ==> #[trigger] msgs@[i]@ == violations(*instance, solution.testats@)[i].text(),
{
    let vs = find_violations(instance, solution);
    if vs.len() == 0 {
        return Ok(());
    }
    let mut msgs: Vec<String> = Vec::new();
    let mut i: usize = 0;
    while i < vs.len()
        invariant
            0 <= i <= vs@.len(),
            msgs@.len() == i,
            forall|x: int| 0 <= x < i ==> #[trigger] msgs@[x]@ == vs@[x].text(),
        decreases vs@.len() - i,
    {
        msgs.push(vs[i].message());
        i = i + 1;
    }
    Err(msgs)
}

/// `b` lists the appointments of `a` in another order: `b[i]` is `a[perm[i]]`,
/// and `perm` is a permutation of the indices.
pub open spec fn is_shuffle(a: Seq<Testat>, b: Seq<Testat>, perm: Seq<int>) -> bool {
    &&& a.len() == b.len()
    &&& perm.len() == b.len()
    &&& forall|i: int| 0 <= i < b.len() ==> 0 <= #[trigger] perm[i] < a.len() && b[i] == a[perm[i]]
    &&& forall|i: int, j: int| 0 <= i < b.len() && 0 <= j < b.len() && i != j ==> #[trigger] perm[i] != #[trigger] perm[j]
    &&& forall|j: int| 0 <= j < a.len() ==> #[trigger] is_hit(perm, j)
}

/// Some index is sent to `j`.
pub open spec fn is_hit(perm: Seq<int>, j: int) -> bool {
    exists|i: int| 0 <= i < perm.len() && #[trigger] perm[i] == j
}

proof fn lemma_shuffle_one_way(inst: Instance, a: Seq<Testat>, b: Seq<Testat>, perm: Seq<int>)
    requires
        is_shuffle(a, b, perm),
    ensures
        all_covered(inst, a) ==> all_covered(inst, b),
        names_unique(a) ==> names_unique(b),
        no_double_booking(a) ==> no_double_booking(b),
        partners_kept(a) ==> partners_kept(b),
        all_fit(a) ==> all_fit(b),
{
    if all_covered(inst, a) {
        assert forall|i: int| 0 <= i < inst.students@.len() implies is_covered(b, #[trigger] inst.students@[i]) by {
            let (j, k) = choose|j: int, k: int| is_pos(a, j, k) && #[trigger] member(a, j, k).same(&inst.students@[i]);
            assert(is_hit(perm, j));
            let x = choose|x: int| 0 <= x < b.len() && #[trigger] perm[x] == j;
            assert(member(b, x, k) == member(a, j, k));
        }
    }
    if names_unique(a) {
        assert forall|j1: int, k1: int, j2: int, k2: int|
            is_pos(b, j1, k1) && is_pos(b, j2, k2) && (j1 != j2 || k1 != k2) implies #[trigger] member(b, j1, k1).name@
            != #[trigger] member(b, j2, k2).name@ by {
            assert(member(b, j1, k1) == member(a, perm[j1], k1));
            assert(member(b, j2, k2) == member(a, perm[j2], k2));
        }
    }
    if no_double_booking(a) {
        assert forall|j1: int, j2: int|
            0 <= j1 < b.len() && 0 <= j2 < b.len() && j1 != j2 implies !(#[trigger] b[j1].slot == #[trigger] b[j2].slot
            && b[j1].tutor.name@ == b[j2].tutor.name@) by {
            assert(a[perm[j1]] == b[j1]);
            assert(a[perm[j2]] == b[j2]);
        }
    }
    if partners_kept(a) {
        assert forall|j: int, k: int| is_pos(b, j, k) implies #[trigger] partner_kept(b[j].team, k) by {
            assert(b[j] == a[perm[j]]);
            assert(is_pos(a, perm[j], k));
        }
    }
    if all_fit(a) {
        assert forall|j: int| 0 <= j < b.len() implies #[trigger] testat_fits(b[j]) by {
            assert(b[j] == a[perm[j]]);
        }
    }
}

/// Reordering the appointments of a schedule does not change its violations.
pub proof fn lemma_violations_ignore_order(inst: Instance, a: Seq<Testat>, b: Seq<Testat>, perm: Seq<int>)
    requires
        is_shuffle(a, b, perm),
    ensures
        violations(inst, a) == violations(inst, b),
{
    let n = a.len();
    let inv = Seq::new(n, |j: int| choose|i: int| 0 <= i < n && #[trigger] perm[i] == j);
    assert forall|j: int| 0 <= j < n implies 0 <= #[trigger] inv[j] < n && a[j] == b[inv[j]] && perm[inv[j]] == j by {
        assert(is_hit(perm, j));
    }
    assert forall|i: int, j: int| 0 <= i < n && 0 <= j < n && i != j implies #[trigger] inv[i] != #[trigger] inv[j] by {
        assert(perm[inv[i]] == i);
        assert(perm[inv[j]] == j);
    }
    assert forall|i: int| 0 <= i < n implies #[trigger] is_hit(inv, i) by {
        assert(inv[perm[i]] != i ==> perm[inv[perm[i]]] == perm[i]);
        assert(inv[perm[i]] == i);
    }
    assert(is_shuffle(b, a, inv));
    lemma_shuffle_one_way(inst, a, b, perm);
    lemma_shuffle_one_way(inst, b, a, inv);
}

} // verus!
