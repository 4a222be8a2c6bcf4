use vstd::prelude::*;

use crate::types::{Instance, SlotRating, Solution, Student, Team, Testat, Timeslot, Tutor, name_view};
use crate::validator::{
    all_covered, all_fit, is_covered, is_pos, is_valid, member, names_unique, no_double_booking,
    partner_kept, partners_kept, testat_fits,
};

verus! {

/// Why no schedule was produced.
#[derive(Clone, Copy, PartialEq, Eq, Debug, Structural)]
pub enum SolveError {
    /// The teams of the instance cannot all be placed.
    NoFeasibleSolution,
    /// Names repeat, or a student names a partner who does not name them back.
    InvalidInput,
}

/// Student `i` names student `j`, a different student, as partner.
pub open spec fn names_partner(inst: Instance, i: int, j: int) -> bool {
    i != j && name_view(inst.students@[i].partner) == Some(inst.students@[j].name@)
}

/// Names are unique among students and among tutors, partners name each
/// other, and every tutor can take at least one team per slot.
pub open spec fn well_formed(inst: Instance) -> bool {
    &&& forall|i: int, j: int|
        0 <= i < inst.students@.len() && 0 <= j < inst.students@.len() && i != j
            ==> #[trigger] inst.students@[i].name@ != #[trigger] inst.students@[j].name@
    &&& forall|i: int, j: int|
        0 <= i < inst.tutors@.len() && 0 <= j < inst.tutors@.len() && i != j
            ==> #[trigger] inst.tutors@[i].name@ != #[trigger] inst.tutors@[j].name@
    &&& forall|i: int|
        0 <= i < inst.students@.len() && (#[trigger] inst.students@[i]).partner is Some ==> exists|j: int|
            0 <= j < inst.students@.len() && #[trigger] names_partner(inst, i, j) && names_partner(inst, j, i)
    &&& forall|t: int| 0 <= t < inst.tutors@.len() ==> #[trigger] inst.tutors@[t].scale_factor >= 1
}

/// For each student, the index of their partner.
spec fn partner_index_ok(inst: Instance, p: Seq<Option<usize>>) -> bool {
    &&& p.len() == inst.students@.len()
    &&& forall|i: int, j: int|
        0 <= i < p.len() && 0 <= j < p.len() ==> (p[i] == Some(j as usize) <==> #[trigger] names_partner(inst, i, j))
    &&& forall|i: int| 0 <= i < p.len() ==> (#[trigger] p[i] is None <==> inst.students@[i].partner is None)
    &&& forall|i: int|
        0 <= i < p.len() && #[trigger] p[i] is Some ==> {
            let j = p[i]->Some_0 as int;
            &&& 0 <= j < p.len()
            &&& p[j] == Some(i as usize)
        }
}

fn student_names_unique(students: &Vec<Student>) -> (r: bool)
    ensures
        r == forall|i: int, j: int|
            0 <= i < students@.len() && 0 <= j < students@.len() && i != j
                ==> #[trigger] students@[i].name@ != #[trigger] students@[j].name@,
{
    let mut i: usize = 0;
    while i < students.len()
        invariant
            0 <= i <= students@.len(),
            forall|x: int, y: int|
                0 <= x < i && 0 <= y < students@.len() && x != y
                    ==> #[trigger] students@[x].name@ != #[trigger] students@[y].name@,
        decreases students@.len() - i,
    {
        let mut j: usize = 0;
        while j < students.len()
            invariant
                0 <= i < students@.len(),
                0 <= j <= students@.len(),
                forall|x: int, y: int|
                    0 <= x < i && 0 <= y < students@.len() && x != y
                        ==> #[trigger] students@[x].name@ != #[trigger] students@[y].name@,
                forall|y: int| 0 <= y < j && y != i ==> students@[i as int].name@ != #[trigger] students@[y].name@,
            decreases students@.len() - j,
        {
            if j != i && students[i].name == students[j].name {
                return false;
            }
            j = j + 1;
        }
        i = i + 1;
    }
    true
}

fn tutor_names_unique(tutors: &Vec<Tutor>) -> (r: bool)
    ensures
        r == forall|i: int, j: int|
            0 <= i < tutors@.len() && 0 <= j < tutors@.len() && i != j
                ==> #[trigger] tutors@[i].name@ != #[trigger] tutors@[j].name@,
{
    let mut i: usize = 0;
    while i < tutors.len()
        invariant
            0 <= i <= tutors@.len(),
            forall|x: int, y: int|
                0 <= x < i && 0 <= y < tutors@.len() && x != y
                    ==> #[trigger] tutors@[x].name@ != #[trigger] tutors@[y].name@,
        decreases tutors@.len() - i,
    {
        let mut j: usize = 0;
        while j < tutors.len()
            invariant
                0 <= i < tutors@.len(),
                0 <= j <= tutors@.len(),
                forall|x: int, y: int|
                    0 <= x < i && 0 <= y < tutors@.len() && x != y
                        ==> #[trigger] tutors@[x].name@ != #[trigger] tutors@[y].name@,
                forall|y: int| 0 <= y < j && y != i ==> tutors@[i as int].name@ != #[trigger] tutors@[y].name@,
            decreases tutors@.len() - j,
        {
            if j != i && tutors[i].name == tutors[j].name {
                return false;
            }
            j = j + 1;
        }
        i = i + 1;
    }
    true
}

/// Whether every tutor can take at least one team per slot.
fn scales_ok(tutors: &Vec<Tutor>) -> (r: bool)
    ensures
        r == forall|t: int| 0 <= t < tutors@.len() ==> #[trigger] tutors@[t].scale_factor >= 1,
{
    let mut t: usize = 0;
    while t < tutors.len()
        invariant
            0 <= t <= tutors@.len(),
            forall|x: int| 0 <= x < t ==> #[trigger] tutors@[x].scale_factor >= 1,
        decreases tutors@.len() - t,
    {
        if tutors[t].scale_factor < 1 {
            return false;
        }
        t = t + 1;
    }
    true
}

/// The index of the student called `name`, if any.
fn find_by_name(students: &Vec<Student>, name: &String) -> (r: Option<usize>)
    ensures
        r matches Some(j) ==> j < students@.len() && students@[j as int].name@ == name@,
        r is None ==> forall|j: int| 0 <= j < students@.len() ==> #[trigger] students@[j].name@ != name@,
{
    let mut j: usize = 0;
    while j < students.len()
        invariant
            0 <= j <= students@.len(),
            forall|y: int| 0 <= y < j ==> #[trigger] students@[y].name@ != name@,
        decreases students@.len() - j,
    {
        if students[j].name == *name {
            return Some(j);
        }
        j = j + 1;
    }
    None
}

/// The partner index of every student, where the instance is well formed.
fn partner_indices(inst: &Instance) -> (r: Option<Vec<Option<usize>>>)
    ensures
        r is Some <==> well_formed(*inst),
        r matches Some(p) ==> partner_index_ok(*inst, p@),
{
    if !student_names_unique(&inst.students) || !tutor_names_unique(&inst.tutors) || !scales_ok(&inst.tutors) {
        return None;
    }
    let n = inst.students.len();
    let mut p: Vec<Option<usize>> = Vec::new();
    let mut i: usize = 0;
    while i < n
        invariant
            0 <= i <= n,
            n == inst.students@.len(),
            p@.len() == i,
            forall|x: int, y: int|
                0 <= x < inst.students@.len() && 0 <= y < inst.students@.len() && x != y
                    ==> #[trigger] inst.students@[x].name@ != #[trigger] inst.students@[y].name@,
            forall|x: int, y: int|
                0 <= x < inst.tutors@.len() && 0 <= y < inst.tutors@.len() && x != y
                    ==> #[trigger] inst.tutors@[x].name@ != #[trigger] inst.tutors@[y].name@,
            forall|t: int| 0 <= t < inst.tutors@.len() ==> #[trigger] inst.tutors@[t].scale_factor >= 1,
            forall|x: int, y: int|
                0 <= x < i && 0 <= y < n ==> (p@[x] == Some(y as usize) <==> #[trigger] names_partner(*inst, x, y)),
            forall|x: int| 0 <= x < i ==> (#[trigger] p@[x] is None <==> inst.students@[x].partner is None),
            forall|x: int|
                0 <= x < i && #[trigger] p@[x] is Some ==> {
                    let y = p@[x]->Some_0 as int;
                    &&& 0 <= y < n
                    &&& names_partner(*inst, y, x)
                },
            forall|x: int|
                0 <= x < i && (#[trigger] inst.students@[x]).partner is Some ==> exists|y: int|
                    0 <= y < inst.students@.len() && #[trigger] names_partner(*inst, x, y) && names_partner(*inst, y, x),
        decreases n - i,
    {
        match &inst.students[i].partner {
            None => {
                p.push(None);
            },
            Some(name) => {
                match find_by_name(&inst.students, name) {
                    None => {
                        return None;
                    },
                    Some(j) => {
                        let back = match &inst.students[j].partner {
                            Some(b) => *b == inst.students[i].name,
                            None => false,
                        };
                        if j == i || !back {
                            return None;
                        }
                        p.push(Some(j));
                        proof {
                            assert(names_partner(*inst, i as int, j as int) && names_partner(*inst, j as int, i as int));
                        }
                    },
                }
            },
        }
        i = i + 1;
    }
    proof {
        assert forall|x: int|
            0 <= x < p@.len() && #[trigger] p@[x] is Some implies {
                let j = p@[x]->Some_0 as int;
                &&& 0 <= j < p@.len()
                &&& p@[j] == Some(x as usize)
            } by {
            let y = p@[x]->Some_0 as int;
            assert(names_partner(*inst, y, x));
            assert(p@[y] == Some(x as usize));
        }
    }
    Some(p)
}


/// `cands` lists every (tutor index, slot) pair that the tutor rated, once each.
spec fn candidates_ok(inst: Instance, cands: Seq<(usize, Timeslot)>) -> bool {
    &&& cands.no_duplicates()
    &&& forall|c: int|
        0 <= c < cands.len() ==> {
            &&& (#[trigger] cands[c]).0 < inst.tutors@.len()
            &&& inst.tutors@[cands[c].0 as int].slot_assignment.spec_rating_for(cands[c].1).is_ok()
        }
    &&& forall|t: int, s: Timeslot|
        0 <= t < inst.tutors@.len() && #[trigger] inst.tutors@[t].slot_assignment.spec_rating_for(s).is_ok()
            ==> cands.contains((t as usize, s))
}

fn candidates(inst: &Instance) -> (r: Vec<(usize, Timeslot)>)
    ensures
        candidates_ok(*inst, r@),
{
    let tutors = &inst.tutors;
    let mut r: Vec<(usize, Timeslot)> = Vec::new();
    let mut t: usize = 0;
    while t < tutors.len()
        invariant
            0 <= t <= tutors@.len(),
            *tutors == inst.tutors,
            r@.no_duplicates(),
            forall|c: int|
                0 <= c < r@.len() ==> {
                    &&& (#[trigger] r@[c]).0 < t
                    &&& tutors@[r@[c].0 as int].slot_assignment.spec_rating_for(r@[c].1).is_ok()
                },
            forall|x: int, s: Timeslot|
                0 <= x < t && #[trigger] tutors@[x].slot_assignment.spec_rating_for(s).is_ok() ==> r@.contains(
                    (x as usize, s),
                ),
        decreases tutors@.len() - t,
    {
        let rs = tutors[t].slot_assignment.rated_slots();
        let mut k: usize = 0;
        while k < rs.len()
            invariant
                0 <= t < tutors@.len(),
                0 <= k <= rs@.len(),
                *tutors == inst.tutors,
                rs@.no_duplicates(),
                forall|s: Timeslot| rs@.contains(s) <==> #[trigger] tutors@[t as int].slot_assignment.spec_rating_for(s).is_ok(),
                r@.no_duplicates(),
                forall|c: int|
                    0 <= c < r@.len() ==> {
                        &&& (#[trigger] r@[c]).0 <= t
                        &&& r@[c].0 == t ==> exists|y: int| 0 <= y < k && rs@[y] == r@[c].1
                        &&& tutors@[r@[c].0 as int].slot_assignment.spec_rating_for(r@[c].1).is_ok()
                    },
                forall|x: int, s: Timeslot|
                    0 <= x < t && #[trigger] tutors@[x].slot_assignment.spec_rating_for(s).is_ok() ==> r@.contains(
                        (x as usize, s),
                    ),
                forall|y: int| 0 <= y < k ==> r@.contains((t, #[trigger] rs@[y])),
            decreases rs@.len() - k,
        {
            let ghost old_r = r@;
            proof {
                assert(rs@.contains(rs@[k as int]));
                assert forall|c: int| 0 <= c < old_r.len() implies old_r[c] != (t, rs@[k as int]) by {
                    if old_r[c].0 == t {
                        let y = choose|y: int| 0 <= y < k && rs@[y] == old_r[c].1;
                        assert(rs@[y] != rs@[k as int]);
                    }
                }
            }
            r.push((t, rs[k]));
            proof {
                assert forall|y: int| 0 <= y < k + 1 implies r@.contains((t, #[trigger] rs@[y])) by {
                    if y < k {
                        let c = choose|c: int| 0 <= c < old_r.len() && old_r[c] == (t, rs@[y]);
                        assert(r@[c] == old_r[c]);
                    } else {
                        assert(r@[old_r.len() as int] == (t, rs@[y]));
                    }
                }
                assert forall|x: int, s: Timeslot|
                    0 <= x < t && #[trigger] tutors@[x].slot_assignment.spec_rating_for(s).is_ok() implies r@.contains(
                    (x as usize, s),
                ) by {
                    let c = choose|c: int| 0 <= c < old_r.len() && old_r[c] == (x as usize, s);
                    assert(r@[c] == old_r[c]);
                }
                assert forall|c: int| 0 <= c < r@.len() implies {
                    &&& (#[trigger] r@[c]).0 <= t
                    &&& r@[c].0 == t ==> exists|y: int| 0 <= y < k + 1 && rs@[y] == r@[c].1
                    &&& tutors@[r@[c].0 as int].slot_assignment.spec_rating_for(r@[c].1).is_ok()
                } by {
                    if c < old_r.len() {
                        assert(r@[c] == old_r[c]);
                    } else {
                        assert(rs@[k as int] == r@[c].1);
                    }
                }
            }
            k = k + 1;
        }
        proof {
            assert forall|x: int, s: Timeslot|
                0 <= x < t + 1 && #[trigger] tutors@[x].slot_assignment.spec_rating_for(s).is_ok() implies r@.contains(
                (x as usize, s),
            ) by {
                if x == t {
                    let y = choose|y: int| 0 <= y < rs@.len() && rs@[y] == s;
                    assert(r@.contains((t, rs@[y])));
                }
            }
        }
        t = t + 1;
    }
    r
}


/// Points of a rating: two for good, one for tolerable.
pub open spec fn rating_points(r: SlotRating) -> int {
    match r {
        SlotRating::Good => 2,
        SlotRating::Tolerable => 1,
        SlotRating::NotFitting => 0,
    }
}

fn points(r: SlotRating) -> (p: u32)
    ensures
        p == rating_points(r),
{
    match r {
        SlotRating::Good => 2,
        SlotRating::Tolerable => 1,
        SlotRating::NotFitting => 0,
    }
}


/// Appointment tutor `t` is the instance's tutor `x`: same name, ratings and
/// scale factor.
pub open spec fn is_instance_tutor(inst: Instance, t: Tutor, x: int) -> bool {
    &&& 0 <= x < inst.tutors@.len()
    &&& t.name@ == inst.tutors@[x].name@
    &&& t.slot_assignment@ == inst.tutors@[x].slot_assignment@
    &&& t.scale_factor == inst.tutors@[x].scale_factor
}

/// Appointment student `s` is the instance's student `i`.
pub open spec fn is_instance_student(inst: Instance, s: Student, i: int) -> bool {
    0 <= i < inst.students@.len() && s.same(&inst.students@[i])
}

/// Every appointment of `sol` has one of the instance's tutors and only the
/// instance's students.
pub open spec fn from_instance(inst: Instance, sol: Solution) -> bool {
    let ts = sol.testats@;
    &&& forall|j: int| #![trigger ts[j]] 0 <= j < ts.len() ==> exists|x: int| is_instance_tutor(inst, ts[j].tutor, x)
    &&& forall|j: int, k: int| is_pos(ts, j, k) ==> exists|i: int| is_instance_student(inst, #[trigger] member(ts, j, k), i)
}

/// Some schedule made of the instance's tutors and students has no
/// violation.
pub open spec fn feasible(inst: Instance) -> bool {
    exists|sol: Solution| from_instance(inst, sol) && is_valid(inst, sol)
}

/// Students `i` and `j` may share an appointment: they are partners, or
/// neither has a partner.
pub open spec fn may_share(inst: Instance, i: int, j: int) -> bool {
    names_partner(inst, i, j) || (inst.students@[i].partner is None && inst.students@[j].partner is None)
}

/// In `a`, partners share a candidate, two students share one only where
/// they may, and no three share one.
spec fn shares_ok(inst: Instance, a: Seq<usize>) -> bool {
    &&& forall|i: int, j: int|
        0 <= i < a.len() && 0 <= j < a.len() && #[trigger] names_partner(inst, i, j) ==> a[i] == a[j]
    &&& forall|i: int, j: int|
        0 <= i < a.len() && 0 <= j < a.len() && i != j && #[trigger] a[i] == #[trigger] a[j] ==> may_share(inst, i, j)
    &&& forall|i: int, j: int, k: int|
        0 <= i < j < k < a.len() ==> !(#[trigger] a[i] == #[trigger] a[j] && a[j] == #[trigger] a[k])
}

/// Student `i` rated the slot of candidate `c`.
spec fn student_fits(inst: Instance, cands: Seq<(usize, Timeslot)>, i: int, c: int) -> bool {
    inst.students@[i].slot_assignment.spec_rating_for(cands[c].1).is_ok()
}

/// `a` gives the first students each a candidate they rated, sharing as
/// allowed.
spec fn placement_ok(inst: Instance, cands: Seq<(usize, Timeslot)>, a: Seq<usize>) -> bool {
    &&& a.len() <= inst.students@.len()
    &&& forall|i: int| 0 <= i < a.len() ==> (#[trigger] a[i]) < cands.len() && student_fits(inst, cands, i, a[i] as int)
    &&& shares_ok(inst, a)
}

/// Some placement of all students begins with `a`.
spec fn extendable(inst: Instance, cands: Seq<(usize, Timeslot)>, a: Seq<usize>) -> bool {
    exists|f: Seq<usize>|
        f.len() == inst.students@.len() && a == f.take(a.len() as int) && #[trigger] placement_ok(inst, cands, f)
}

proof fn lemma_prefix_ok(inst: Instance, cands: Seq<(usize, Timeslot)>, f: Seq<usize>, n: int)
    requires
        placement_ok(inst, cands, f),
        0 <= n <= f.len(),
    ensures
        placement_ok(inst, cands, f.take(n)),
{
    let a = f.take(n);
    assert forall|i: int, j: int, k: int|
        0 <= i < j < k < a.len() implies !(#[trigger] a[i] == #[trigger] a[j] && a[j] == #[trigger] a[k]) by {
        assert(a[i] == f[i] && a[j] == f[j] && a[k] == f[k]);
    }
    assert forall|i: int, j: int|
        0 <= i < a.len() && 0 <= j < a.len() && i != j && #[trigger] a[i] == #[trigger] a[j] implies may_share(inst, i, j) by {
        assert(a[i] == f[i] && a[j] == f[j]);
    }
}

/// `names_partner` goes both ways in a well-formed instance.
proof fn lemma_partner_symmetric(inst: Instance, i: int, j: int)
    requires
        well_formed(inst),
        0 <= i < inst.students@.len(),
        0 <= j < inst.students@.len(),
        names_partner(inst, i, j),
    ensures
        names_partner(inst, j, i),
{
    let k = choose|k: int| 0 <= k < inst.students@.len() && #[trigger] names_partner(inst, i, k) && names_partner(inst, k, i);
    assert(inst.students@[k].name@ == inst.students@[j].name@);
}

/// Whether student `a.len()` may take candidate `c` after the students of `a`.
fn allowed(inst: &Instance, p: &Vec<Option<usize>>, cands: &Vec<(usize, Timeslot)>, a: &Vec<usize>, c: usize) -> (r: bool)
    requires
        well_formed(*inst),
        partner_index_ok(*inst, p@),
        candidates_ok(*inst, cands@),
        placement_ok(*inst, cands@, a@),
        a@.len() < inst.students@.len(),
        c < cands@.len(),
    ensures
        r == placement_ok(*inst, cands@, a@.push(c)),
{
    let i = a.len();
    let ghost b = a@.push(c);
    if !inst.students[i].slot_assignment.rating_for(cands[c].1).is_ok() {
        proof {
            assert(!student_fits(*inst, cands@, i as int, b[i as int] as int));
        }
        return false;
    }
    let mut first: Option<usize> = None;
    let mut j: usize = 0;
    while j < i
        invariant
            0 <= j <= i,
            i == a@.len(),
            i < inst.students@.len(),
            b == a@.push(c),
            well_formed(*inst),
            partner_index_ok(*inst, p@),
            forall|x: int| 0 <= x < j ==> (a@[x] == c ==> may_share(*inst, i as int, x)),
            forall|x: int| 0 <= x < j ==> (#[trigger] names_partner(*inst, i as int, x) ==> a@[x] == c),
            first matches Some(f) ==> f < j && a@[f as int] == c,
            first is None ==> forall|x: int| 0 <= x < j ==> a@[x] != c,
            forall|x: int, y: int| 0 <= x < y < j ==> !(a@[x] == c && a@[y] == c),
        decreases i - j,
    {
        proof {
            assert(p@[i as int] == Some(j) <==> names_partner(*inst, i as int, j as int));
            assert(p@[i as int] is None <==> inst.students@[i as int].partner is None);
            assert(p@[j as int] is None <==> inst.students@[j as int].partner is None);
        }
        if a[j] == c {
            let share = match p[i] {
                Some(q) => q == j,
                None => p[j].is_none(),
            };
            if !share || first.is_some() {
                proof {
                    if !share {
                        assert(b[i as int] == b[j as int]);
                        assert(!may_share(*inst, i as int, j as int));
                    } else {
                        let f = first->Some_0 as int;
                        assert(b[f] == b[j as int] && b[j as int] == b[i as int]);
                    }
                }
                return false;
            }
            first = Some(j);
        } else if p[i] == Some(j) {
            proof {
                assert(names_partner(*inst, i as int, j as int));
                assert(b[i as int] != b[j as int]);
            }
            return false;
        }
        j = j + 1;
    }
    proof {
        assert forall|x: int, y: int|
            0 <= x < b.len() && 0 <= y < b.len() && #[trigger] names_partner(*inst, x, y) implies b[x] == b[y] by {
            if x == i && y < i {
                assert(b[y] == a@[y]);
            } else if y == i && x < i {
                lemma_partner_symmetric(*inst, x, y);
                assert(b[x] == a@[x]);
            } else if x < i && y < i {
                assert(b[x] == a@[x] && b[y] == a@[y]);
            }
        }
        assert forall|x: int, y: int|
            0 <= x < b.len() && 0 <= y < b.len() && x != y && #[trigger] b[x] == #[trigger] b[y] implies may_share(*inst, x, y) by {
            if x == i {
                assert(b[y] == a@[y]);
            } else if y == i {
                assert(b[x] == a@[x]);
                assert(may_share(*inst, i as int, x));
                if names_partner(*inst, i as int, x) {
                    lemma_partner_symmetric(*inst, i as int, x);
                }
            } else {
                assert(b[x] == a@[x] && b[y] == a@[y]);
            }
        }
        assert forall|x: int, y: int, z: int|
            0 <= x < y < z < b.len() implies !(#[trigger] b[x] == #[trigger] b[y] && b[y] == #[trigger] b[z]) by {
            assert(b[x] == a@[x] && b[y] == a@[y]);
            if z < i {
                assert(b[z] == a@[z]);
            }
        }
        assert forall|x: int| 0 <= x < b.len() implies (#[trigger] b[x]) < cands@.len() && student_fits(*inst, cands@, x, b[x] as int) by {
            if x < i {
                assert(b[x] == a@[x]);
            }
        }
    }
    true
}

/// Points that student `i` and the tutor of candidate `c` give its slot.
spec fn score_of(inst: Instance, cands: Seq<(usize, Timeslot)>, i: int, c: int) -> int {
    rating_points(inst.students@[i].slot_assignment.spec_rating_for(cands[c].1)) + rating_points(
        inst.tutors@[cands[c].0 as int].slot_assignment.spec_rating_for(cands[c].1),
    )
}

/// The candidates that student `i` rated, best score first.
fn ranked_candidates(inst: &Instance, cands: &Vec<(usize, Timeslot)>, i: usize) -> (r: Vec<usize>)
    requires
        i < inst.students@.len(),
        candidates_ok(*inst, cands@),
    ensures
        forall|x: int| 0 <= x < r@.len() ==> (#[trigger] r@[x]) < cands@.len(),
        forall|c: int| 0 <= c < cands@.len() && student_fits(*inst, cands@, i as int, c) ==> r@.contains(c as usize),
{
    let mut r: Vec<usize> = Vec::new();
    let mut level: u32 = 5;
    while level > 0
        invariant
            level <= 5,
            i < inst.students@.len(),
            candidates_ok(*inst, cands@),
            forall|x: int| 0 <= x < r@.len() ==> (#[trigger] r@[x]) < cands@.len(),
            forall|c: int| 0 <= c < cands@.len() && student_fits(*inst, cands@, i as int, c) && score_of(*inst, cands@, i as int, c) >= level ==> r@.contains(c as usize),
        decreases level,
    {
        level = level - 1;
        let mut c: usize = 0;
        while c < cands.len()
            invariant
                level < 5,
                i < inst.students@.len(),
                0 <= c <= cands@.len(),
                candidates_ok(*inst, cands@),
                forall|x: int| 0 <= x < r@.len() ==> (#[trigger] r@[x]) < cands@.len(),
                forall|x: int| 0 <= x < cands@.len() && student_fits(*inst, cands@, i as int, x) && (score_of(*inst, cands@, i as int, x) > level || (score_of(*inst, cands@, i as int, x) == level && x < c)) ==> r@.contains(x as usize),
            decreases cands@.len() - c,
        {
            proof {
                assert(cands@[c as int].0 < inst.tutors@.len());
            }
            let slot = cands[c].1;
            let rs = inst.students[i].slot_assignment.rating_for(slot);
            let rt = inst.tutors[cands[c].0].slot_assignment.rating_for(slot);
            let ghost old_r = r@;
            if rs.is_ok() && points(rs) + points(rt) == level {
                r.push(c);
                proof {
                    assert(r@[old_r.len() as int] == c);
                }
            }
            proof {
                assert forall|y: usize| old_r.contains(y) implies r@.contains(y) by {
                    let x = choose|x: int| 0 <= x < old_r.len() && old_r[x] == y;
                    assert(r@[x] == y);
                }
            }
            c = c + 1;
        }
    }
    r
}

/// Places the students from `a.len()` on, trying for each student the
/// candidates they rated best first and backtracking on a dead end. On
/// success `a` places every student; otherwise `a` is unchanged and no
/// placement of all students extends it.
fn place(inst: &Instance, p: &Vec<Option<usize>>, cands: &Vec<(usize, Timeslot)>, a: &mut Vec<usize>) -> (r: bool)
    requires
        well_formed(*inst),
        partner_index_ok(*inst, p@),
        candidates_ok(*inst, cands@),
        placement_ok(*inst, cands@, old(a)@),
    ensures
        r ==> final(a)@.len() == inst.students@.len() && placement_ok(*inst, cands@, final(a)@),
        !r ==> final(a)@ == old(a)@ && !extendable(*inst, cands@, old(a)@),
    decreases inst.students@.len() - old(a)@.len(),
{
    if a.len() == inst.students.len() {
        return true;
    }
    let i = a.len();
    let ghost a0 = a@;
    let order = ranked_candidates(inst, cands, i);
    let mut x: usize = 0;
    while x < order.len()
        invariant
            0 <= x <= order@.len(),
            a@ == a0,
            old(a)@ == a0,
            i == a0.len(),
            i < inst.students@.len(),
            well_formed(*inst),
            partner_index_ok(*inst, p@),
            candidates_ok(*inst, cands@),
            placement_ok(*inst, cands@, a0),
            forall|y: int| 0 <= y < order@.len() ==> (#[trigger] order@[y]) < cands@.len(),
            forall|y: int|
                0 <= y < x && placement_ok(*inst, cands@, a0.push(#[trigger] order@[y])) ==> !extendable(*inst, cands@, a0.push(order@[y])),
        decreases order@.len() - x,
    {
        let c = order[x];
        if allowed(inst, p, cands, a, c) {
            a.push(c);
            assert(a@.len() == i + 1);
            if place(inst, p, cands, a) {
                return true;
            }
            a.pop();
            proof {
                assert(a@ =~= a0);
            }
        }
        x = x + 1;
    }
    proof {
        if extendable(*inst, cands@, a0) {
            let f = choose|f: Seq<usize>|
                f.len() == inst.students@.len() && a0 == f.take(a0.len() as int) && #[trigger] placement_ok(*inst, cands@, f);
            let c = f[i as int];
            assert(student_fits(*inst, cands@, i as int, c as int));
            assert(order@.contains(c));
            let y = choose|y: int| 0 <= y < order@.len() && order@[y] == c;
            lemma_prefix_ok(*inst, cands@, f, i + 1);
            assert(a0.push(c) =~= f.take(i + 1));
            assert(extendable(*inst, cands@, a0.push(c)));
        }
    }
    false
}


/// No earlier student has the candidate of student `i`.
spec fn is_first(a: Seq<usize>, i: int) -> bool {
    forall|j: int| 0 <= j < i ==> #[trigger] a[j] != a[i]
}

/// Number of students of appointment `t`.
spec fn tsize(mate: Seq<Option<int>>, t: int) -> int {
    if mate[t] is Some {
        2
    } else {
        1
    }
}

/// The student in place `m` of appointment `t`.
spec fn seat(lead: Seq<int>, mate: Seq<Option<int>>, t: int, m: int) -> int {
    if m == 0 {
        lead[t]
    } else {
        mate[t]->Some_0
    }
}

/// Student `x` sits in place `w` of the appointments.
spec fn seated(lead: Seq<int>, mate: Seq<Option<int>>, w: (int, int), x: int) -> bool {
    &&& 0 <= w.0 < lead.len()
    &&& 0 <= w.1 < tsize(mate, w.0)
    &&& seat(lead, mate, w.0, w.1) == x
}

/// Appointment `t` holds the first student `lead[t]` of a candidate, and
/// `mate[t]`, the other student of that candidate if any, with its tutor and
/// slot.
spec fn built_ok(
    inst: Instance,
    cands: Seq<(usize, Timeslot)>,
    a: Seq<usize>,
    ts: Seq<Testat>,
    lead: Seq<int>,
    mate: Seq<Option<int>>,
) -> bool {
    &&& ts.len() == lead.len()
    &&& mate.len() == lead.len()
    &&& forall|t1: int, t2: int| 0 <= t1 < t2 < lead.len() ==> #[trigger] lead[t1] < #[trigger] lead[t2]
    &&& forall|t: int|
        #![trigger lead[t]]
        0 <= t < lead.len() ==> {
            &&& 0 <= lead[t] < a.len()
            &&& is_first(a, lead[t])
            &&& (mate[t] is Some ==> lead[t] < mate[t]->Some_0 < a.len() && a[mate[t]->Some_0] == a[lead[t]])
            &&& (mate[t] is None ==> forall|y: int| 0 <= y < a.len() && y != lead[t] ==> #[trigger] a[y] != a[lead[t]])
            &&& ts[t].slot == cands[a[lead[t]] as int].1
            &&& is_instance_tutor(inst, ts[t].tutor, cands[a[lead[t]] as int].0 as int)
            &&& ts[t].team.members().len() == tsize(mate, t)
            &&& (ts[t].team is Full <==> mate[t] is Some)
            &&& forall|m: int|
                0 <= m < tsize(mate, t) ==> (#[trigger] ts[t].team.members()[m]).same(&inst.students@[seat(lead, mate, t, m)])
        }
}

fn build_solution(inst: &Instance, cands: &Vec<(usize, Timeslot)>, a: &Vec<usize>) -> (r: (Solution, Ghost<(Seq<int>, Seq<Option<int>>, Seq<(int, int)>)>))
    requires
        well_formed(*inst),
        candidates_ok(*inst, cands@),
        a@.len() == inst.students@.len(),
        placement_ok(*inst, cands@, a@),
    ensures
        built_ok(*inst, cands@, a@, r.0.testats@, r.1@.0, r.1@.1),
        r.1@.2.len() == a@.len(),
        forall|x: int| 0 <= x < a@.len() ==> seated(r.1@.0, r.1@.1, #[trigger] r.1@.2[x], x),
{
    let n = a.len();
    let mut testats: Vec<Testat> = Vec::new();
    let ghost mut lead: Seq<int> = Seq::empty();
    let ghost mut mate: Seq<Option<int>> = Seq::empty();
    let ghost mut pos: Seq<(int, int)> = Seq::new(n as nat, |x: int| (0, 0));
    let mut i: usize = 0;
    while i < n
        invariant
            0 <= i <= n,
            n == a@.len(),
            a@.len() == inst.students@.len(),
            well_formed(*inst),
            candidates_ok(*inst, cands@),
            placement_ok(*inst, cands@, a@),
            built_ok(*inst, cands@, a@, testats@, lead, mate),
            forall|t: int| 0 <= t < lead.len() ==> #[trigger] lead[t] < i,
            pos.len() == n,
            forall|x: int|
                0 <= x < n && (x < i || exists|l: int| 0 <= l < i && #[trigger] a@[l] == a@[x]) ==> seated(lead, mate, #[trigger] pos[x], x),
        decreases n - i,
    {
        let c = a[i];
        let mut first = true;
        let mut j: usize = 0;
        while j < i
            invariant
                0 <= j <= i < n,
                n == a@.len(),
                c == a@[i as int],
                first == forall|y: int| 0 <= y < j ==> #[trigger] a@[y] != c,
            decreases i - j,
        {
            if a[j] == c {
                first = false;
            }
            j = j + 1;
        }
        if first {
            let mut second: Option<usize> = None;
            let mut k: usize = i + 1;
            while k < n && second.is_none()
                invariant
                    i < k <= n,
                    n == a@.len(),
                    c == a@[i as int],
                    second is None ==> forall|y: int| i < y < k ==> #[trigger] a@[y] != c,
                    second matches Some(s) ==> i < s < n && a@[s as int] == c,
                decreases n - k,
            {
                if a[k] == c {
                    second = Some(k);
                }
                k = k + 1;
            }
            proof {
                assert(a@[i as int] < cands@.len());
                assert(cands@[c as int].0 < inst.tutors@.len());
            }
            let (tx, slot) = cands[c];
            let team = match second {
                None => Team::Single(inst.students[i].clone()),
                Some(s) => Team::Full(inst.students[i].clone(), inst.students[s].clone()),
            };
            let testat = Testat { slot, tutor: inst.tutors[tx].clone(), team };
            let ghost t = testats@.len() as int;
            let ghost old_ts = testats@;
            let ghost old_lead = lead;
            let ghost old_mate = mate;
            let ghost old_pos = pos;
            testats.push(testat);
            proof {
                lead = lead.push(i as int);
                let gm: Option<int> = match second {
                    Some(s) => Some(s as int),
                    None => None,
                };
                mate = mate.push(gm);
                pos = pos.update(i as int, (t, 0int));
                if let Some(s) = second {
                    pos = pos.update(s as int, (t, 1int));
                }
                assert(testats@[t] == testat);
                assert forall|t2: int| 0 <= t2 < t implies #[trigger] lead[t2] == old_lead[t2] && mate[t2] == old_mate[t2] && testats@[t2] == old_ts[t2] by {}
                if second is None {
                    assert forall|y: int| 0 <= y < a@.len() && y != i implies #[trigger] a@[y] != a@[i as int] by {
                        if y < i {
                            assert(a@[y] != c);
                        }
                    }
                }
                assert forall|m: int| 0 <= m < tsize(mate, t) implies (#[trigger] testats@[t].team.members()[m]).same(&inst.students@[seat(lead, mate, t, m)]) by {}
                assert(built_ok(*inst, cands@, a@, testats@, lead, mate));
                assert forall|x: int|
                    0 <= x < n && (x < i + 1 || exists|l: int| 0 <= l < i + 1 && #[trigger] a@[l] == a@[x]) implies seated(lead, mate, #[trigger] pos[x], x) by {
                    let sx: int = match second {
                        Some(s) => s as int,
                        None => -1,
                    };
                    if x == i {
                    } else if x == sx {
                    } else {
                        assert(pos[x] == old_pos[x]);
                        if !(x < i || exists|l: int| 0 <= l < i && #[trigger] a@[l] == a@[x]) {
                            assert(a@[i as int] == a@[x]);
                            assert(x > i);
                            if let Some(s) = second {
                                assert(a@[s as int] == a@[x]);
                                if s < x {
                                    assert(!(a@[i as int] == a@[s as int] && a@[s as int] == a@[x]));
                                } else {
                                    assert(a@[x] != c);
                                }
                            } else {
                                assert(a@[x] != c);
                            }
                        }
                        let w = old_pos[x];
                        assert(seated(old_lead, old_mate, w, x));
                        assert(lead[w.0] == old_lead[w.0] && mate[w.0] == old_mate[w.0]);
                    }
                }
            }
        } else {
            proof {
                let l = choose|y: int| 0 <= y < i && #[trigger] a@[y] == c;
                assert forall|x: int|
                    0 <= x < n && (x < i + 1 || exists|l2: int| 0 <= l2 < i + 1 && #[trigger] a@[l2] == a@[x]) implies seated(lead, mate, #[trigger] pos[x], x) by {
                    if x == i {
                        assert(a@[l] == a@[x]);
                    } else if !(x < i) {
                        let l2 = choose|l2: int| 0 <= l2 < i + 1 && #[trigger] a@[l2] == a@[x];
                        if l2 == i {
                            assert(a@[l] == a@[x]);
                        }
                    }
                }
            }
        }
        i = i + 1;
    }
    (Solution { testats }, Ghost((lead, mate, pos)))
}


proof fn lemma_built_is_valid(
    inst: Instance,
    cands: Seq<(usize, Timeslot)>,
    a: Seq<usize>,
    sol: Solution,
    lead: Seq<int>,
    mate: Seq<Option<int>>,
    pos: Seq<(int, int)>,
)
    requires
        well_formed(inst),
        candidates_ok(inst, cands),
        a.len() == inst.students@.len(),
        placement_ok(inst, cands, a),
        built_ok(inst, cands, a, sol.testats@, lead, mate),
        pos.len() == a.len(),
        forall|x: int| 0 <= x < a.len() ==> seated(lead, mate, #[trigger] pos[x], x),
    ensures
        is_valid(inst, sol),
        from_instance(inst, sol),
{
    let ts = sol.testats@;
    let n = a.len();
    assert forall|t: int, m: int| 0 <= t < lead.len() && 0 <= m < tsize(mate, t) implies 0 <= #[trigger] seat(lead, mate, t, m) < n
        && a[seat(lead, mate, t, m)] == a[lead[t]] by {
        assert(0 <= lead[t] < n);
    }
    assert forall|t1: int, t2: int| 0 <= t1 < lead.len() && 0 <= t2 < lead.len() && t1 != t2 implies #[trigger] a[lead[t1]] != #[trigger] a[lead[t2]] by {
        if t1 < t2 {
            assert(lead[t1] < lead[t2]);
            assert(is_first(a, lead[t2]));
        } else {
            assert(lead[t2] < lead[t1]);
            assert(is_first(a, lead[t1]));
        }
    }
    assert forall|t1: int, m1: int, t2: int, m2: int|
        0 <= t1 < lead.len() && 0 <= m1 < tsize(mate, t1) && 0 <= t2 < lead.len() && 0 <= m2 < tsize(mate, t2) && (t1 != t2 || m1 != m2)
            implies #[trigger] seat(lead, mate, t1, m1) != #[trigger] seat(lead, mate, t2, m2) by {
        if t1 != t2 {
            assert(a[lead[t1]] != a[lead[t2]]);
        }
    }
    // coverage
    assert forall|i: int| 0 <= i < inst.students@.len() implies is_covered(ts, #[trigger] inst.students@[i]) by {
        let w = pos[i];
        assert(seated(lead, mate, w, i));
        assert(member(ts, w.0, w.1).same(&inst.students@[i]));
    }
    assert(all_covered(inst, ts));
    // names
    assert forall|j1: int, k1: int, j2: int, k2: int|
        is_pos(ts, j1, k1) && is_pos(ts, j2, k2) && (j1 != j2 || k1 != k2) implies #[trigger] member(ts, j1, k1).name@
        != #[trigger] member(ts, j2, k2).name@ by {
        assert(0 <= lead[j1] < n && 0 <= lead[j2] < n);
        let x1 = seat(lead, mate, j1, k1);
        let x2 = seat(lead, mate, j2, k2);
        assert(member(ts, j1, k1).same(&inst.students@[x1]));
        assert(member(ts, j2, k2).same(&inst.students@[x2]));
        assert(x1 != x2);
    }
    assert(names_unique(ts));
    // tutors
    assert forall|j1: int, j2: int|
        0 <= j1 < ts.len() && 0 <= j2 < ts.len() && j1 != j2 implies !(#[trigger] ts[j1].slot == #[trigger] ts[j2].slot
        && ts[j1].tutor.name@ == ts[j2].tutor.name@) by {
        let c1 = a[lead[j1]] as int;
        let c2 = a[lead[j2]] as int;
        assert(c1 != c2);
        assert(c1 < cands.len() && c2 < cands.len());
        assert(cands[c1] != cands[c2]);
        assert(cands[c1].0 < inst.tutors@.len());
        assert(cands[c2].0 < inst.tutors@.len());
    }
    assert(no_double_booking(ts));
    // partners
    assert forall|j: int, k: int| is_pos(ts, j, k) implies #[trigger] partner_kept(ts[j].team, k) by {
        assert(0 <= lead[j] < n);
        let x = seat(lead, mate, j, k);
        assert(ts[j].team.members()[k].same(&inst.students@[x]));
        if inst.students@[x].partner is Some {
            let y = choose|y: int| 0 <= y < n && #[trigger] names_partner(inst, x, y) && names_partner(inst, y, x);
            assert(a[x] == a[y]);
            let w = pos[y];
            assert(seated(lead, mate, w, y));
            assert(a[lead[w.0]] == a[lead[j]]);
            assert(w.0 == j);
            assert(w.1 != k);
            assert(ts[j].team.members()[w.1].same(&inst.students@[y]));
        }
    }
    assert(partners_kept(ts));
    // fitness
    assert forall|j: int| 0 <= j < ts.len() implies #[trigger] testat_fits(ts[j]) by {
        let c = a[lead[j]] as int;
        assert forall|k: int| 0 <= k < ts[j].team.members().len() implies (#[trigger] ts[j].team.members()[k]).slot_assignment.spec_rating_for(ts[j].slot).is_ok() by {
            let x = seat(lead, mate, j, k);
            assert(ts[j].team.members()[k].same(&inst.students@[x]));
            assert(student_fits(inst, cands, x, a[x] as int));
        }
        assert(c < cands.len());
        assert(cands[c].0 < inst.tutors@.len());
    }
    assert(all_fit(ts));
    // from the instance
    assert forall|j: int| #![trigger ts[j]] 0 <= j < ts.len() implies exists|x: int| is_instance_tutor(inst, ts[j].tutor, x) by {
        assert(0 <= lead[j] < n);
        assert(is_instance_tutor(inst, ts[j].tutor, cands[a[lead[j]] as int].0 as int));
    }
    assert forall|j: int, k: int| is_pos(ts, j, k) implies exists|i: int| is_instance_student(inst, #[trigger] member(ts, j, k), i) by {
        assert(0 <= lead[j] < n);
        assert(member(ts, j, k).same(&inst.students@[seat(lead, mate, j, k)]));
        assert(is_instance_student(inst, member(ts, j, k), seat(lead, mate, j, k)));
    }
    assert(from_instance(inst, sol));
}


/// The place of student `i` in the appointments `ts`.
spec fn pos_of(inst: Instance, ts: Seq<Testat>, i: int) -> (int, int) {
    choose|j: int, k: int| is_pos(ts, j, k) && #[trigger] member(ts, j, k).same(&inst.students@[i])
}

/// The instance tutor of appointment `j`.
spec fn tutor_of(inst: Instance, ts: Seq<Testat>, j: int) -> int {
    choose|x: int| is_instance_tutor(inst, ts[j].tutor, x)
}

/// The candidate of appointment `j`.
spec fn cand_of(inst: Instance, ts: Seq<Testat>, cands: Seq<(usize, Timeslot)>, j: int) -> int {
    choose|c: int| 0 <= c < cands.len() && cands[c] == (tutor_of(inst, ts, j) as usize, ts[j].slot)
}

pub(crate) proof fn lemma_valid_parts(inst: Instance, sol: Solution)
    requires
        is_valid(inst, sol),
    ensures
        all_covered(inst, sol.testats@),
        names_unique(sol.testats@),
        no_double_booking(sol.testats@),
        partners_kept(sol.testats@),
        all_fit(sol.testats@),
{
    let ts = sol.testats@;
    if !all_fit(ts) {
        assert(crate::validator::violations(inst, ts).len() > 0);
    }
    if !partners_kept(ts) {
        assert(crate::validator::violations(inst, ts).len() > 0);
    }
    if !no_double_booking(ts) {
        assert(crate::validator::violations(inst, ts).len() > 0);
    }
    if !names_unique(ts) {
        assert(crate::validator::violations(inst, ts).len() > 0);
    }
}

/// A schedule without violations made of the instance's people yields a
/// placement of all students.
proof fn lemma_solution_gives_placement(inst: Instance, cands: Seq<(usize, Timeslot)>, sol: Solution)
    requires
        well_formed(inst),
        candidates_ok(inst, cands),
        cands.len() <= usize::MAX,
        inst.tutors@.len() <= usize::MAX,
        from_instance(inst, sol),
        is_valid(inst, sol),
    ensures
        extendable(inst, cands, Seq::<usize>::empty()),
{
    let ts = sol.testats@;
    let n = inst.students@.len();
    lemma_valid_parts(inst, sol);
    // every appointment has a candidate
    assert forall|j: int| 0 <= j < ts.len() implies {
        let c = #[trigger] cand_of(inst, ts, cands, j);
        &&& 0 <= c < cands.len()
        &&& cands[c].1 == ts[j].slot
        &&& cands[c].0 as int == tutor_of(inst, ts, j)
        &&& is_instance_tutor(inst, ts[j].tutor, tutor_of(inst, ts, j))
    } by {
        assert(exists|x: int| is_instance_tutor(inst, ts[j].tutor, x));
        let x = tutor_of(inst, ts, j);
        assert(testat_fits(ts[j]));
        assert(inst.tutors@[x].slot_assignment.spec_rating_for(ts[j].slot).is_ok());
        assert(cands.contains((x as usize, ts[j].slot)));
    }
    // every student has a place
    assert forall|i: int| 0 <= i < n implies {
        let w = #[trigger] pos_of(inst, ts, i);
        is_pos(ts, w.0, w.1) && member(ts, w.0, w.1).same(&inst.students@[i])
    } by {
        assert(is_covered(ts, inst.students@[i]));
    }
    let f = Seq::new(n, |i: int| cand_of(inst, ts, cands, pos_of(inst, ts, i).0) as usize);
    // same candidate means same appointment
    assert forall|i1: int, i2: int| 0 <= i1 < n && 0 <= i2 < n && #[trigger] f[i1] == #[trigger] f[i2] implies pos_of(inst, ts, i1).0 == pos_of(inst, ts, i2).0 by {
        let j1 = pos_of(inst, ts, i1).0;
        let j2 = pos_of(inst, ts, i2).0;
        let c1 = cand_of(inst, ts, cands, j1);
        let c2 = cand_of(inst, ts, cands, j2);
        assert(c1 == c2);
        let x1 = tutor_of(inst, ts, j1);
        let x2 = tutor_of(inst, ts, j2);
        assert(x1 == x2);
        assert(ts[j1].tutor.name@ == ts[j2].tutor.name@);
    }
    // different students have different places
    assert forall|i1: int, i2: int| 0 <= i1 < n && 0 <= i2 < n && i1 != i2 implies #[trigger] pos_of(inst, ts, i1) != #[trigger] pos_of(inst, ts, i2) by {
        assert(inst.students@[i1].name@ != inst.students@[i2].name@);
    }
    assert forall|i: int| 0 <= i < n implies (#[trigger] f[i]) < cands.len() && student_fits(inst, cands, i, f[i] as int) by {
        let w = pos_of(inst, ts, i);
        assert(testat_fits(ts[w.0]));
        assert(ts[w.0].team.members()[w.1].slot_assignment.spec_rating_for(ts[w.0].slot).is_ok());
    }
    assert forall|i1: int, i2: int| 0 <= i1 < n && 0 <= i2 < n && #[trigger] names_partner(inst, i1, i2) implies f[i1] == f[i2] by {
        let w1 = pos_of(inst, ts, i1);
        let w2 = pos_of(inst, ts, i2);
        assert(partner_kept(ts[w1.0].team, w1.1));
        let other = if w1.1 == 0 { 1int } else { 0int };
        assert(ts[w1.0].team.members().len() == 2);
        assert(member(ts, w1.0, other).name@ == member(ts, w2.0, w2.1).name@);
        assert(w2.0 == w1.0);
    }
    assert forall|i1: int, i2: int| 0 <= i1 < n && 0 <= i2 < n && i1 != i2 && #[trigger] f[i1] == #[trigger] f[i2] implies may_share(inst, i1, i2) by {
        let w1 = pos_of(inst, ts, i1);
        let w2 = pos_of(inst, ts, i2);
        assert(w1.0 == w2.0);
        assert(w1.1 != w2.1);
        assert(ts[w1.0].team.members().len() == 2);
        if inst.students@[i1].partner is Some {
            assert(partner_kept(ts[w1.0].team, w1.1));
            assert(names_partner(inst, i1, i2));
        } else if inst.students@[i2].partner is Some {
            assert(partner_kept(ts[w2.0].team, w2.1));
            assert(names_partner(inst, i2, i1));
            lemma_partner_symmetric(inst, i2, i1);
        }
    }
    assert forall|i: int, j: int, k: int| 0 <= i < j < k < n implies !(#[trigger] f[i] == #[trigger] f[j] && f[j] == #[trigger] f[k]) by {
        if f[i] == f[j] && f[j] == f[k] {
            let wi = pos_of(inst, ts, i);
            let wj = pos_of(inst, ts, j);
            let wk = pos_of(inst, ts, k);
            assert(wi.0 == wj.0 && wj.0 == wk.0);
            assert(wi != wj && wj != wk && wi != wk);
            assert(ts[wi.0].team.members().len() <= 2);
        }
    }
    assert(placement_ok(inst, cands, f));
    assert(Seq::<usize>::empty() =~= f.take(0));
}


/// What `solve` returns for `inst`: `InvalidInput` exactly when it is not
/// well formed, `NoFeasibleSolution` exactly when it is but no schedule made
/// of its tutors and students passes the checks, and otherwise such a
/// schedule.
pub open spec fn solve_outcome(inst: Instance, r: Result<Solution, SolveError>) -> bool {
    &&& (r == Err::<Solution, SolveError>(SolveError::InvalidInput) <==> !well_formed(inst))
    &&& (r == Err::<Solution, SolveError>(SolveError::NoFeasibleSolution) <==> well_formed(inst) && !feasible(inst))
    &&& (r matches Ok(sol) ==> is_valid(inst, sol) && from_instance(inst, sol))
}

/// On a well-formed instance for which some schedule of its own people
/// passes the checks, `solve` succeeds, and the validator accepts its
/// schedule.
pub proof fn lemma_solve_then_validate(inst: Instance, r: Result<Solution, SolveError>)
    requires
        well_formed(inst),
        feasible(inst),
        solve_outcome(inst, r),
    ensures
        r matches Ok(sol) && is_valid(inst, sol) && from_instance(inst, sol),
{
    match r {
        Ok(_) => {},
        Err(e) => {
            match e {
                SolveError::InvalidInput => {},
                SolveError::NoFeasibleSolution => {},
            }
        },
    }
}

/// Schedules the instance. Every student gets a tutor and slot that both
/// rated; partners share an appointment, and two students without partner
/// may share one; no tutor has two appointments in one slot. Students are
/// placed in order, each trying the pairs they and the tutor rate best
/// first, backtracking where the rest cannot be placed. Fails with
/// `InvalidInput` exactly on malformed instances and with
/// `NoFeasibleSolution` exactly where no valid schedule exists.
pub fn solve(instance: &Instance) -> (r: Result<Solution, SolveError>)
    ensures
        solve_outcome(*instance, r),
{
    let p = match partner_indices(instance) {
        None => {
            return Err(SolveError::InvalidInput);
        },
        Some(p) => p,
    };
    let cands = candidates(instance);
    let n_cands = cands.len();
    let n_tutors = instance.tutors.len();
    let mut a: Vec<usize> = Vec::new();
    if !place(instance, &p, &cands, &mut a) {
        proof {
            assert(cands@.len() == n_cands && instance.tutors@.len() == n_tutors);
            if feasible(*instance) {
                let sol = choose|sol: Solution| from_instance(*instance, sol) && is_valid(*instance, sol);
                lemma_solution_gives_placement(*instance, cands@, sol);
                assert(a@ =~= Seq::<usize>::empty());
            }
        }
        return Err(SolveError::NoFeasibleSolution);
    }
    let (sol, g) = build_solution(instance, &cands, &a);
    proof {
        let (lead, mate, pos) = g@;
        lemma_built_is_valid(*instance, cands@, a@, sol, lead, mate, pos);
    }
    Ok(sol)
}


} // verus!
