use vstd::prelude::*;

use crate::solver::{
    SolveError, feasible, from_instance, is_instance_tutor, lemma_valid_parts, solve_outcome, well_formed,
};
use crate::validator::{is_covered, is_pos, is_valid, member, testat_fits};
use crate::types::{Instance, Solution, Timeslot, Tutor, lemma_rated_finite};

verus! {

/// The teams that the first `t` tutors can take: for each, the number of
/// rated slots times the scale factor.
pub open spec fn capacity_upto(tutors: Seq<Tutor>, t: int) -> int
    decreases t,
{
    if t <= 0 {
        0
    } else {
        capacity_upto(tutors, t - 1) + tutors[t - 1].scale_factor * tutors[t - 1].slot_assignment@.dom().len()
    }
}

/// The teams that all tutors together can take.
pub open spec fn capacity(inst: Instance) -> int {
    capacity_upto(inst.tutors@, inst.tutors@.len() as int)
}

/// The fewest teams that can hold the students: a team holds at most two,
/// so half of them, rounded up. In a well-formed instance partners pair up
/// and the others may, so this many suffice.
pub open spec fn team_count(inst: Instance) -> int {
    (inst.students@.len() as int + 1) / 2
}

/// The (tutor index, slot) pairs of the first `t` tutors that the tutor rated.
spec fn rated_pairs(tutors: Seq<Tutor>, t: int) -> Set<(int, Timeslot)> {
    Set::new(|p: (int, Timeslot)| 0 <= p.0 < t && tutors[p.0].slot_assignment.spec_rating_for(p.1).is_ok())
}

proof fn lemma_rated_pairs_bound(tutors: Seq<Tutor>, t: int)
    requires
        0 <= t <= tutors.len(),
        forall|x: int| 0 <= x < tutors.len() ==> #[trigger] tutors[x].scale_factor >= 1,
    ensures
        rated_pairs(tutors, t).finite(),
        rated_pairs(tutors, t).len() <= capacity_upto(tutors, t),
    decreases t,
{
    if t == 0 {
        assert(rated_pairs(tutors, 0) =~= Set::empty());
    } else {
        lemma_rated_pairs_bound(tutors, t - 1);
        let a = tutors[t - 1].slot_assignment;
        lemma_rated_finite(a);
        let f = |s: Timeslot| (t - 1, s);
        let d = a@.dom().map(f);
        vstd::set_lib::lemma_map_size_bound(a@.dom(), d, f);
        assert(rated_pairs(tutors, t) =~= rated_pairs(tutors, t - 1).union(d)) by {
            assert forall|p: (int, Timeslot)| rated_pairs(tutors, t).contains(p) implies rated_pairs(tutors, t - 1).union(d).contains(p) by {
                if p.0 == t - 1 {
                    assert(a@.dom().contains(p.1));
                    assert(f(p.1) == p);
                }
            }
            assert forall|p: (int, Timeslot)| d.contains(p) implies rated_pairs(tutors, t).contains(p) by {
                let s = choose|s: Timeslot| a@.dom().contains(s) && f(s) == p;
                assert(a.spec_rating_for(s).is_ok());
            }
        }
        vstd::set_lib::lemma_len_union(rated_pairs(tutors, t - 1), d);
        let n = a@.dom().len();
        let k = tutors[t - 1].scale_factor;
        assert(k * n >= n) by (nonlinear_arith)
            requires
                k >= 1,
                n >= 0,
        ;
    }
}

/// Where the tutors together can take fewer teams than the students need,
/// no valid schedule exists, and `solve` reports `NoFeasibleSolution`.
pub proof fn lemma_capacity_short_is_infeasible(inst: Instance, r: Result<Solution, SolveError>)
    requires
        well_formed(inst),
        capacity(inst) < team_count(inst),
        solve_outcome(inst, r),
    ensures
        !feasible(inst),
        r == Err::<Solution, SolveError>(SolveError::NoFeasibleSolution),
{
    if feasible(inst) {
        let sol = choose|sol: Solution| from_instance(inst, sol) && is_valid(inst, sol);
        lemma_valid_parts(inst, sol);
        let ts = sol.testats@;
        let n = inst.students@.len() as int;
        let t = ts.len() as int;
        // each student has a seat: (appointment, place) numbered 2 * j + k
        let w = |i: int| choose|j: int, k: int| is_pos(ts, j, k) && #[trigger] member(ts, j, k).same(&inst.students@[i]);
        let g = |i: int| 2 * w(i).0 + w(i).1;
        assert forall|i: int| 0 <= i < n implies is_pos(ts, #[trigger] w(i).0, w(i).1) && member(ts, w(i).0, w(i).1).same(&inst.students@[i]) by {
            assert(is_covered(ts, inst.students@[i]));
        }
        let students = vstd::set_lib::set_int_range(0, n);
        let seats = vstd::set_lib::set_int_range(0, 2 * t);
        vstd::set_lib::lemma_int_range(0, n);
        vstd::set_lib::lemma_int_range(0, 2 * t);
        assert(vstd::relations::injective_on(g, students)) by {
            assert forall|i1: int, i2: int| students.contains(i1) && students.contains(i2) && #[trigger] g(i1) == #[trigger] g(i2) implies i1 == i2 by {
                assert(ts[w(i1).0].team.members().len() <= 2);
                assert(ts[w(i2).0].team.members().len() <= 2);
                assert(w(i1) == w(i2));
                assert(inst.students@[i1].name@ == inst.students@[i2].name@);
            }
        }
        vstd::set_lib::lemma_map_size(students, students.map(g), g);
        assert(students.map(g).subset_of(seats)) by {
            assert forall|z: int| students.map(g).contains(z) implies seats.contains(z) by {
                let i = choose|i: int| students.contains(i) && g(i) == z;
                assert(ts[w(i).0].team.members().len() <= 2);
            }
        }
        vstd::set_lib::lemma_len_subset(students.map(g), seats);
        // each appointment takes its own rated (tutor, slot) pair
        let x = |j: int| choose|x: int| is_instance_tutor(inst, ts[j].tutor, x);
        let h = |j: int| (x(j), ts[j].slot);
        let apps = vstd::set_lib::set_int_range(0, t);
        vstd::set_lib::lemma_int_range(0, t);
        assert forall|j: int| 0 <= j < t implies is_instance_tutor(inst, ts[j].tutor, #[trigger] x(j)) by {
            assert(exists|y: int| is_instance_tutor(inst, ts[j].tutor, y));
        }
        assert(vstd::relations::injective_on(h, apps)) by {
            assert forall|j1: int, j2: int| apps.contains(j1) && apps.contains(j2) && #[trigger] h(j1) == #[trigger] h(j2) implies j1 == j2 by {
                assert(x(j1) == x(j2));
                assert(ts[j1].tutor.name@ == ts[j2].tutor.name@);
            }
        }
        vstd::set_lib::lemma_map_size(apps, apps.map(h), h);
        let pairs = rated_pairs(inst.tutors@, inst.tutors@.len() as int);
        lemma_rated_pairs_bound(inst.tutors@, inst.tutors@.len() as int);
        assert(apps.map(h).subset_of(pairs)) by {
            assert forall|q: (int, Timeslot)| apps.map(h).contains(q) implies pairs.contains(q) by {
                let j = choose|j: int| apps.contains(j) && h(j) == q;
                assert(testat_fits(ts[j]));
            }
        }
        vstd::set_lib::lemma_len_subset(apps.map(h), pairs);
        assert(false);
    }
}

} // verus!
