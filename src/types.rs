use vstd::prelude::*;

verus! {

/// A day of the working week.
#[derive(Clone, Copy, PartialEq, Eq, Debug, Hash, Structural)]
pub enum WorkDay {
    Monday,
    Tuesday,
    Wednesday,
    Thursday,
    Friday,
}

/// How well a time slot suits a person.
#[derive(Clone, Copy, PartialEq, Eq, Debug, Structural)]
pub enum SlotRating {
    Good,
    Tolerable,
    NotFitting,
}

impl SlotRating {
    pub open spec fn spec_is_ok(&self) -> bool {
        *self != SlotRating::NotFitting
    }

    /// `true` for `Good` and `Tolerable`, `false` for `NotFitting`.
    #[verifier::when_used_as_spec(spec_is_ok)]
    pub fn is_ok(&self) -> (r: bool)
        ensures
            r == self.spec_is_ok(),
    {
        match *self {
            SlotRating::NotFitting => false,
            _ => true,
        }
    }
}

/// One bookable interval: a day and the index of the slot on that day.
#[derive(Clone, Copy, PartialEq, Eq, Debug, Hash, Structural)]
pub struct Timeslot {
    pub day: WorkDay,
    pub slot_of_day: u16,
}

/// The rating that a list of rated slots gives to `slot`: the rating of the
/// entry for it, `NotFitting` where there is none.
#[verifier::opaque]
pub open spec fn rating_in(entries: Seq<(Timeslot, SlotRating)>, slot: Timeslot) -> SlotRating {
    if exists|i: int| 0 <= i < entries.len() && entries[i].0 == slot {
        entries[choose|i: int| 0 <= i < entries.len() && entries[i].0 == slot].1
    } else {
        SlotRating::NotFitting
    }
}

/// The rating that a slot gets from a list of good and a list of tolerable slots.
pub open spec fn rating_from_lists(good: Seq<Timeslot>, tolerable: Seq<Timeslot>, slot: Timeslot) -> SlotRating {
    if good.contains(slot) {
        SlotRating::Good
    } else if tolerable.contains(slot) {
        SlotRating::Tolerable
    } else {
        SlotRating::NotFitting
    }
}

/// The ratings of one person. Every slot that it does not list is `NotFitting`.
#[derive(Debug)]
pub struct SlotAssignment {
    ratings: Vec<(Timeslot, SlotRating)>,
}

impl SlotAssignment {
    #[verifier::type_invariant]
    spec fn inv(&self) -> bool {
        &&& forall|i: int, j: int|
            0 <= i < j < self.ratings@.len() ==> self.ratings@[i].0 != self.ratings@[j].0
        &&& forall|i: int| 0 <= i < self.ratings@.len() ==> (#[trigger] self.ratings@[i]).1.is_ok()
        &&& exists|i: int| 0 <= i < self.ratings@.len() && self.ratings@[i].1 == SlotRating::Good
    }

    /// The rated slots, each with its rating (never `NotFitting`).
    pub closed spec fn view(&self) -> Map<Timeslot, SlotRating> {
        Map::new(|s: Timeslot| rating_in(self.ratings@, s).is_ok(), |s: Timeslot| rating_in(self.ratings@, s))
    }

    pub open spec fn spec_rating_for(&self, slot: Timeslot) -> SlotRating {
        if self@.contains_key(slot) {
            self@[slot]
        } else {
            SlotRating::NotFitting
        }
    }

    spec fn ratings_within_spec(&self, other: &SlotAssignment) -> bool {
        forall|k: int|
            0 <= k < self.ratings@.len() ==> other.spec_rating_for(self.ratings@[k].0) == self.ratings@[k].1
    }

    proof fn entry_of(&self, s: Timeslot) -> (k: int)
        requires
            self.inv(),
            self.spec_rating_for(s).is_ok(),
        ensures
            0 <= k < self.ratings@.len(),
            self.ratings@[k].0 == s,
    {
        reveal(rating_in);
        choose|k: int| 0 <= k < self.ratings@.len() && self.ratings@[k].0 == s
    }

    proof fn lemma_absent(&self, s: Timeslot)
        requires
            forall|k: int| 0 <= k < self.ratings@.len() ==> self.ratings@[k].0 != s,
        ensures
            self.spec_rating_for(s) == SlotRating::NotFitting,
    {
        reveal(rating_in);
    }

    proof fn lemma_eq(a: &SlotAssignment, b: &SlotAssignment)
        requires
            a.inv(),
            b.inv(),
        ensures
            (a.ratings_within_spec(b) && b.ratings_within_spec(a)) == (a@ == b@),
    {
        if a.ratings_within_spec(b) && b.ratings_within_spec(a) {
            assert forall|s: Timeslot| #[trigger] a.spec_rating_for(s) == b.spec_rating_for(s) by {
                if a.spec_rating_for(s).is_ok() {
                    let k = a.entry_of(s);
                    a.lemma_rating_in(k);
                } else if b.spec_rating_for(s).is_ok() {
                    let k = b.entry_of(s);
                    b.lemma_rating_in(k);
                }
            }
            assert forall|s: Timeslot| #[trigger] a@.contains_key(s) == b@.contains_key(s) && (a@.contains_key(s) ==> a@[s] == b@[s]) by {
                assert(a.spec_rating_for(s) == b.spec_rating_for(s));
            }
            assert(a@ =~= b@);
        } else if a.ratings_within_spec(b) {
            let k = choose|k: int|
                0 <= k < b.ratings@.len() && a.spec_rating_for(b.ratings@[k].0) != b.ratings@[k].1;
            b.lemma_rating_in(k);
        } else {
            let k = choose|k: int|
                0 <= k < a.ratings@.len() && b.spec_rating_for(a.ratings@[k].0) != a.ratings@[k].1;
            a.lemma_rating_in(k);
        }
    }

    proof fn lemma_rating_in(&self, i: int)
        requires
            self.inv(),
            0 <= i < self.ratings@.len(),
        ensures
            self.spec_rating_for(self.ratings@[i].0) == self.ratings@[i].1,
    {
        reveal(rating_in);
        let s = self.ratings@[i].0;
        let j = choose|j: int| 0 <= j < self.ratings@.len() && self.ratings@[j].0 == s;
        assert(j == i);
    }

    /// Builds the ratings of a person who finds the slots of `good_slots` good
    /// and those of `tolerable_slots` tolerable. At least one slot must be
    /// good, and no slot may be listed twice, in one list or in both.
    pub fn new(good_slots: &[Timeslot], tolerable_slots: &[Timeslot]) -> (r: SlotAssignment)
        requires
            good_slots@.len() > 0,
            (good_slots@ + tolerable_slots@).no_duplicates(),
        ensures
            forall|s: Timeslot|
                #[trigger] r.spec_rating_for(s) == rating_from_lists(good_slots@, tolerable_slots@, s),
    {
        let ghost all = good_slots@ + tolerable_slots@;
        let ghost ng = good_slots@.len();
        let mut ratings: Vec<(Timeslot, SlotRating)> = Vec::new();
        let mut i: usize = 0;
        while i < good_slots.len()
            invariant
                0 <= i <= good_slots@.len(),
                ratings@.len() == i,
                all == good_slots@ + tolerable_slots@,
                forall|k: int| 0 <= k < i ==> #[trigger] ratings@[k] == (all[k], SlotRating::Good),
            decreases good_slots@.len() - i,
        {
            ratings.push((good_slots[i], SlotRating::Good));
            i = i + 1;
        }
        let mut j: usize = 0;
        while j < tolerable_slots.len()
            invariant
                0 <= j <= tolerable_slots@.len(),
                ng == good_slots@.len(),
                ratings@.len() == ng + j,
                all == good_slots@ + tolerable_slots@,
                forall|k: int| 0 <= k < ng ==> #[trigger] ratings@[k] == (all[k], SlotRating::Good),
                forall|k: int|
                    ng <= k < ng + j ==> #[trigger] ratings@[k] == (all[k], SlotRating::Tolerable),
            decreases tolerable_slots@.len() - j,
        {
            ratings.push((tolerable_slots[j], SlotRating::Tolerable));
            j = j + 1;
        }
        assert(ratings@[0] == (all[0], SlotRating::Good));
        let r = SlotAssignment { ratings };
        proof {
            use_type_invariant(&r);
            assert forall|s: Timeslot|
                #[trigger] r.spec_rating_for(s) == rating_from_lists(good_slots@, tolerable_slots@, s) by {
                if good_slots@.contains(s) {
                    let k = choose|k: int| 0 <= k < good_slots@.len() && good_slots@[k] == s;
                    assert(all[k] == s);
                    r.lemma_rating_in(k);
                } else if tolerable_slots@.contains(s) {
                    let k = choose|k: int| 0 <= k < tolerable_slots@.len() && tolerable_slots@[k] == s;
                    assert(all[ng + k] == s);
                    r.lemma_rating_in(ng + k);
                } else {
                    assert forall|k: int| 0 <= k < r.ratings@.len() implies r.ratings@[k].0 != s by {
                        if k < ng {
                            assert(good_slots@[k] == all[k]);
                        } else {
                            assert(tolerable_slots@[k - ng] == all[k]);
                        }
                    }
                    r.lemma_absent(s);
                }
            }
        }
        r
    }

    /// Like `new`, but checked: `None` where no slot is good or where a slot
    /// is listed twice (in one list, or as good and as tolerable).
    pub fn try_new(good_slots: &[Timeslot], tolerable_slots: &[Timeslot]) -> (r: Option<SlotAssignment>)
        ensures
            r is None <==> (good_slots@.len() == 0 || !(good_slots@ + tolerable_slots@).no_duplicates()),
            r matches Some(a) ==> forall|s: Timeslot|
                #[trigger] a.spec_rating_for(s) == rating_from_lists(good_slots@, tolerable_slots@, s),
    {
        if good_slots.len() == 0 {
            return None;
        }
        let mut all: Vec<Timeslot> = Vec::new();
        let mut i: usize = 0;
        while i < good_slots.len()
            invariant
                0 <= i <= good_slots@.len(),
                all@ == good_slots@.take(i as int),
            decreases good_slots@.len() - i,
        {
            all.push(good_slots[i]);
            i = i + 1;
            assert(all@ =~= good_slots@.take(i as int));
        }
        let mut j: usize = 0;
        while j < tolerable_slots.len()
            invariant
                0 <= j <= tolerable_slots@.len(),
                all@ == good_slots@ + tolerable_slots@.take(j as int),
            decreases tolerable_slots@.len() - j,
        {
            all.push(tolerable_slots[j]);
            j = j + 1;
            assert(all@ =~= good_slots@ + tolerable_slots@.take(j as int));
        }
        assert(tolerable_slots@.take(tolerable_slots@.len() as int) =~= tolerable_slots@);
        if slots_distinct(&all) {
            Some(SlotAssignment::new(good_slots, tolerable_slots))
        } else {
            None
        }
    }

    /// The slots rated `Good` or `Tolerable`, each once.
    pub fn rated_slots(&self) -> (r: Vec<Timeslot>)
        ensures
            r@.no_duplicates(),
            forall|s: Timeslot| r@.contains(s) <==> #[trigger] self.spec_rating_for(s).is_ok(),
    {
        let mut r: Vec<Timeslot> = Vec::new();
        let mut i: usize = 0;
        while i < self.ratings.len()
            invariant
                0 <= i <= self.ratings@.len(),
                r@.len() == i,
                forall|k: int| 0 <= k < i ==> #[trigger] r@[k] == self.ratings@[k].0,
            decreases self.ratings@.len() - i,
        {
            r.push(self.ratings[i].0);
            i = i + 1;
        }
        proof {
            use_type_invariant(self);
            assert forall|s: Timeslot| r@.contains(s) <==> #[trigger] self.spec_rating_for(s).is_ok() by {
                if r@.contains(s) {
                    let k = choose|k: int| 0 <= k < r@.len() && r@[k] == s;
                    assert(self.ratings@[k].0 == s);
                    self.lemma_rating_in(k);
                } else {
                    assert forall|k: int| 0 <= k < self.ratings@.len() implies self.ratings@[k].0 != s by {
                        assert(r@[k] == self.ratings@[k].0);
                    }
                    self.lemma_absent(s);
                }
            }
        }
        r
    }

    /// Whether every entry of `self` has the same rating in `other`.
    fn ratings_within(&self, other: &SlotAssignment) -> (r: bool)
        ensures
            r == self.ratings_within_spec(other),
    {
        let mut i: usize = 0;
        while i < self.ratings.len()
            invariant
                0 <= i <= self.ratings@.len(),
                forall|k: int|
                    0 <= k < i ==> other.spec_rating_for(self.ratings@[k].0) == self.ratings@[k].1,
            decreases self.ratings@.len() - i,
        {
            let (slot, rating) = self.ratings[i];
            if other.rating_for(slot) != rating {
                return false;
            }
            i = i + 1;
        }
        true
    }

    /// The rating of `slot`: `NotFitting` where it is not rated.
    pub fn rating_for(&self, slot: Timeslot) -> (r: SlotRating)
        ensures
            r == self.spec_rating_for(slot),
    {
        let mut i: usize = 0;
        while i < self.ratings.len()
            invariant
                0 <= i <= self.ratings@.len(),
                forall|k: int| 0 <= k < i ==> self.ratings@[k].0 != slot,
            decreases self.ratings@.len() - i,
        {
            if self.ratings[i].0 == slot {
                proof {
                    use_type_invariant(self);
                    self.lemma_rating_in(i as int);
                }
                return self.ratings[i].1;
            }
            i = i + 1;
        }
        proof {
            self.lemma_absent(slot);
        }
        SlotRating::NotFitting
    }
}

/// A slot assignment rates finitely many slots, and those are the slots
/// that are not `NotFitting`.
pub proof fn lemma_rated_finite(a: SlotAssignment)
    ensures
        a@.dom().finite(),
        forall|s: Timeslot| a@.dom().contains(s) <==> #[trigger] a.spec_rating_for(s).is_ok(),
{
    let keys = a.ratings@.map_values(|e: (Timeslot, SlotRating)| e.0).to_set();
    assert(a@.dom().subset_of(keys)) by {
        reveal(rating_in);
        assert forall|s: Timeslot| a@.dom().contains(s) implies keys.contains(s) by {
            let i = choose|i: int| 0 <= i < a.ratings@.len() && a.ratings@[i].0 == s;
            assert(a.ratings@.map_values(|e: (Timeslot, SlotRating)| e.0)[i] == s);
        }
    }
    vstd::set_lib::lemma_len_subset(a@.dom(), keys);
}

/// A slot listed as good and as tolerable makes the lists invalid: `new`
/// cannot be called on them, and `try_new` returns `None`.
pub proof fn lemma_shared_slot_refused(good: Seq<Timeslot>, tolerable: Seq<Timeslot>, i: int, j: int)
    requires
        0 <= i < good.len(),
        0 <= j < tolerable.len(),
        good[i] == tolerable[j],
    ensures
        !(good + tolerable).no_duplicates(),
{
    assert((good + tolerable)[i] == (good + tolerable)[good.len() + j]);
}

/// A slot that a slot assignment does not rate is `NotFitting`.
pub proof fn lemma_unrated_not_fitting(a: SlotAssignment, slot: Timeslot)
    requires
        !a@.contains_key(slot),
    ensures
        a.spec_rating_for(slot) == SlotRating::NotFitting,
{
}

/// Built from disjoint lists, a slot assignment gives each listed slot the
/// rating of its list, and every other slot `NotFitting`.
pub proof fn lemma_ratings_round_trip(good: Seq<Timeslot>, tolerable: Seq<Timeslot>, a: SlotAssignment)
    requires
        (good + tolerable).no_duplicates(),
        forall|s: Timeslot| #[trigger] a.spec_rating_for(s) == rating_from_lists(good, tolerable, s),
    ensures
        forall|i: int| 0 <= i < good.len() ==> a.spec_rating_for(#[trigger] good[i]) == SlotRating::Good,
        forall|i: int| 0 <= i < tolerable.len() ==> a.spec_rating_for(#[trigger] tolerable[i]) == SlotRating::Tolerable,
        forall|s: Timeslot| !good.contains(s) && !tolerable.contains(s) ==> #[trigger] a.spec_rating_for(s) == SlotRating::NotFitting,
{
    assert forall|i: int| 0 <= i < good.len() implies a.spec_rating_for(#[trigger] good[i]) == SlotRating::Good by {
        assert(good.contains(good[i]));
    }
    assert forall|i: int| 0 <= i < tolerable.len() implies a.spec_rating_for(#[trigger] tolerable[i]) == SlotRating::Tolerable by {
        assert(tolerable.contains(tolerable[i]));
        if good.contains(tolerable[i]) {
            let j = choose|j: int| 0 <= j < good.len() && good[j] == tolerable[i];
            assert((good + tolerable)[j] == (good + tolerable)[good.len() + i]);
        }
    }
}

impl Clone for SlotAssignment {
    fn clone(&self) -> (r: Self)
        ensures
            r@ == self@,
    {
        proof {
            use_type_invariant(self);
        }
        let mut ratings: Vec<(Timeslot, SlotRating)> = Vec::new();
        let mut i: usize = 0;
        while i < self.ratings.len()
            invariant
                0 <= i <= self.ratings@.len(),
                ratings@ == self.ratings@.take(i as int),
            decreases self.ratings@.len() - i,
        {
            ratings.push(self.ratings[i]);
            i = i + 1;
            assert(ratings@ =~= self.ratings@.take(i as int));
        }
        assert(ratings@ =~= self.ratings@);
        SlotAssignment { ratings }
    }
}

impl PartialEq for SlotAssignment {
    fn eq(&self, other: &SlotAssignment) -> (r: bool) {
        proof {
            use_type_invariant(self);
            use_type_invariant(other);
            SlotAssignment::lemma_eq(self, other);
        }
        self.ratings_within(other) && other.ratings_within(self)
    }
}

impl vstd::std_specs::cmp::PartialEqSpecImpl for SlotAssignment {
    open spec fn obeys_eq_spec() -> bool {
        true
    }

    open spec fn eq_spec(&self, other: &SlotAssignment) -> bool {
        self@ == other@
    }
}

/// The text of an optional name.
pub open spec fn name_view(o: Option<String>) -> Option<Seq<char>> {
    match o {
        Some(n) => Some(n@),
        None => None,
    }
}

fn clone_name(o: &Option<String>) -> (r: Option<String>)
    ensures
        name_view(r) == name_view(*o),
{
    match o {
        Some(n) => Some(n.clone()),
        None => None,
    }
}

fn names_equal(a: &Option<String>, b: &Option<String>) -> (r: bool)
    ensures
        r == (name_view(*a) == name_view(*b)),
{
    match (a, b) {
        (Some(x), Some(y)) => *x == *y,
        (None, None) => true,
        _ => false,
    }
}

/// A tutor. `scale_factor` is how many teams the tutor could take on in one
/// slot; it counts toward the capacity of an instance, while a schedule
/// still gives a tutor at most one appointment per slot.
#[derive(Debug)]
pub struct Tutor {
    pub name: String,
    pub slot_assignment: SlotAssignment,
    pub scale_factor: u32,
}

impl Clone for Tutor {
    fn clone(&self) -> (r: Self)
        ensures
            r.name@ == self.name@,
            r.slot_assignment@ == self.slot_assignment@,
            r.scale_factor == self.scale_factor,
    {
        Tutor {
            name: self.name.clone(),
            slot_assignment: self.slot_assignment.clone(),
            scale_factor: self.scale_factor,
        }
    }
}

/// A student, with the name of the partner they want to share a team with.
#[derive(Debug)]
pub struct Student {
    pub name: String,
    pub slot_assignment: SlotAssignment,
    pub partner: Option<String>,
}

impl Student {
    /// Two records describe the same student: same name, ratings and partner.
    pub open spec fn same(&self, other: &Student) -> bool {
        &&& self.name@ == other.name@
        &&& self.slot_assignment@ == other.slot_assignment@
        &&& name_view(self.partner) == name_view(other.partner)
    }
}

impl Clone for Student {
    fn clone(&self) -> (r: Self)
        ensures
            r.same(self),
    {
        Student {
            name: self.name.clone(),
            slot_assignment: self.slot_assignment.clone(),
            partner: clone_name(&self.partner),
        }
    }
}

impl PartialEq for Student {
    fn eq(&self, other: &Student) -> (r: bool) {
        self.name == other.name && self.slot_assignment == other.slot_assignment && names_equal(
            &self.partner,
            &other.partner,
        )
    }
}

impl vstd::std_specs::cmp::PartialEqSpecImpl for Student {
    open spec fn obeys_eq_spec() -> bool {
        true
    }

    open spec fn eq_spec(&self, other: &Student) -> bool {
        self.same(other)
    }
}

/// The problem: who is to be scheduled, and who can take them.
#[derive(Clone, Debug)]
pub struct Instance {
    pub students: Vec<Student>,
    pub tutors: Vec<Tutor>,
}

/// One student alone, or two partners together.
#[derive(Clone, Debug)]
pub enum Team {
    Single(Student),
    Full(Student, Student),
}

impl Team {
    /// The students of the team, in order.
    pub open spec fn members(&self) -> Seq<Student> {
        match *self {
            Team::Single(s) => seq![s],
            Team::Full(s1, s2) => seq![s1, s2],
        }
    }

    /// The number of students of the team: one or two.
    pub fn size(&self) -> (r: usize)
        ensures
            r == self.members().len(),
    {
        match self {
            Team::Single(_) => 1,
            Team::Full(_, _) => 2,
        }
    }

    /// The `k`-th student of the team.
    pub fn student_at(&self, k: usize) -> (r: &Student)
        requires
            k < self.members().len(),
        ensures
            *r == self.members()[k as int],
    {
        match self {
            Team::Single(s) => s,
            Team::Full(s1, s2) => if k == 0 {
                s1
            } else {
                s2
            },
        }
    }

    /// Whether `f` holds of every student of the team; stops at the first
    /// student for whom it does not.
    pub fn all_students<F: Fn(&Student) -> bool>(&self, f: F) -> (r: bool)
        requires
            forall|s: &Student| #[trigger] f.requires((s,)),
        ensures
            r ==> forall|i: int| 0 <= i < self.members().len() ==> f.ensures((&self.members()[i],), true),
            !r ==> exists|i: int| 0 <= i < self.members().len() && f.ensures((&self.members()[i],), false),
    {
        match self {
            Team::Single(s) => {
                let b = f(s);
                proof {
                    assert(self.members()[0] == *s);
                }
                b
            },
            Team::Full(s1, s2) => {
                let b1 = f(s1);
                proof {
                    assert(self.members()[0] == *s1);
                    assert(self.members()[1] == *s2);
                }
                if !b1 {
                    return false;
                }
                f(s2)
            },
        }
    }

    /// Whether `s` is one of the students of the team.
    pub fn contains(&self, s: &Student) -> (r: bool)
        ensures
            r == exists|i: int| 0 <= i < self.members().len() && self.members()[i].same(s),
    {
        match self {
            Team::Single(s1) => {
                proof {
                    assert(self.members()[0] == *s1);
                }
                *s1 == *s
            },
            Team::Full(s1, s2) => {
                proof {
                    assert(self.members()[0] == *s1);
                    assert(self.members()[1] == *s2);
                }
                *s1 == *s || *s2 == *s
            },
        }
    }
}

/// One appointment: a team meets a tutor in a slot.
#[derive(Clone, Debug)]
pub struct Testat {
    pub slot: Timeslot,
    pub tutor: Tutor,
    pub team: Team,
}

/// A schedule: the appointments.
#[derive(Clone, Debug)]
pub struct Solution {
    pub testats: Vec<Testat>,
}

/// Whether no slot occurs twice in `v`.
fn slots_distinct(v: &Vec<Timeslot>) -> (r: bool)
    ensures
        r == v@.no_duplicates(),
{
    let mut i: usize = 0;
    while i < v.len()
        invariant
            0 <= i <= v@.len(),
            forall|a: int, b: int| 0 <= a < i && 0 <= b < v@.len() && a != b ==> v@[a] != v@[b],
        decreases v@.len() - i,
    {
        let mut j: usize = 0;
        while j < v.len()
            invariant
                0 <= i < v@.len(),
                0 <= j <= v@.len(),
                forall|a: int, b: int| 0 <= a < i && 0 <= b < v@.len() && a != b ==> v@[a] != v@[b],
                forall|b: int| 0 <= b < j && b != i ==> v@[i as int] != v@[b],
            decreases v@.len() - j,
        {
            if j != i && v[i] == v[j] {
                return false;
            }
            j = j + 1;
        }
        i = i + 1;
    }
    true
}

} // verus!
