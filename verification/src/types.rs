//! Identifiers of the problem (days, seasons, resources, interventions)
//! and non-empty periods of consecutive days.
use vstd::prelude::*;
use vstd::std_specs::ops::{AddSpec, SubSpec};

verus! {

/// Season identifier.
#[derive(Copy, Clone, Hash, Debug, PartialEq, Eq, Structural)]
pub struct SID(usize);

/// Day identifier.
#[derive(Copy, Clone, Hash, Debug, PartialEq, Eq, Structural, PartialOrd, Ord)]
pub struct Day(usize);

/// Resource identifier.
#[derive(Copy, Clone, Hash, Debug, PartialEq, Eq, Structural, PartialOrd, Ord)]
pub struct RID(usize);

/// Day identifier for a given period.
#[derive(Copy, Clone, Hash, Debug, PartialEq, Eq, Structural, PartialOrd, Ord)]
pub struct PID(usize);

/// Intervention identifier.
#[derive(Copy, Clone, Hash, Debug, PartialEq, Eq, Structural, PartialOrd, Ord)]
pub struct IID(usize);

/// Resource identifier for a given period.
#[derive(Copy, Clone, Hash, Debug, PartialEq, Eq, Structural, PartialOrd, Ord)]
pub struct PRID(usize);

impl View for SID {
    type V = usize;

    closed spec fn view(&self) -> usize {
        self.0
    }
}

impl View for Day {
    type V = usize;

    closed spec fn view(&self) -> usize {
        self.0
    }
}

impl View for RID {
    type V = usize;

    closed spec fn view(&self) -> usize {
        self.0
    }
}

impl View for PID {
    type V = usize;

    closed spec fn view(&self) -> usize {
        self.0
    }
}

impl View for IID {
    type V = usize;

    closed spec fn view(&self) -> usize {
        self.0
    }
}

impl View for PRID {
    type V = usize;

    closed spec fn view(&self) -> usize {
        self.0
    }
}

impl SID {
    pub fn new(id: usize) -> (r: Self)
        ensures
            r@ == id,
    {
        SID(id)
    }

    /// Two identifiers with the same number are the same identifier.
    pub proof fn lemma_same_number(a: Self, b: Self)
        ensures
            a@ == b@ <==> a == b,
    {
    }

    pub fn get(&self) -> (r: usize)
        ensures
            r == self@,
    {
        self.0
    }
}

impl Day {
    pub fn new(id: usize) -> (r: Self)
        ensures
            r@ == id,
    {
        Day(id)
    }

    pub fn get(&self) -> (r: usize)
        ensures
            r == self@,
    {
        self.0
    }
}

impl RID {
    pub fn new(id: usize) -> (r: Self)
        ensures
            r@ == id,
    {
        RID(id)
    }

    /// Two identifiers with the same number are the same identifier.
    pub proof fn lemma_same_number(a: Self, b: Self)
        ensures
            a@ == b@ <==> a == b,
    {
    }

    pub fn get(&self) -> (r: usize)
        ensures
            r == self@,
    {
        self.0
    }
}

impl PID {
    pub fn new(id: usize) -> (r: Self)
        ensures
            r@ == id,
    {
        PID(id)
    }

    /// Two identifiers with the same number are the same identifier.
    pub proof fn lemma_same_number(a: Self, b: Self)
        ensures
            a@ == b@ <==> a == b,
    {
    }

    pub fn get(&self) -> (r: usize)
        ensures
            r == self@,
    {
        self.0
    }
}

impl IID {
    pub fn new(id: usize) -> (r: Self)
        ensures
            r@ == id,
    {
        IID(id)
    }

    /// Two identifiers with the same number are the same identifier.
    pub proof fn lemma_same_number(a: IID, b: IID)
        ensures
            a@ == b@ <==> a == b,
    {
    }

    pub fn get(&self) -> (r: usize)
        ensures
            r == self@,
    {
        self.0
    }
}

impl PRID {
    pub fn new(id: usize) -> (r: Self)
        ensures
            r@ == id,
    {
        PRID(id)
    }

    /// Two identifiers with the same number are the same identifier.
    pub proof fn lemma_same_number(a: Self, b: Self)
        ensures
            a@ == b@ <==> a == b,
    {
    }

    pub fn get(&self) -> (r: usize)
        ensures
            r == self@,
    {
        self.0
    }
}

impl std::ops::Add for Day {
    type Output = Day;

    fn add(self, other: Day) -> (r: Day)
        ensures
            r@ == self@ + other@,
    {
        Day(self.0 + other.0)
    }
}

impl vstd::std_specs::ops::AddSpecImpl for Day {
    open spec fn obeys_add_spec() -> bool {
        true
    }

    open spec fn add_req(self, other: Day) -> bool {
        self@ + other@ <= usize::MAX
    }

    open spec fn add_spec(self, other: Day) -> Day {
        Day::from_number((self@ + other@) as usize)
    }
}

impl std::ops::Sub for Day {
    type Output = Day;

    fn sub(self, other: Day) -> (r: Day)
        ensures
            r@ == self@ - other@,
    {
        Day(self.0 - other.0)
    }
}

impl vstd::std_specs::ops::SubSpecImpl for Day {
    open spec fn obeys_sub_spec() -> bool {
        true
    }

    open spec fn sub_req(self, other: Day) -> bool {
        self@ >= other@
    }

    open spec fn sub_spec(self, other: Day) -> Day {
        Day::from_number((self@ - other@) as usize)
    }
}

impl Day {
    /// The day with the given number.
    pub closed spec fn from_number(id: usize) -> Day {
        Day(id)
    }

    pub broadcast proof fn lemma_from_number(id: usize)
        ensures
            #[trigger] Day::from_number(id)@ == id,
    {
    }

    /// Two days with the same number are the same day.
    pub proof fn lemma_same_number(a: Day, b: Day)
        ensures
            a@ == b@ <==> a == b,
    {
    }
}

/// A non-empty period of consecutive days: `duration` days starting at `start`.
#[derive(Copy, Clone, Debug, PartialEq, Eq, Structural)]
pub struct Period {
    start: Day,
    duration: Day,
}

impl View for Period {
    /// The first day and the number of days.
    type V = (int, int);

    closed spec fn view(&self) -> (int, int) {
        (self.start@ as int, self.duration@ as int)
    }
}

impl Period {
    /// Every period has at least one day.
    #[verifier::type_invariant]
    pub closed spec fn non_empty(self) -> bool {
        self.duration@ > 0
    }

    /// Two periods with the same first day and number of days are the
    /// same period.
    pub proof fn lemma_same_view(a: Period, b: Period)
        ensures
            a@ == b@ <==> a == b,
    {
        if a@ == b@ {
            assert(a.start@ == b.start@ && a.duration@ == b.duration@);
        }
    }

    pub proof fn lemma_non_empty(self)
        requires
            self.non_empty(),
        ensures
            self.length() > 0,
    {
    }

    /// First day of the period.
    pub open spec fn first(self) -> int {
        self@.0
    }

    /// Number of days of the period.
    pub open spec fn length(self) -> int {
        self@.1
    }

    /// The day just after the last day of the period.
    pub open spec fn stop(self) -> int {
        self.first() + self.length()
    }

    /// The days of the period can be counted without overflowing a `usize`.
    pub open spec fn fits(self) -> bool {
        self.stop() <= usize::MAX
    }

    /// `day` is one of the days of the period.
    pub open spec fn has_day(self, day: int) -> bool {
        self.first() <= day < self.stop()
    }

    /// Every day of `other` is a day of `self`.
    pub open spec fn encloses(self, other: Period) -> bool {
        self.first() <= other.first() && other.stop() <= self.stop()
    }

    /// No day belongs to both periods.
    pub open spec fn disjoint(self, other: Period) -> bool {
        other.first() >= self.stop() || self.first() >= other.stop()
    }

    /// First day and stop day shared by two overlapping periods.
    pub open spec fn overlap(self, other: Period) -> (int, int) {
        (
            if self.first() <= other.first() { other.first() } else { self.first() },
            if self.stop() <= other.stop() { self.stop() } else { other.stop() },
        )
    }

    /// The first day and the number of days are machine integers.
    pub proof fn lemma_bounds(self)
        ensures
            0 <= self.first() <= usize::MAX,
            0 <= self.length() <= usize::MAX,
    {
    }

    /// Builds the period of `duration` days starting at `first`; there is none
    /// when `duration` is zero.
    pub fn new(first: Day, duration: Day) -> (r: Option<Self>)
        ensures
            r is None <==> duration@ == 0,
            r matches Some(p) ==> p.first() == first@ && p.length() == duration@,
    {
        if duration.0 == 0 {
            None
        } else {
            Some(Period { start: first, duration })
        }
    }

    #[inline(always)]
    pub fn duration(&self) -> (r: Day)
        ensures
            r@ == self.length(),
    {
        self.duration
    }

    /// First and last days of the period.
    #[inline(always)]
    pub fn days(&self) -> (r: (Day, Day))
        requires
            self.fits(),
        ensures
            r.0@ == self.first(),
            r.1@ == self.stop() - 1,
    {
        (self.start, self.end())
    }

    /// First day of the period and the day after its last day.
    #[inline(always)]
    pub fn days_exclusive(&self) -> (r: (Day, Day))
        requires
            self.fits(),
        ensures
            r.0@ == self.first(),
            r.1@ == self.stop(),
    {
        (self.start, self.end_exclusive())
    }

    #[inline(always)]
    pub fn start(&self) -> (r: Day)
        ensures
            r@ == self.first(),
    {
        self.start
    }

    /// Last day of the period.
    #[inline(always)]
    pub fn end(&self) -> (r: Day)
        requires
            self.fits(),
        ensures
            r@ == self.stop() - 1,
    {
        proof {
            use_type_invariant(self);
        }
        Day(self.start.0 + self.duration.0 - 1)
    }

    /// The day just after the last day of the period.
    #[inline(always)]
    pub fn end_exclusive(&self) -> (r: Day)
        requires
            self.fits(),
        ensures
            r@ == self.stop(),
    {
        Day(self.start.0 + self.duration.0)
    }

    /// Every day of `other` is a day of `self`.
    #[inline(always)]
    pub fn contains(&self, other: &Period) -> (r: bool)
        requires
            self.fits(),
            other.fits(),
        ensures
            r == self.encloses(*other),
    {
        self.start.0 <= other.start.0 && self.end_exclusive().0 >= other.end_exclusive().0
    }

    /// Whether the two periods have no day in common: true when one of
    /// them starts after the other has ended.
    #[inline(always)]
    pub fn intersect(&self, other: &Period) -> (r: bool)
        requires
            self.fits(),
            other.fits(),
        ensures
            r == self.disjoint(*other),
    {
        (other.start().0 > self.end().0) || (self.start().0 > other.end().0)
    }

    /// The days shared by both periods, if there is any.
    pub fn intersection(&self, other: &Period) -> (r: Option<Period>)
        requires
            self.fits(),
            other.fits(),
        ensures
            r is None <==> self.disjoint(*other),
            r matches Some(p) ==> p.fits() && (p.first(), p.stop()) == self.overlap(*other),
    {
        proof {
            use_type_invariant(self);
            use_type_invariant(other);
        }
        if (other.start().0 > self.end().0) || (self.start().0 > other.end().0) {
            None
        } else {
            let start = if other.start().0 >= self.start().0 {
                other.start()
            } else {
                self.start()
            };
            let end = if other.end_exclusive().0 <= self.end_exclusive().0 {
                other.end_exclusive()
            } else {
                self.end_exclusive()
            };
            Some(Period { start, duration: Day(end.0 - start.0) })
        }
    }
}

/// Disjointness and the shared days of two periods do not depend on the
/// order in which the periods are taken.
pub proof fn lemma_intersection_symmetric(x: Period, y: Period)
    ensures
        x.disjoint(y) == y.disjoint(x),
        x.overlap(y) == y.overlap(x),
{
}

/// Two periods that are not disjoint share exactly the days of their overlap,
/// which is not empty and lies in both; disjoint periods share no day.
pub proof fn lemma_intersection_days(x: Period, y: Period, day: int)
    requires
        x.length() > 0,
        y.length() > 0,
    ensures
        x.disjoint(y) ==> !(x.has_day(day) && y.has_day(day)),
        !x.disjoint(y) ==> {
            let (first, stop) = x.overlap(y);
            &&& first < stop
            &&& x.first() <= first && stop <= x.stop()
            &&& y.first() <= first && stop <= y.stop()
            &&& (x.has_day(day) && y.has_day(day) <==> first <= day < stop)
        },
{
}

/// Enclosing is reflexive and transitive, and a period overlaps every
/// period that it encloses.
pub proof fn lemma_encloses_order(x: Period, y: Period, z: Period)
    requires
        y.length() > 0,
    ensures
        x.encloses(x),
        x.encloses(y) && y.encloses(z) ==> x.encloses(z),
        x.encloses(y) ==> !x.disjoint(y),
        x.encloses(y) ==> forall|d: int| y.has_day(d) ==> x.has_day(d),
        x.encloses(y) ==> x.overlap(y) == (y.first(), y.stop()),
{
}

/// Taking away a number of days undoes adding it.
pub proof fn lemma_day_add_sub(a: Day, b: Day)
    requires
        a.add_req(b),
    ensures
        a.add_spec(b).sub_req(b),
        a.add_spec(b).sub_spec(b) == a,
{
}

/// Adding a number of days back undoes taking it away (as writing a day
/// numbered from 1 does for a day read with its number less one).
pub proof fn lemma_day_sub_add(a: Day, b: Day)
    requires
        a.sub_req(b),
    ensures
        a.sub_spec(b).add_req(b),
        a.sub_spec(b).add_spec(b) == a,
{
}

} // verus!
