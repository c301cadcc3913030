//! An intervention: the days it may start on, the period and the seasons of
//! each start, its risks and its workloads.
//!
//! The workloads are of any type `W` (one per resource and per period,
//! period after period) and the risk values of any type `F`.
use crate::risks::Risks;
use crate::seasons::Seasons;
use crate::types::{Day, Period, RID};
use vstd::prelude::*;

verus! {

#[derive(Debug)]
pub struct Intervention<W, F> {
    /// Latest starting day of the intervention.
    latest_start: Day,
    /// The period of each starting day.
    periods: Vec<Period>,
    /// The seasons covered by each period.
    seasons: Vec<Seasons>,
    /// The risks of each period.
    risks: Risks<F>,
    /// The workloads of each period, resource after resource:
    /// period 0 resource 0, period 0 resource 1, ..., period 1 resource 0, ...
    workloads: Vec<W>,
    /// The resources that the intervention uses.
    resources: Vec<RID>,
}

impl<W, F> Intervention<W, F> {
    pub closed spec fn spec_latest_start(&self) -> Day {
        self.latest_start
    }

    pub closed spec fn periods_seq(&self) -> Seq<Period> {
        self.periods@
    }

    pub closed spec fn seasons_seq(&self) -> Seq<Seasons> {
        self.seasons@
    }

    pub closed spec fn spec_risks(&self) -> Risks<F> {
        self.risks
    }

    pub closed spec fn workloads_seq(&self) -> Seq<W> {
        self.workloads@
    }

    pub closed spec fn resources_seq(&self) -> Seq<RID> {
        self.resources@
    }

    pub fn latest_start(&self) -> (r: Day)
        ensures
            r == self.spec_latest_start(),
    {
        self.latest_start
    }

    /// The intervention may start on `day`.
    pub fn is_day_compatible(&self, day: Day) -> (r: bool)
        ensures
            r == (day@ <= self.spec_latest_start()@),
    {
        day.get() <= self.latest_start.get()
    }

    /// The days the intervention may start on, from the first day of the
    /// horizon to its latest start.
    pub fn days(&self) -> (r: Vec<Day>)
        requires
            self.spec_latest_start()@ < usize::MAX,
        ensures
            r@.len() == self.spec_latest_start()@ + 1,
            forall|i: int| 0 <= i < r@.len() ==> (#[trigger] r@[i])@ == i,
    {
        let mut r: Vec<Day> = Vec::new();
        let mut d: usize = 0;
        while d <= self.latest_start.get()
            invariant
                self.latest_start@ < usize::MAX,
                0 <= d <= self.latest_start@ + 1,
                r@.len() == d,
                forall|i: int| 0 <= i < d ==> (#[trigger] r@[i])@ == i,
            decreases self.latest_start@ + 1 - d,
        {
            r.push(Day::new(d));
            d = d + 1;
        }
        r
    }

    /// The period of each starting day.
    pub fn periods(&self) -> (r: &[Period])
        ensures
            r@ == self.periods_seq(),
    {
        self.periods.as_slice()
    }

    /// The period of the intervention when it starts on `day`.
    pub fn period(&self, day: Day) -> (r: &Period)
        requires
            day@ < self.periods_seq().len(),
        ensures
            *r == self.periods_seq()[day@ as int],
    {
        &self.periods[day.get()]
    }

    /// The sums of the risks of each day of the period starting on `day`,
    /// one per day when the offsets are whole days.
    pub fn summed_risks(&self, day: Day) -> (r: &[F])
        requires
            self.spec_risks().summed_values_readable(day),
        ensures
            r@ == self.spec_risks().summed_seq().subrange(
                (self.spec_risks().offsets()[day@ as int] / self.spec_risks().spec_nscenarios())
                    as int,
                (self.spec_risks().offsets()[day@ + 1] / self.spec_risks().spec_nscenarios()) as int,
            ),
    {
        self.risks.summed_values(day)
    }

    /// The risks of the period starting on `day`.
    pub fn period_risks(&self, day: Day) -> (r: &[F])
        requires
            self.spec_risks().values_readable(day),
        ensures
            r@ == self.spec_risks().values_seq().subrange(
                self.spec_risks().offsets()[day@ as int] as int,
                self.spec_risks().offsets()[day@ + 1] as int,
            ),
    {
        self.risks.values(day)
    }

    /// The risks, to test whether those of a period can be read.
    pub fn risks(&self) -> (r: &Risks<F>)
        ensures
            *r == self.spec_risks(),
    {
        &self.risks
    }

    /// The seasons covered by the period starting on `day`.
    pub fn seasons(&self, day: Day) -> (r: &Seasons)
        requires
            day@ < self.seasons_seq().len(),
        ensures
            *r == self.seasons_seq()[day@ as int],
    {
        &self.seasons[day.get()]
    }

    /// The number of resources that the intervention uses.
    pub fn nresources(&self) -> (r: usize)
        ensures
            r == self.resources_seq().len(),
    {
        self.resources.len()
    }

    /// The workloads of the period starting on `day`, one per resource.
    pub fn workloads(&self, day: Day) -> (r: &[W])
        requires
            (day@ + 1) * self.resources_seq().len() <= self.workloads_seq().len(),
        ensures
            r@ == self.workloads_seq().subrange(
                day@ * self.resources_seq().len(),
                (day@ + 1) * self.resources_seq().len(),
            ),
    {
        let n = self.nresources();
        let len = self.workloads.len();
        let d = day.get();
        proof {
            assert(d * n <= (d + 1) * n) by (nonlinear_arith);
            assert((d + 1) * n == d * n + n) by (nonlinear_arith);
        }
        let start = d * n;
        &self.workloads.as_slice()[start..start + n]
    }

    pub fn builder() -> (r: InterventionBuilder<W, F>)
        ensures
            r.is_empty(),
    {
        InterventionBuilder::new()
    }
}

/// The parts of an intervention, set one by one.
pub struct InterventionBuilder<W, F> {
    latest_start: Option<Day>,
    periods: Option<Vec<Period>>,
    seasons: Option<Vec<Seasons>>,
    risks: Option<Risks<F>>,
    workloads: Option<Vec<W>>,
    resources: Option<Vec<RID>>,
}

impl<W, F> InterventionBuilder<W, F> {
    /// No part is set.
    pub closed spec fn is_empty(&self) -> bool {
        &&& self.latest_start is None
        &&& self.periods is None
        &&& self.seasons is None
        &&& self.risks is None
        &&& self.workloads is None
        &&& self.resources is None
    }

    /// Every part is set.
    pub closed spec fn is_complete(&self) -> bool {
        &&& self.latest_start is Some
        &&& self.periods is Some
        &&& self.seasons is Some
        &&& self.risks is Some
        &&& self.workloads is Some
        &&& self.resources is Some
    }

    /// The intervention that the parts make, once they are all set.
    pub closed spec fn parts(&self) -> Intervention<W, F> {
        Intervention {
            latest_start: self.latest_start->0,
            periods: self.periods->0,
            seasons: self.seasons->0,
            risks: self.risks->0,
            workloads: self.workloads->0,
            resources: self.resources->0,
        }
    }

    /// The parts that are set, each of them `true` when set.
    pub closed spec fn set_parts(&self) -> (bool, bool, bool, bool, bool, bool) {
        (
            self.latest_start is Some,
            self.periods is Some,
            self.seasons is Some,
            self.risks is Some,
            self.workloads is Some,
            self.resources is Some,
        )
    }

    fn new() -> (r: Self)
        ensures
            r.is_empty(),
    {
        InterventionBuilder {
            latest_start: None,
            periods: None,
            seasons: None,
            risks: None,
            workloads: None,
            resources: None,
        }
    }

    /// The intervention, when every part is set.
    pub fn build(self) -> (r: Intervention<W, F>)
        requires
            self.is_complete(),
        ensures
            r == self.parts(),
    {
        Intervention {
            latest_start: self.latest_start.unwrap(),
            periods: self.periods.unwrap(),
            seasons: self.seasons.unwrap(),
            risks: self.risks.unwrap(),
            workloads: self.workloads.unwrap(),
            resources: self.resources.unwrap(),
        }
    }

    pub fn set_latest_start(self, day: Day) -> (r: Self)
        ensures
            r.parts().spec_latest_start() == day,
            r.parts().periods_seq() == self.parts().periods_seq(),
            r.parts().seasons_seq() == self.parts().seasons_seq(),
            r.parts().spec_risks() == self.parts().spec_risks(),
            r.parts().workloads_seq() == self.parts().workloads_seq(),
            r.parts().resources_seq() == self.parts().resources_seq(),
            r.set_parts() == (true, self.set_parts().1, self.set_parts().2, self.set_parts().3, self.set_parts().4, self.set_parts().5),
    {
        InterventionBuilder {
            latest_start: Some(day),
            periods: self.periods,
            seasons: self.seasons,
            risks: self.risks,
            workloads: self.workloads,
            resources: self.resources,
        }
    }

    pub fn set_periods(self, periods: Vec<Period>) -> (r: Self)
        ensures
            r.parts().spec_latest_start() == self.parts().spec_latest_start(),
            r.parts().periods_seq() == periods@,
            r.parts().seasons_seq() == self.parts().seasons_seq(),
            r.parts().spec_risks() == self.parts().spec_risks(),
            r.parts().workloads_seq() == self.parts().workloads_seq(),
            r.parts().resources_seq() == self.parts().resources_seq(),
            r.set_parts() == (self.set_parts().0, true, self.set_parts().2, self.set_parts().3, self.set_parts().4, self.set_parts().5),
    {
        InterventionBuilder {
            latest_start: self.latest_start,
            periods: Some(periods),
            seasons: self.seasons,
            risks: self.risks,
            workloads: self.workloads,
            resources: self.resources,
        }
    }

    pub fn set_seasons(self, seasons: Vec<Seasons>) -> (r: Self)
        ensures
            r.parts().spec_latest_start() == self.parts().spec_latest_start(),
            r.parts().periods_seq() == self.parts().periods_seq(),
            r.parts().seasons_seq() == seasons@,
            r.parts().spec_risks() == self.parts().spec_risks(),
            r.parts().workloads_seq() == self.parts().workloads_seq(),
            r.parts().resources_seq() == self.parts().resources_seq(),
            r.set_parts() == (self.set_parts().0, self.set_parts().1, true, self.set_parts().3, self.set_parts().4, self.set_parts().5),
    {
        InterventionBuilder {
            latest_start: self.latest_start,
            periods: self.periods,
            seasons: Some(seasons),
            risks: self.risks,
            workloads: self.workloads,
            resources: self.resources,
        }
    }

    pub fn set_risks(self, risks: Risks<F>) -> (r: Self)
        ensures
            r.parts().spec_latest_start() == self.parts().spec_latest_start(),
            r.parts().periods_seq() == self.parts().periods_seq(),
            r.parts().seasons_seq() == self.parts().seasons_seq(),
            r.parts().spec_risks() == risks,
            r.parts().workloads_seq() == self.parts().workloads_seq(),
            r.parts().resources_seq() == self.parts().resources_seq(),
            r.set_parts() == (self.set_parts().0, self.set_parts().1, self.set_parts().2, true, self.set_parts().4, self.set_parts().5),
    {
        InterventionBuilder {
            latest_start: self.latest_start,
            periods: self.periods,
            seasons: self.seasons,
            risks: Some(risks),
            workloads: self.workloads,
            resources: self.resources,
        }
    }

    pub fn set_resources(self, resources: Vec<RID>) -> (r: Self)
        ensures
            r.parts().spec_latest_start() == self.parts().spec_latest_start(),
            r.parts().periods_seq() == self.parts().periods_seq(),
            r.parts().seasons_seq() == self.parts().seasons_seq(),
            r.parts().spec_risks() == self.parts().spec_risks(),
            r.parts().workloads_seq() == self.parts().workloads_seq(),
            r.parts().resources_seq() == resources@,
            r.set_parts() == (self.set_parts().0, self.set_parts().1, self.set_parts().2, self.set_parts().3, self.set_parts().4, true),
    {
        InterventionBuilder {
            latest_start: self.latest_start,
            periods: self.periods,
            seasons: self.seasons,
            risks: self.risks,
            workloads: self.workloads,
            resources: Some(resources),
        }
    }

    pub fn set_workloads(self, workloads: Vec<W>) -> (r: Self)
        ensures
            r.parts().spec_latest_start() == self.parts().spec_latest_start(),
            r.parts().periods_seq() == self.parts().periods_seq(),
            r.parts().seasons_seq() == self.parts().seasons_seq(),
            r.parts().spec_risks() == self.parts().spec_risks(),
            r.parts().workloads_seq() == workloads@,
            r.parts().resources_seq() == self.parts().resources_seq(),
            r.set_parts() == (self.set_parts().0, self.set_parts().1, self.set_parts().2, self.set_parts().3, true, self.set_parts().5),
    {
        InterventionBuilder {
            latest_start: self.latest_start,
            periods: self.periods,
            seasons: self.seasons,
            risks: self.risks,
            workloads: Some(workloads),
            resources: self.resources,
        }
    }
}

/// A builder is complete when each of its parts is set.
pub proof fn lemma_complete_when_all_set<W, F>(b: InterventionBuilder<W, F>)
    ensures
        b.is_complete() <==> b.set_parts() == (true, true, true, true, true, true),
        b.is_empty() <==> b.set_parts() == (false, false, false, false, false, false),
{
}

} // verus!
