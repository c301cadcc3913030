//! An instance: the horizon, the interventions, the resources and their
//! bounds, the exclusions, the scenarios of each day and the quantile and
//! weight of the objective.
//!
//! The workloads are of any type `W` and the risk values, the bounds, the
//! quantile and the weight of any type `F`.
use crate::common::UnsafeFixArray;
use crate::exclusion::InterventionExclusions;
use crate::intervention::Intervention;
use crate::types::{Period, IID, SID};
use vstd::prelude::*;

verus! {

/// The lower and upper bounds of the workload of a resource, day by day.
#[derive(Debug)]
pub struct Resource<F> {
    pub min: UnsafeFixArray<F>,
    pub max: UnsafeFixArray<F>,
}

/// The largest of the numbers.
pub open spec fn max_of(s: Seq<usize>) -> int
    decreases s.len(),
{
    if s.len() == 0 {
        0
    } else if s.len() == 1 {
        s[0] as int
    } else {
        let m = max_of(s.drop_last());
        if s.last() > m {
            s.last() as int
        } else {
            m
        }
    }
}

proof fn lemma_max_of(s: Seq<usize>)
    requires
        s.len() > 0,
    ensures
        forall|i: int| 0 <= i < s.len() ==> #[trigger] s[i] <= max_of(s),
        exists|i: int| 0 <= i < s.len() && #[trigger] s[i] == max_of(s),
    decreases s.len(),
{
    if s.len() > 1 {
        lemma_max_of(s.drop_last());
        let i = choose|i: int| 0 <= i < s.len() - 1 && #[trigger] s.drop_last()[i] == max_of(s.drop_last());
        assert(s[i] == s.drop_last()[i]);
        if s.last() > max_of(s.drop_last()) {
            assert(s[s.len() - 1] == max_of(s));
        }
        assert forall|j: int| 0 <= j < s.len() implies #[trigger] s[j] <= max_of(s) by {
            if j < s.len() - 1 {
                assert(s[j] == s.drop_last()[j]);
            }
        }
    } else {
        assert(s[0] == max_of(s));
    }
}

/// The parts of an instance, set one by one.
#[derive(Debug)]
pub struct MaintenanceBuilder<W, F> {
    ndays: Option<usize>,
    quantile: Option<F>,
    alpha: Option<F>,
    interventions: Option<Vec<Intervention<W, F>>>,
    resources: Option<Vec<Resource<F>>>,
    exclusions: Option<Vec<InterventionExclusions>>,
    scenarios_number: Option<Vec<usize>>,
}

/// An instance.
#[derive(Debug)]
pub struct Maintenance<W, F> {
    ndays: usize,
    quantile: F,
    alpha: F,
    interventions: Vec<Intervention<W, F>>,
    resources: Vec<Resource<F>>,
    exclusions: Vec<InterventionExclusions>,
    /// The number of scenarios of each day.
    scenarios_number: Vec<usize>,
    /// The position of the quantile among the scenarios of each day.
    quantiles: Vec<usize>,
    /// The largest number of scenarios of a day.
    nscenarios: usize,
}

impl<W, F> MaintenanceBuilder<W, F> {
    pub closed spec fn spec_ndays(&self) -> Option<usize> {
        self.ndays
    }

    pub closed spec fn spec_quantile(&self) -> Option<F> {
        self.quantile
    }

    pub closed spec fn spec_alpha(&self) -> Option<F> {
        self.alpha
    }

    pub closed spec fn spec_interventions(&self) -> Option<Seq<Intervention<W, F>>> {
        match self.interventions {
            Some(v) => Some(v@),
            None => None,
        }
    }

    pub closed spec fn spec_resources(&self) -> Option<Seq<Resource<F>>> {
        match self.resources {
            Some(v) => Some(v@),
            None => None,
        }
    }

    pub closed spec fn spec_exclusions(&self) -> Option<Seq<InterventionExclusions>> {
        match self.exclusions {
            Some(v) => Some(v@),
            None => None,
        }
    }

    pub closed spec fn spec_scenarios_number(&self) -> Option<Seq<usize>> {
        match self.scenarios_number {
            Some(v) => Some(v@),
            None => None,
        }
    }

    /// Every part is set.
    pub open spec fn is_complete(&self) -> bool {
        &&& self.spec_ndays() is Some
        &&& self.spec_quantile() is Some
        &&& self.spec_alpha() is Some
        &&& self.spec_interventions() is Some
        &&& self.spec_resources() is Some
        &&& self.spec_exclusions() is Some
        &&& self.spec_scenarios_number() is Some
    }

    /// No part is set.
    pub open spec fn is_empty(&self) -> bool {
        &&& self.spec_ndays() is None
        &&& self.spec_quantile() is None
        &&& self.spec_alpha() is None
        &&& self.spec_interventions() is None
        &&& self.spec_resources() is None
        &&& self.spec_exclusions() is None
        &&& self.spec_scenarios_number() is None
    }

    fn new() -> (r: Self)
        ensures
            r.is_empty(),
    {
        MaintenanceBuilder {
            ndays: None,
            quantile: None,
            alpha: None,
            interventions: None,
            resources: None,
            exclusions: None,
            scenarios_number: None,
        }
    }

    pub fn set_ndays(self, ndays: usize) -> (r: Self)
        ensures
            r.spec_ndays() == Some(ndays),
            r.spec_quantile() == self.spec_quantile(),
            r.spec_alpha() == self.spec_alpha(),
            r.spec_interventions() == self.spec_interventions(),
            r.spec_resources() == self.spec_resources(),
            r.spec_exclusions() == self.spec_exclusions(),
            r.spec_scenarios_number() == self.spec_scenarios_number(),
    {
        MaintenanceBuilder { ndays: Some(ndays), ..self }
    }

    pub fn set_quantile(self, quantile: F) -> (r: Self)
        ensures
            r.spec_ndays() == self.spec_ndays(),
            r.spec_quantile() == Some(quantile),
            r.spec_alpha() == self.spec_alpha(),
            r.spec_interventions() == self.spec_interventions(),
            r.spec_resources() == self.spec_resources(),
            r.spec_exclusions() == self.spec_exclusions(),
            r.spec_scenarios_number() == self.spec_scenarios_number(),
    {
        MaintenanceBuilder { quantile: Some(quantile), ..self }
    }

    pub fn set_alpha(self, alpha: F) -> (r: Self)
        ensures
            r.spec_ndays() == self.spec_ndays(),
            r.spec_quantile() == self.spec_quantile(),
            r.spec_alpha() == Some(alpha),
            r.spec_interventions() == self.spec_interventions(),
            r.spec_resources() == self.spec_resources(),
            r.spec_exclusions() == self.spec_exclusions(),
            r.spec_scenarios_number() == self.spec_scenarios_number(),
    {
        MaintenanceBuilder { alpha: Some(alpha), ..self }
    }

    pub fn set_interventions(self, interventions: Vec<Intervention<W, F>>) -> (r: Self)
        ensures
            r.spec_ndays() == self.spec_ndays(),
            r.spec_quantile() == self.spec_quantile(),
            r.spec_alpha() == self.spec_alpha(),
            r.spec_interventions() == Some(interventions@),
            r.spec_resources() == self.spec_resources(),
            r.spec_exclusions() == self.spec_exclusions(),
            r.spec_scenarios_number() == self.spec_scenarios_number(),
    {
        MaintenanceBuilder { interventions: Some(interventions), ..self }
    }

    pub fn set_resources(self, resources: Vec<Resource<F>>) -> (r: Self)
        ensures
            r.spec_ndays() == self.spec_ndays(),
            r.spec_quantile() == self.spec_quantile(),
            r.spec_alpha() == self.spec_alpha(),
            r.spec_interventions() == self.spec_interventions(),
            r.spec_resources() == Some(resources@),
            r.spec_exclusions() == self.spec_exclusions(),
            r.spec_scenarios_number() == self.spec_scenarios_number(),
    {
        MaintenanceBuilder { resources: Some(resources), ..self }
    }

    pub fn set_exclusions(self, exclusions: Vec<InterventionExclusions>) -> (r: Self)
        ensures
            r.spec_ndays() == self.spec_ndays(),
            r.spec_quantile() == self.spec_quantile(),
            r.spec_alpha() == self.spec_alpha(),
            r.spec_interventions() == self.spec_interventions(),
            r.spec_resources() == self.spec_resources(),
            r.spec_exclusions() == Some(exclusions@),
            r.spec_scenarios_number() == self.spec_scenarios_number(),
    {
        MaintenanceBuilder { exclusions: Some(exclusions), ..self }
    }

    pub fn set_scenarios_number(self, scenarios_number: Vec<usize>) -> (r: Self)
        ensures
            r.spec_ndays() == self.spec_ndays(),
            r.spec_quantile() == self.spec_quantile(),
            r.spec_alpha() == self.spec_alpha(),
            r.spec_interventions() == self.spec_interventions(),
            r.spec_resources() == self.spec_resources(),
            r.spec_exclusions() == self.spec_exclusions(),
            r.spec_scenarios_number() == Some(scenarios_number@),
    {
        MaintenanceBuilder { scenarios_number: Some(scenarios_number), ..self }
    }
}

impl<W, F: Copy> MaintenanceBuilder<W, F> {
    /// The instance, once every part is set. The position of the quantile
    /// among the scenarios of each day is computed by `quantile_index`
    /// from the number of scenarios of the day and the quantile.
    pub fn build<Q: Fn(usize, F) -> usize>(self, quantile_index: Q) -> (r: Maintenance<W, F>)
        requires
            self.is_complete(),
            self.spec_scenarios_number()->0.len() > 0,
            forall|nb: usize| call_requires(quantile_index, (nb, self.spec_quantile()->0)),
        ensures
            r.spec_ndays() == self.spec_ndays()->0,
            r.spec_quantile() == self.spec_quantile()->0,
            r.spec_alpha() == self.spec_alpha()->0,
            r.spec_interventions() == self.spec_interventions()->0,
            r.spec_resources() == self.spec_resources()->0,
            r.spec_exclusions() == self.spec_exclusions()->0,
            r.spec_scenarios_number() == self.spec_scenarios_number()->0,
            r.spec_nscenarios() == max_of(self.spec_scenarios_number()->0),
            r.spec_quantiles().len() == r.spec_scenarios_number().len(),
            forall|i: int|
                0 <= i < r.spec_quantiles().len() ==> call_ensures(
                    quantile_index,
                    (r.spec_scenarios_number()[i], r.spec_quantile()),
                    #[trigger] r.spec_quantiles()[i],
                ),
    {
        let quantile = self.quantile.unwrap();
        let scenarios_number = self.scenarios_number.unwrap();
        let mut nscenarios: usize = scenarios_number[0];
        let mut quantiles: Vec<usize> = Vec::new();
        let mut i: usize = 0;
        proof {
            assert(scenarios_number@.take(1) == seq![scenarios_number@[0]]);
        }
        while i < scenarios_number.len()
            invariant
                scenarios_number@.len() > 0,
                0 <= i <= scenarios_number@.len(),
                forall|nb: usize| call_requires(quantile_index, (nb, quantile)),
                i > 0 ==> nscenarios == max_of(scenarios_number@.take(i as int)),
                i == 0 ==> nscenarios == scenarios_number@[0],
                quantiles@.len() == i,
                forall|j: int|
                    0 <= j < i ==> call_ensures(
                        quantile_index,
                        (scenarios_number@[j], quantile),
                        #[trigger] quantiles@[j],
                    ),
            decreases scenarios_number@.len() - i,
        {
            let nb = scenarios_number[i];
            proof {
                if i > 0 {
                    assert(scenarios_number@.take(i + 1).drop_last() == scenarios_number@.take(
                        i as int,
                    ));
                }
            }
            if i > 0 && nb > nscenarios {
                nscenarios = nb;
            }
            quantiles.push(quantile_index(nb, quantile));
            i = i + 1;
        }
        proof {
            assert(scenarios_number@.take(i as int) == scenarios_number@);
        }
        Maintenance {
            ndays: self.ndays.unwrap(),
            quantile,
            alpha: self.alpha.unwrap(),
            interventions: self.interventions.unwrap(),
            resources: self.resources.unwrap(),
            exclusions: self.exclusions.unwrap(),
            scenarios_number,
            quantiles,
            nscenarios,
        }
    }
}

impl<W, F> Maintenance<W, F> {
    pub closed spec fn spec_ndays(&self) -> usize {
        self.ndays
    }

    pub closed spec fn spec_quantile(&self) -> F {
        self.quantile
    }

    pub closed spec fn spec_alpha(&self) -> F {
        self.alpha
    }

    pub closed spec fn spec_interventions(&self) -> Seq<Intervention<W, F>> {
        self.interventions@
    }

    pub closed spec fn spec_resources(&self) -> Seq<Resource<F>> {
        self.resources@
    }

    pub closed spec fn spec_exclusions(&self) -> Seq<InterventionExclusions> {
        self.exclusions@
    }

    pub closed spec fn spec_scenarios_number(&self) -> Seq<usize> {
        self.scenarios_number@
    }

    pub closed spec fn spec_quantiles(&self) -> Seq<usize> {
        self.quantiles@
    }

    pub closed spec fn spec_nscenarios(&self) -> usize {
        self.nscenarios
    }

    pub fn builder() -> (r: MaintenanceBuilder<W, F>)
        ensures
            r.is_empty(),
    {
        MaintenanceBuilder::new()
    }

    /// The number of scenarios of each day.
    pub fn scenarios_number(&self) -> (r: &[usize])
        ensures
            r@ == self.spec_scenarios_number(),
    {
        self.scenarios_number.as_slice()
    }

    /// The positions of the quantile of the days of `period`.
    pub fn quantiles_by_period(&self, period: &Period) -> (r: &[usize])
        requires
            period.stop() <= self.spec_quantiles().len(),
        ensures
            r@ == self.spec_quantiles().subrange(period.first(), period.stop()),
    {
        let start = period.start().get();
        let n = period.duration().get();
        let len = self.quantiles.len();
        assert(start + n <= len);
        &self.quantiles.as_slice()[start..start + n]
    }

    /// The numbers of scenarios of the days of `period`.
    pub fn scenarios_number_by_period(&self, period: &Period) -> (r: &[usize])
        requires
            period.stop() <= self.spec_scenarios_number().len(),
        ensures
            r@ == self.spec_scenarios_number().subrange(period.first(), period.stop()),
    {
        let start = period.start().get();
        let n = period.duration().get();
        let len = self.scenarios_number.len();
        assert(start + n <= len);
        &self.scenarios_number.as_slice()[start..start + n]
    }

    /// The position of the quantile among the scenarios of each day.
    pub fn quantiles(&self) -> (r: &[usize])
        ensures
            r@ == self.spec_quantiles(),
    {
        self.quantiles.as_slice()
    }

    /// The exclusions of the intervention `iid`.
    pub fn exclusions(&self, iid: IID) -> (r: &InterventionExclusions)
        requires
            iid@ < self.spec_exclusions().len(),
        ensures
            *r == self.spec_exclusions()[iid@ as int],
    {
        &self.exclusions[iid.get()]
    }

    pub fn nresources(&self) -> (r: usize)
        ensures
            r == self.spec_resources().len(),
    {
        self.resources.len()
    }

    pub fn resources(&self) -> (r: &[Resource<F>])
        ensures
            r@ == self.spec_resources(),
    {
        self.resources.as_slice()
    }

    pub fn ndays(&self) -> (r: usize)
        ensures
            r == self.spec_ndays(),
    {
        self.ndays
    }

    pub fn ninterventions(&self) -> (r: usize)
        ensures
            r == self.spec_interventions().len(),
    {
        self.interventions.len()
    }

    /// Each intervention with its identifier.
    pub fn interventions_with_ids(&self) -> (r: Vec<(IID, &Intervention<W, F>)>)
        ensures
            r@.len() == self.spec_interventions().len(),
            forall|i: int|
                0 <= i < r@.len() ==> (#[trigger] r@[i]).0@ == i && *r@[i].1
                    == self.spec_interventions()[i],
    {
        let mut r: Vec<(IID, &Intervention<W, F>)> = Vec::new();
        let mut i: usize = 0;
        while i < self.interventions.len()
            invariant
                0 <= i <= self.interventions@.len(),
                r@.len() == i,
                forall|j: int|
                    0 <= j < i ==> (#[trigger] r@[j]).0@ == j && *r@[j].1 == self.interventions@[j],
            decreases self.interventions@.len() - i,
        {
            r.push((IID::new(i), &self.interventions[i]));
            i = i + 1;
        }
        r
    }

    pub fn interventions(&self) -> (r: &[Intervention<W, F>])
        ensures
            r@ == self.spec_interventions(),
    {
        self.interventions.as_slice()
    }

    pub fn intervention(&self, iid: IID) -> (r: &Intervention<W, F>)
        requires
            iid@ < self.spec_interventions().len(),
        ensures
            *r == self.spec_interventions()[iid@ as int],
    {
        &self.interventions[iid.get()]
    }

    /// The largest number of scenarios of a day.
    pub fn nscenarios(&self) -> (r: usize)
        ensures
            r == self.spec_nscenarios(),
    {
        self.nscenarios
    }

    /// The identifiers of the interventions, in increasing order.
    pub fn interventions_ids(&self) -> (r: Vec<IID>)
        ensures
            r@.len() == self.spec_interventions().len(),
            forall|i: int| 0 <= i < r@.len() ==> (#[trigger] r@[i])@ == i,
    {
        let mut r: Vec<IID> = Vec::new();
        let mut i: usize = 0;
        while i < self.interventions.len()
            invariant
                0 <= i <= self.interventions@.len(),
                r@.len() == i,
                forall|j: int| 0 <= j < i ==> (#[trigger] r@[j])@ == j,
            decreases self.interventions@.len() - i,
        {
            r.push(IID::new(i));
            i = i + 1;
        }
        r
    }

    /// An identifier for each day of the horizon that has a number of
    /// scenarios, in increasing order.
    pub fn scenarios_ids(&self) -> (r: Vec<SID>)
        ensures
            r@.len() == self.spec_scenarios_number().len(),
            forall|i: int| 0 <= i < r@.len() ==> (#[trigger] r@[i])@ == i,
    {
        let mut r: Vec<SID> = Vec::new();
        let mut i: usize = 0;
        while i < self.scenarios_number.len()
            invariant
                0 <= i <= self.scenarios_number@.len(),
                r@.len() == i,
                forall|j: int| 0 <= j < i ==> (#[trigger] r@[j])@ == j,
            decreases self.scenarios_number@.len() - i,
        {
            r.push(SID::new(i));
            i = i + 1;
        }
        r
    }
}

impl<W, F: Copy> Maintenance<W, F> {
    pub fn quantile(&self) -> (r: F)
        ensures
            r == self.spec_quantile(),
    {
        self.quantile
    }

    pub fn alpha(&self) -> (r: F)
        ensures
            r == self.spec_alpha(),
    {
        self.alpha
    }
}

/// The largest number of scenarios is the number of scenarios of some day,
/// and no day has more.
pub proof fn lemma_nscenarios_is_largest(scenarios_number: Seq<usize>)
    requires
        scenarios_number.len() > 0,
    ensures
        forall|i: int|
            0 <= i < scenarios_number.len() ==> #[trigger] scenarios_number[i] <= max_of(
                scenarios_number,
            ),
        exists|i: int|
            0 <= i < scenarios_number.len() && #[trigger] scenarios_number[i] == max_of(
                scenarios_number,
            ),
{
    lemma_max_of(scenarios_number);
}

} // verus!
