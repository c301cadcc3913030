//! The risk values of an intervention, for each period it may run on, and
//! their sums over the scenarios.
//!
//! The values are of any type `F` that adds with `+`; the sums are made
//! with that `+`, from the first value of each group to the last.
use crate::types::Day;
use std::ops::Add;
use vstd::prelude::*;
use vstd::std_specs::ops::AddSpec;

verus! {

/// The values of a non-empty sequence, added from the first to the last.
pub open spec fn total<F: Add<Output = F>>(s: Seq<F>) -> F
    decreases s.len(),
{
    if s.len() <= 1 {
        s[0]
    } else {
        total(s.drop_last()).add_spec(s.last())
    }
}

/// The totals of the consecutive groups of `n` values of `s` (the last
/// group may be shorter).
pub open spec fn group_totals<F: Add<Output = F>>(s: Seq<F>, n: nat) -> Seq<F>
    decreases s.len(),
{
    if n == 0 || s.len() == 0 {
        Seq::empty()
    } else if s.len() <= n {
        seq![total(s)]
    } else {
        seq![total(s.take(n as int))] + group_totals(s.skip(n as int), n)
    }
}

/// The number of groups of `n` values in `len` values, the last group
/// possibly shorter.
pub open spec fn group_count(len: nat, n: nat) -> nat
    decreases len,
{
    if n == 0 || len == 0 {
        0
    } else if len <= n {
        1
    } else {
        1 + group_count((len - n) as nat, n)
    }
}

/// Each value of `g` after the first can be added to the total of the
/// values before it.
pub open spec fn prefix_sums_defined<F: Add<Output = F>>(g: Seq<F>) -> bool {
    forall|j: int| 0 < j < g.len() ==> #[trigger] total(g.take(j)).add_req(g[j])
}

/// In each consecutive group of `n` values of `s` (the last group may be
/// shorter), each value after the first can be added to the total of the
/// values of the group before it.
pub open spec fn group_sums_defined<F: Add<Output = F>>(s: Seq<F>, n: nat) -> bool
    decreases s.len(),
{
    if n == 0 || s.len() == 0 {
        true
    } else if s.len() <= n {
        prefix_sums_defined(s)
    } else {
        prefix_sums_defined(s.take(n as int)) && group_sums_defined(s.skip(n as int), n)
    }
}

proof fn lemma_group_totals_len<F: Add<Output = F>>(s: Seq<F>, n: nat)
    ensures
        group_totals(s, n).len() == group_count(s.len(), n),
    decreases s.len(),
{
    if n > 0 && s.len() > n {
        lemma_group_totals_len(s.skip(n as int), n);
    }
}

/// The total of one value is that value, and adding a value at the end
/// of a non-empty sequence adds it to the total: `total` is the sum of all
/// the values, from the first to the last.
pub proof fn lemma_total_push<F: Add<Output = F>>(s: Seq<F>, x: F)
    ensures
        total(seq![x]) == x,
        s.len() > 0 ==> total(s.push(x)) == total(s).add_spec(x),
{
    assert(s.push(x).drop_last() == s);
    assert(s.push(x).last() == x);
}

/// A group counted among the groups of `n` values starts within the values.
pub proof fn lemma_group_count_bound(len: nat, n: nat, g: int)
    requires
        n > 0,
        0 <= g < group_count(len, n),
    ensures
        g * n < len,
    decreases len,
{
    assert(0 * n == 0) by (nonlinear_arith);
    if len <= n {
        assert(group_count(len, n) == 1);
        assert(g == 0);
    } else if g > 0 {
        assert(group_count(len, n) == 1 + group_count((len - n) as nat, n));
        lemma_group_count_bound((len - n) as nat, n, g - 1);
        assert(g * n == (g - 1) * n + n) by (nonlinear_arith);
    }
}

/// The end of the group `g` of `n` values in `len` values.
pub open spec fn group_end(g: int, n: int, len: int) -> int {
    if (g + 1) * n <= len {
        (g + 1) * n
    } else {
        len
    }
}

/// The total number `g` is the total of the values `g * n` up to the next
/// group (or the end): the sum of the `n` scenarios of one day.
pub proof fn lemma_group_totals_index<F: Add<Output = F>>(s: Seq<F>, n: nat, g: int)
    requires
        n > 0,
        0 <= g,
        g * n < s.len(),
    ensures
        g < group_totals(s, n).len(),
        group_totals(s, n)[g] == total(s.subrange(g * n, group_end(g, n as int, s.len() as int))),
    decreases s.len(),
{
    let tail = group_totals(s, n);
    assert(0 * n == 0) by (nonlinear_arith);
    if g > 0 {
        assert(g * n >= n) by (nonlinear_arith)
            requires
                g >= 1,
                n > 0,
        ;
    }
    if s.len() <= n {
        assert(g == 0);
        assert(tail == seq![total(s)]);
        assert(group_end(0, n as int, s.len() as int) == s.len());
        assert(s.subrange(0, s.len() as int) == s);
    } else {
        let rest = s.skip(n as int);
        assert(tail == seq![total(s.take(n as int))] + group_totals(rest, n));
        if g == 0 {
            assert(group_end(0, n as int, s.len() as int) == n);
            assert(s.take(n as int) == s.subrange(0, n as int));
        } else {
            assert((g - 1) * n == g * n - n) by (nonlinear_arith);
            assert(g * n + n == (g + 1) * n) by (nonlinear_arith);
            lemma_group_totals_index(rest, n, g - 1);
            assert(tail[g] == group_totals(rest, n)[g - 1]);
            assert(rest.subrange((g - 1) * n, group_end(g - 1, n as int, rest.len() as int))
                == s.subrange(g * n, group_end(g, n as int, s.len() as int)));
        }
    }
}

/// The risk values of an intervention. For the period starting on day `d`,
/// its values are those from `periods_slice[d]` on, `nscenarios` per day of
/// the period; `summed_risks` holds the sum of each group of `nscenarios`
/// values.
#[derive(Debug)]
pub struct Risks<F> {
    nscenarios: usize,
    periods_slice: Vec<usize>,
    risks: Vec<F>,
    summed_risks: Vec<F>,
}

impl<F> Risks<F> {
    pub closed spec fn spec_nscenarios(&self) -> usize {
        self.nscenarios
    }

    pub closed spec fn offsets(&self) -> Seq<usize> {
        self.periods_slice@
    }

    pub closed spec fn values_seq(&self) -> Seq<F> {
        self.risks@
    }

    pub closed spec fn summed_seq(&self) -> Seq<F> {
        self.summed_risks@
    }

    pub fn builder() -> RiskBuilder {
        RiskBuilder
    }

    /// The values of the period starting on `day` can be read: both its
    /// offset and the next one are stored, in order, and the next one is
    /// within the values.
    pub open spec fn values_readable(&self, day: Day) -> bool {
        &&& day@ + 1 < self.offsets().len()
        &&& self.offsets()[day@ as int] <= self.offsets()[day@ + 1]
        &&& self.offsets()[day@ + 1] <= self.values_seq().len()
    }

    /// The sums of the period starting on `day` can be read: there are
    /// scenarios, both its offset and the next one are stored, in order,
    /// and the group of the next offset is within the sums.
    pub open spec fn summed_values_readable(&self, day: Day) -> bool {
        &&& self.spec_nscenarios() > 0
        &&& day@ + 1 < self.offsets().len()
        &&& self.offsets()[day@ as int] / self.spec_nscenarios() <= self.offsets()[day@ + 1]
            / self.spec_nscenarios()
        &&& self.offsets()[day@ + 1] / self.spec_nscenarios() <= self.summed_seq().len()
    }

    /// Whether `values(day)` can be called.
    pub fn has_values(&self, day: Day) -> (r: bool)
        ensures
            r == self.values_readable(day),
    {
        let idx = day.get();
        let n = self.periods_slice.len();
        n > 0 && idx < n - 1 && self.periods_slice[idx] <= self.periods_slice[idx
            + 1] && self.periods_slice[idx + 1] <= self.risks.len()
    }

    /// Whether `summed_values(day)` can be called.
    pub fn has_summed_values(&self, day: Day) -> (r: bool)
        ensures
            r == self.summed_values_readable(day),
    {
        let idx = day.get();
        let n = self.periods_slice.len();
        self.nscenarios > 0 && n > 0 && idx < n - 1 && self.periods_slice[idx]
            / self.nscenarios <= self.periods_slice[idx + 1] / self.nscenarios
            && self.periods_slice[idx + 1] / self.nscenarios <= self.summed_risks.len()
    }

    /// The values of the period starting on `day`, for the whole period:
    /// those from its offset up to the offset of the next period.
    pub fn values(&self, day: Day) -> (r: &[F])
        requires
            self.values_readable(day),
        ensures
            r@ == self.values_seq().subrange(
                self.offsets()[day@ as int] as int,
                self.offsets()[day@ + 1] as int,
            ),
    {
        let idx = day.get();
        let noffsets = self.periods_slice.len();
        let nvalues = self.risks.len();
        assert(idx + 1 < noffsets);
        let start = self.periods_slice[idx];
        let end = self.periods_slice[idx + 1];
        assert(end <= nvalues);
        &self.risks.as_slice()[start..end]
    }

    /// The sums of the risks of each day of the period starting on `day`:
    /// the sums of the groups from the offset of that period up to the
    /// offset of the next one, offsets counted in groups of `nscenarios`
    /// values.
    pub fn summed_values(&self, day: Day) -> (r: &[F])
        requires
            self.summed_values_readable(day),
        ensures
            r@ == self.summed_seq().subrange(
                (self.offsets()[day@ as int] / self.spec_nscenarios()) as int,
                (self.offsets()[day@ + 1] / self.spec_nscenarios()) as int,
            ),
    {
        let idx = day.get();
        let noffsets = self.periods_slice.len();
        let nsums = self.summed_risks.len();
        assert(idx + 1 < noffsets);
        let start = self.periods_slice[idx] / self.nscenarios;
        let end = self.periods_slice[idx + 1] / self.nscenarios;
        assert(end <= nsums);
        &self.summed_risks.as_slice()[start..end]
    }
}

/// First step of the building of `Risks`.
pub struct RiskBuilder;

/// The number of scenarios is set.
pub struct RiskBuilderStep2 {
    nscenarios: usize,
}

/// The offsets of the periods are set.
pub struct RiskBuilderStep3 {
    nscenarios: usize,
    periods_slice: Vec<usize>,
}

/// The risk values are set.
pub struct RiskBuilderStepFinal<F> {
    nscenarios: usize,
    periods_slice: Vec<usize>,
    risks: Vec<F>,
}

impl RiskBuilderStep2 {
    pub closed spec fn spec_nscenarios(&self) -> usize {
        self.nscenarios
    }
}

impl RiskBuilderStep3 {
    pub closed spec fn spec_nscenarios(&self) -> usize {
        self.nscenarios
    }

    pub closed spec fn offsets(&self) -> Seq<usize> {
        self.periods_slice@
    }
}

impl<F> RiskBuilderStepFinal<F> {
    pub closed spec fn spec_nscenarios(&self) -> usize {
        self.nscenarios
    }

    pub closed spec fn offsets(&self) -> Seq<usize> {
        self.periods_slice@
    }

    pub closed spec fn values_seq(&self) -> Seq<F> {
        self.risks@
    }
}

impl RiskBuilder {
    pub fn set_nscenarios(self, nscernarios: usize) -> (r: RiskBuilderStep2)
        ensures
            r.spec_nscenarios() == nscernarios,
    {
        RiskBuilderStep2 { nscenarios: nscernarios }
    }
}

impl RiskBuilderStep2 {
    pub fn set_periods(self, periods_slice: Vec<usize>) -> (r: RiskBuilderStep3)
        ensures
            r.spec_nscenarios() == self.spec_nscenarios(),
            r.offsets() == periods_slice@,
    {
        RiskBuilderStep3 { nscenarios: self.nscenarios, periods_slice }
    }
}

impl RiskBuilderStep3 {
    pub fn set_risks<F>(self, risks: Vec<F>) -> (r: RiskBuilderStepFinal<F>)
        ensures
            r.spec_nscenarios() == self.spec_nscenarios(),
            r.offsets() == self.offsets(),
            r.values_seq() == risks@,
    {
        RiskBuilderStepFinal { nscenarios: self.nscenarios, periods_slice: self.periods_slice, risks }
    }
}

impl<F: Copy + Add<Output = F>> RiskBuilderStepFinal<F> {
    /// The risks, with the sums of the groups of `nscenarios` values.
    pub fn build(self) -> (r: Risks<F>)
        requires
            self.spec_nscenarios() > 0,
            (forall|a: F, b: F| #[trigger] a.add_req(b)) || (F::obeys_add_spec()
                && group_sums_defined(self.values_seq(), self.spec_nscenarios() as nat)),
        ensures
            r.spec_nscenarios() == self.spec_nscenarios(),
            r.offsets() == self.offsets(),
            r.values_seq() == self.values_seq(),
            r.summed_seq().len() == group_count(self.values_seq().len(), self.spec_nscenarios() as nat),
            F::obeys_add_spec() ==> r.summed_seq() == group_totals(
                self.values_seq(),
                self.spec_nscenarios() as nat,
            ),
            F::obeys_add_spec() ==> forall|g: int|
                0 <= g < r.summed_seq().len() ==> #[trigger] r.summed_seq()[g] == total(
                    self.values_seq().subrange(
                        g * self.spec_nscenarios(),
                        group_end(
                            g,
                            self.spec_nscenarios() as int,
                            self.values_seq().len() as int,
                        ),
                    ),
                ),
    {
        let n = self.nscenarios;
        let risks = self.risks;
        let ghost all = risks@;
        let mut summed_risks: Vec<F> = Vec::new();
        let mut pos: usize = 0;
        proof {
            lemma_group_totals_len(all, n as nat);
            assert(all.skip(0) == all);
        }
        while pos < risks.len()
            invariant
                n > 0,
                risks@ == all,
                0 <= pos <= all.len(),
                (forall|a: F, b: F| #[trigger] a.add_req(b)) || (F::obeys_add_spec()
                    && group_sums_defined(all.skip(pos as int), n as nat)),
                summed_risks@.len() + group_count((all.len() - pos) as nat, n as nat)
                    == group_count(all.len(), n as nat),
                F::obeys_add_spec() ==> summed_risks@ + group_totals(all.skip(pos as int), n as nat)
                    == group_totals(all, n as nat),
            decreases all.len() - pos,
        {
            let end = if risks.len() - pos > n {
                pos + n
            } else {
                risks.len()
            };
            let ghost group = all.subrange(pos as int, end as int);
            let ghost rest = all.skip(pos as int);
            proof {
                if end == all.len() {
                    assert(rest == group);
                } else {
                    assert(rest.take(n as int) == group);
                    assert(rest.skip(n as int) == all.skip(end as int));
                }
            }
            let mut acc = risks[pos];
            let mut i = pos + 1;
            while i < end
                invariant
                    risks@ == all,
                    pos < i <= end <= all.len(),
                    group == all.subrange(pos as int, end as int),
                    (forall|a: F, b: F| #[trigger] a.add_req(b)) || (F::obeys_add_spec()
                        && prefix_sums_defined(group)),
                    F::obeys_add_spec() ==> acc == total(all.subrange(pos as int, i as int)),
                decreases end - i,
            {
                proof {
                    let j = i - pos;
                    assert(all.subrange(pos as int, i + 1).drop_last() == all.subrange(
                        pos as int,
                        i as int,
                    ));
                    assert(group.take(j) == all.subrange(pos as int, i as int));
                    assert(group[j] == all[i as int]);
                    if !(forall|a: F, b: F| #[trigger] a.add_req(b)) {
                        assert(total(group.take(j)).add_req(group[j]));
                    }
                }
                acc = acc + risks[i];
                i = i + 1;
            }
            summed_risks.push(acc);
            proof {
                if end == all.len() {
                    assert(rest.len() <= n);
                    assert(all.skip(end as int).len() == 0);
                }
                if F::obeys_add_spec() {
                    assert(summed_risks@ + group_totals(all.skip(end as int), n as nat)
                        == group_totals(all, n as nat));
                }
            }
            pos = end;
        }
        proof {
            assert(all.skip(pos as int).len() == 0);
            if F::obeys_add_spec() {
                assert forall|g: int| 0 <= g < summed_risks@.len() implies #[trigger] summed_risks@[g]
                    == total(all.subrange(g * n, group_end(g, n as int, all.len() as int))) by {
                    lemma_group_count_bound(all.len(), n as nat, g);
                    lemma_group_totals_index(all, n as nat, g);
                }
            }
        }
        Risks { nscenarios: n, periods_slice: self.periods_slice, risks, summed_risks }
    }
}

} // verus!
