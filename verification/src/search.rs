//! The state of a search for a planning: which intervention is planned on
//! which period, and the decisions that depend on it alone (whether an
//! intervention may be planned without breaking an exclusion, the
//! bookkeeping of a new planned intervention, the planning found).
use crate::exclusion::{
    entries_clean, excluded_by, ids_of, increasing, intersect, InterventionExclusions,
};
use crate::seasons::{no_bit_past_length, share_season, Seasons};
use crate::types::{Day, Period, IID};
use vstd::prelude::*;

verus! {

/// The starting day of each planned intervention.
pub struct Planning {
    pub interventions: Vec<(IID, Day)>,
}

/// The numbers of the interventions below `n` that are not planned, in
/// increasing order.
pub open spec fn unplanned_ids(planned: Seq<Option<Period>>, n: int) -> Seq<int>
    decreases n,
{
    if n <= 0 {
        Seq::empty()
    } else if planned[n - 1] is None {
        unplanned_ids(planned, n - 1).push(n - 1)
    } else {
        unplanned_ids(planned, n - 1)
    }
}

/// The numbers of the interventions below `n` that are planned on a period
/// that `intersect` tells apart from `period` (one that has no day in
/// common with it) and on seasons that share one with `seasons`, in
/// increasing order.
pub open spec fn conflicting_ids(
    planned: Seq<Option<Period>>,
    planned_seasons: Seq<Option<&Seasons>>,
    period: Period,
    seasons: Seasons,
    n: int,
) -> Seq<int>
    decreases n,
{
    if n <= 0 {
        Seq::empty()
    } else {
        let rest = conflicting_ids(planned, planned_seasons, period, seasons, n - 1);
        if (planned[n - 1] matches Some(p) && p.disjoint(period)) && (planned_seasons[n
            - 1] matches Some(s) && share_season(*s, seasons)) {
            rest.push(n - 1)
        } else {
            rest
        }
    }
}

proof fn lemma_conflicting_ids_increasing(
    planned: Seq<Option<Period>>,
    planned_seasons: Seq<Option<&Seasons>>,
    period: Period,
    seasons: Seasons,
    n: int,
)
    ensures
        increasing(conflicting_ids(planned, planned_seasons, period, seasons, n)),
        forall|a: int|
            0 <= a < conflicting_ids(planned, planned_seasons, period, seasons, n).len() ==> 0
                <= #[trigger] conflicting_ids(planned, planned_seasons, period, seasons, n)[a] < n,
    decreases n,
{
    if n > 0 {
        lemma_conflicting_ids_increasing(planned, planned_seasons, period, seasons, n - 1);
    }
}

/// The interventions listed as conflicting are exactly the planned
/// interventions below `n`, intervention 0 included, whose period has no
/// day in common with `period` and whose seasons share one with `seasons`.
pub proof fn lemma_conflicting_ids_members(
    planned: Seq<Option<Period>>,
    planned_seasons: Seq<Option<&Seasons>>,
    period: Period,
    seasons: Seasons,
    n: int,
)
    requires
        0 <= n <= planned.len(),
    ensures
        forall|i: int|
            #[trigger] conflicting_ids(planned, planned_seasons, period, seasons, n).contains(i)
                <==> (0 <= i < n && (planned[i] matches Some(p) && p.disjoint(period)) && (
                planned_seasons[i] matches Some(ss) && share_season(*ss, seasons))),
    decreases n,
{
    if n > 0 {
        lemma_conflicting_ids_members(planned, planned_seasons, period, seasons, n - 1);
        let rest = conflicting_ids(planned, planned_seasons, period, seasons, n - 1);
        let all = conflicting_ids(planned, planned_seasons, period, seasons, n);
        assert forall|i: int| #[trigger] all.contains(i) <==> (0 <= i < n && (
        planned[i] matches Some(p) && p.disjoint(period)) && (planned_seasons[i] matches Some(
            ss,
        ) && share_season(*ss, seasons))) by {
            if all.contains(i) {
                let w = choose|w: int| 0 <= w < all.len() && all[w] == i;
                if w < rest.len() {
                    assert(rest[w] == i);
                    assert(rest.contains(i));
                }
            }
            if 0 <= i < n - 1 && rest.contains(i) {
                let w = choose|w: int| 0 <= w < rest.len() && rest[w] == i;
                assert(all[w] == i);
            }
            if i == n - 1 && (planned[i] matches Some(p) && p.disjoint(period)) && (
            planned_seasons[i] matches Some(ss) && share_season(*ss, seasons)) {
                assert(all[rest.len() as int] == i);
            }
        }
    }
}

/// The number and the first day of each planned intervention below `n`, in
/// increasing order.
pub open spec fn planning_of(planned: Seq<Option<Period>>, n: int) -> Seq<(int, int)>
    decreases n,
{
    if n <= 0 {
        Seq::empty()
    } else {
        match planned[n - 1] {
            Some(p) => planning_of(planned, n - 1).push((n - 1, p.first())),
            None => planning_of(planned, n - 1),
        }
    }
}

/// Planning the unplanned intervention `i` on `p` puts `(i, first day of p)`
/// into the planning, at its place in the order of the identifiers.
pub proof fn lemma_planning_of_plan(planned: Seq<Option<Period>>, i: int, p: Period, n: int)
    requires
        0 <= i < planned.len(),
        planned[i] is None,
        0 <= n <= planned.len(),
    ensures
        n <= i ==> planning_of(planned.update(i, Some(p)), n) == planning_of(planned, n),
        n > i ==> planning_of(planned.update(i, Some(p)), n) == planning_of(planned, n).insert(
            planning_of(planned, i).len() as int,
            (i, p.first()),
        ),
    decreases n,
{
    let after = planned.update(i, Some(p));
    if n > 0 {
        lemma_planning_of_plan(planned, i, p, n - 1);
        let k = planning_of(planned, i).len() as int;
        if n - 1 == i {
            assert(planning_of(planned, n) == planning_of(planned, i));
            assert(planning_of(after, n) == planning_of(after, i).push((i, p.first())));
            assert(planning_of(planned, i).insert(k, (i, p.first())) == planning_of(planned, i).push(
                (i, p.first()),
            ));
        } else if n - 1 > i {
            let u = planning_of(planned, n - 1);
            assert(after[n - 1] == planned[n - 1]);
            lemma_planning_of_len_grows(planned, i, n - 1);
            if let Some(q) = planned[n - 1] {
                assert(u.push((n - 1, q.first())).insert(k, (i, p.first())) == u.insert(
                    k,
                    (i, p.first()),
                ).push((n - 1, q.first())));
            }
        }
    }
}

proof fn lemma_planning_of_len_grows(planned: Seq<Option<Period>>, a: int, b: int)
    requires
        0 <= a <= b <= planned.len(),
    ensures
        planning_of(planned, a).len() <= planning_of(planned, b).len(),
    decreases b - a,
{
    if a < b {
        lemma_planning_of_len_grows(planned, a, b - 1);
    }
}

/// The numbers and days of a planning.
pub open spec fn planning_numbers(p: Seq<(IID, Day)>) -> Seq<(int, int)> {
    p.map_values(|e: (IID, Day)| (e.0@ as int, e.1@ as int))
}

/// The unplanned interventions below `n` are listed in increasing order,
/// each of them unplanned, and every unplanned intervention below `n` is
/// listed.
pub proof fn lemma_unplanned_ids_bounds(planned: Seq<Option<Period>>, n: int)
    requires
        0 <= n <= planned.len(),
    ensures
        forall|a: int, b: int|
            0 <= a < b < unplanned_ids(planned, n).len() ==> #[trigger] unplanned_ids(
                planned,
                n,
            )[a] < #[trigger] unplanned_ids(planned, n)[b],
        forall|a: int|
            0 <= a < unplanned_ids(planned, n).len() ==> 0 <= #[trigger] unplanned_ids(
                planned,
                n,
            )[a] < n && planned[unplanned_ids(planned, n)[a]] is None,
        forall|i: int|
            0 <= i < n && planned[i] is None ==> #[trigger] unplanned_ids(planned, n).contains(i),
    decreases n,
{
    if n > 0 {
        lemma_unplanned_ids_bounds(planned, n - 1);
        let u = unplanned_ids(planned, n - 1);
        assert forall|i: int|
            0 <= i < n && planned[i] is None implies #[trigger] unplanned_ids(
            planned,
            n,
        ).contains(i) by {
            if i < n - 1 {
                assert(u.contains(i));
                let w = choose|w: int| 0 <= w < u.len() && u[w] == i;
                assert(unplanned_ids(planned, n)[w] == i);
            } else {
                assert(unplanned_ids(planned, n)[u.len() as int] == i);
            }
        }
    }
}

/// Planning the unplanned intervention `i` takes `i` out of the unplanned
/// ones, at the position where it stood.
proof fn lemma_unplanned_ids_plan(planned: Seq<Option<Period>>, i: int, p: Period, n: int)
    requires
        0 <= i < planned.len(),
        planned[i] is None,
        0 <= n <= planned.len(),
    ensures
        n <= i ==> unplanned_ids(planned.update(i, Some(p)), n) == unplanned_ids(planned, n),
        n > i ==> {
            let k = unplanned_ids(planned, i).len() as int;
            &&& k < unplanned_ids(planned, n).len()
            &&& unplanned_ids(planned, n)[k] == i
            &&& unplanned_ids(planned.update(i, Some(p)), n) == unplanned_ids(planned, n).remove(
                k,
            )
        },
    decreases n,
{
    let after = planned.update(i, Some(p));
    if n > 0 {
        lemma_unplanned_ids_plan(planned, i, p, n - 1);
        if n - 1 == i {
            assert(unplanned_ids(planned, n) == unplanned_ids(planned, i).push(i));
            assert(unplanned_ids(after, n) == unplanned_ids(after, i));
            assert(unplanned_ids(planned, i).push(i).remove(unplanned_ids(planned, i).len() as int)
                == unplanned_ids(planned, i));
        } else if n - 1 > i {
            let k = unplanned_ids(planned, i).len() as int;
            let u = unplanned_ids(planned, n - 1);
            assert(after[n - 1] == planned[n - 1]);
            if planned[n - 1] is None {
                assert(u.push(n - 1).remove(k) == u.remove(k).push(n - 1));
            }
        }
    }
}

/// `s` without the first occurrence of `x`, if there is one.
pub open spec fn without_first(s: Seq<IID>, x: IID) -> Seq<IID>
    decreases s.len(),
{
    if s.len() == 0 {
        s
    } else if s[0] == x {
        s.drop_first()
    } else {
        seq![s[0]] + without_first(s.drop_first(), x)
    }
}

/// When `x` first stands at position `j` in `s`, or `j` is the length of
/// `s` and `x` does not stand there, taking out the first occurrence of `x`
/// removes position `j`.
proof fn lemma_without_first(s: Seq<IID>, x: IID, j: int)
    requires
        0 <= j <= s.len(),
        forall|m: int| 0 <= m < j ==> (#[trigger] s[m])@ != x@,
        j < s.len() ==> s[j]@ == x@,
    ensures
        j < s.len() ==> without_first(s, x) == s.remove(j),
        j == s.len() ==> without_first(s, x) == s,
    decreases s.len(),
{
    if s.len() > 0 {
        IID::lemma_same_number(s[0], x);
        if j > 0 {
            assert forall|m: int| 0 <= m < j - 1 implies (#[trigger] s.drop_first()[m])@ != x@ by {
                assert(s.drop_first()[m] == s[m + 1]);
            }
            lemma_without_first(s.drop_first(), x, j - 1);
            if j < s.len() {
                assert(seq![s[0]] + s.drop_first().remove(j - 1) == s.remove(j));
            } else {
                assert(seq![s[0]] + s.drop_first() == s);
            }
        }
    }
}

/// The search state: the period and the seasons of each planned
/// intervention, and the interventions not planned yet and planned so far.
pub struct SearchState<'m> {
    /// The period of each intervention, when it is planned.
    pub interventions: Vec<Option<Period>>,
    /// The seasons of each intervention, when it is planned.
    pub seasons: Vec<Option<&'m Seasons>>,
    pub unplanned: Vec<IID>,
    pub planned: Vec<IID>,
}

impl<'m> SearchState<'m> {
    /// The state agrees with itself: an intervention has a period exactly
    /// when it has seasons, the unplanned interventions are those without a
    /// period (in increasing order), and the planned ones are those with
    /// a period, each once.
    pub open spec fn wf(&self) -> bool {
        &&& self.interventions@.len() == self.seasons@.len()
        &&& forall|i: int|
            0 <= i < self.interventions@.len() ==> ((#[trigger] self.interventions@[i]) is Some
                <==> self.seasons@[i] is Some)
        &&& forall|i: int|
            0 <= i < self.interventions@.len() ==> (#[trigger] self.interventions@[i] matches Some(
                p,
            ) ==> p.fits())
        &&& ids_of(self.unplanned@) == unplanned_ids(
            self.interventions@,
            self.interventions@.len() as int,
        )
        &&& ids_of(self.planned@).no_duplicates()
        &&& forall|x: int|
            #[trigger] ids_of(self.planned@).contains(x) <==> 0 <= x < self.interventions@.len()
                && self.interventions@[x] is Some
    }

    /// The state of a search on `ninterventions` interventions, none of
    /// them planned.
    pub fn new(ninterventions: usize) -> (r: Self)
        ensures
            r.wf(),
            r.interventions@ == Seq::new(ninterventions as nat, |i: int| None::<Period>),
            r.seasons@ == Seq::new(ninterventions as nat, |i: int| None::<&'m Seasons>),
            r.planned@.len() == 0,
            ids_of(r.unplanned@) == Seq::new(ninterventions as nat, |i: int| i),
    {
        let mut interventions: Vec<Option<Period>> = Vec::new();
        let mut seasons: Vec<Option<&'m Seasons>> = Vec::new();
        let mut unplanned: Vec<IID> = Vec::new();
        let mut i: usize = 0;
        while i < ninterventions
            invariant
                0 <= i <= ninterventions,
                interventions@ == Seq::new(i as nat, |j: int| None::<Period>),
                seasons@ == Seq::new(i as nat, |j: int| None::<&'m Seasons>),
                ids_of(unplanned@) == Seq::new(i as nat, |j: int| j),
                ids_of(unplanned@) == unplanned_ids(interventions@, i as int),
            decreases ninterventions - i,
        {
            let ghost before = interventions@;
            interventions.push(None);
            seasons.push(None);
            unplanned.push(IID::new(i));
            proof {
                assert(interventions@.take(i as int) == before);
                assert forall|n: int| 0 <= n <= i implies unplanned_ids(interventions@, n)
                    == unplanned_ids(before, n) by {
                    lemma_unplanned_ids_prefix(before, interventions@, n);
                }
                assert(ids_of(unplanned@) == ids_of(unplanned@).drop_last().push(i as int));
                assert(ids_of(unplanned@).drop_last() == Seq::new(i as nat, |j: int| j));
            }
            i = i + 1;
        }
        let r = SearchState { interventions, seasons, unplanned, planned: Vec::new() };
        proof {
            assert(ids_of(r.planned@) == Seq::<int>::empty());
            assert forall|x: int| #[trigger]
                ids_of(r.planned@).contains(x) <==> 0 <= x < r.interventions@.len()
                    && r.interventions@[x] is Some by {
                if 0 <= x < r.interventions@.len() {
                    assert(r.interventions@[x] is None);
                }
            }
        }
        r
    }

    /// Whether planning an intervention on `period` and `seasons` keeps the
    /// exclusions `exclusions` of that intervention: the planned
    /// interventions that `conflicting_ids` lists are checked with
    /// `InterventionExclusions::is_excluded`.
    pub fn check_exclusion(
        &self,
        period: &Period,
        seasons: &Seasons,
        exclusions: &InterventionExclusions,
    ) -> (r: bool)
        requires
            period.fits(),
            no_bit_past_length(*seasons),
            entries_clean(exclusions.exclusions@),
            forall|i: int|
                0 <= i < self.seasons@.len() ==> (#[trigger] self.seasons@[i] matches Some(s)
                    ==> no_bit_past_length(*s)),
            forall|i: int|
                0 <= i < self.interventions@.len() ==> (#[trigger] self.interventions@[i] matches Some(
                    p,
                ) ==> p.fits() && (p.disjoint(*period) ==> i < self.seasons@.len())),
        ensures
            !r ==> excluded_by(
                exclusions.exclusions@,
                *seasons,
                conflicting_ids(
                    self.interventions@,
                    self.seasons@,
                    *period,
                    *seasons,
                    self.interventions@.len() as int,
                ),
            ),
            !r ==> exists|i: int, k: int|
                #![trigger self.interventions@[i], exclusions.exclusions@[k]]
                0 <= i < self.interventions@.len() && (self.interventions@[i] matches Some(p)
                    && p.disjoint(*period)) && (self.seasons@[i] matches Some(ss) && share_season(
                    *ss,
                    *seasons,
                )) && 0 <= k < exclusions.exclusions@.len() && exclusions.exclusions@[k].0@ == i
                    && !share_season(exclusions.exclusions@[k].1, *seasons),
            exclusions.wf() && (exists|i: int, k: int|
                #![trigger self.interventions@[i], exclusions.exclusions@[k]]
                0 <= i < self.interventions@.len() && (self.interventions@[i] matches Some(p)
                    && p.disjoint(*period)) && (self.seasons@[i] matches Some(ss) && share_season(
                    *ss,
                    *seasons,
                )) && 0 <= k < exclusions.exclusions@.len() && exclusions.exclusions@[k].0@ == i
                    && !share_season(exclusions.exclusions@[k].1, *seasons)) ==> !r,
            exclusions.wf() ==> (r <==> !excluded_by(
                exclusions.exclusions@,
                *seasons,
                conflicting_ids(
                    self.interventions@,
                    self.seasons@,
                    *period,
                    *seasons,
                    self.interventions@.len() as int,
                ),
            )),
    {
        let mut iids: Vec<IID> = Vec::new();
        let mut i: usize = 0;
        while i < self.interventions.len()
            invariant
                period.fits(),
                no_bit_past_length(*seasons),
                forall|i: int|
                    0 <= i < self.seasons@.len() ==> (#[trigger] self.seasons@[i] matches Some(s)
                        ==> no_bit_past_length(*s)),
                forall|i: int|
                    0 <= i < self.interventions@.len() ==> (#[trigger] self.interventions@[i] matches Some(
                        p,
                    ) ==> p.fits() && (p.disjoint(*period) ==> i < self.seasons@.len())),
                0 <= i <= self.interventions@.len(),
                ids_of(iids@) == conflicting_ids(
                    self.interventions@,
                    self.seasons@,
                    *period,
                    *seasons,
                    i as int,
                ),
            decreases self.interventions@.len() - i,
        {
            let ghost before = iids@;
            match &self.interventions[i] {
                Some(p) => {
                    assert(self.interventions@[i as int] matches Some(q) && q.fits());
                    if p.intersect(period) {
                        match &self.seasons[i] {
                            Some(s) => {
                                if intersect(s, seasons) {
                                    iids.push(IID::new(i));
                                    assert(ids_of(iids@) == ids_of(before).push(i as int));
                                }
                            },
                            None => {},
                        }
                    }
                },
                None => {},
            }
            i = i + 1;
        }
        proof {
            lemma_conflicting_ids_increasing(
                self.interventions@,
                self.seasons@,
                *period,
                *seasons,
                self.interventions@.len() as int,
            );
        }
        let r = !exclusions.is_excluded(seasons, iids.as_slice());
        proof {
            let ints = self.interventions@;
            let ex = exclusions.exclusions@;
            let c = conflicting_ids(ints, self.seasons@, *period, *seasons, ints.len() as int);
            lemma_conflicting_ids_members(ints, self.seasons@, *period, *seasons, ints.len() as int);
            if !r {
                let (k, m) = choose|k: int, m: int|
                    #![trigger ex[k], c[m]]
                    0 <= k < ex.len() && 0 <= m < c.len() && ex[k].0@ == c[m] && !share_season(
                        ex[k].1,
                        *seasons,
                    );
                assert(c.contains(c[m]));
                let i = c[m];
                assert(self.interventions@[i] == ints[i]);
                assert(ex[k] == exclusions.exclusions@[k]);
            }
            if exclusions.wf() && (exists|i: int, k: int|
                #![trigger self.interventions@[i], exclusions.exclusions@[k]]
                0 <= i < self.interventions@.len() && (self.interventions@[i] matches Some(p)
                    && p.disjoint(*period)) && (self.seasons@[i] matches Some(ss) && share_season(
                    *ss,
                    *seasons,
                )) && 0 <= k < exclusions.exclusions@.len() && exclusions.exclusions@[k].0@ == i
                    && !share_season(exclusions.exclusions@[k].1, *seasons)) {
                let (i, k) = choose|i: int, k: int|
                    #![trigger self.interventions@[i], exclusions.exclusions@[k]]
                    0 <= i < self.interventions@.len() && (self.interventions@[i] matches Some(p)
                        && p.disjoint(*period)) && (self.seasons@[i] matches Some(ss)
                        && share_season(*ss, *seasons)) && 0 <= k < exclusions.exclusions@.len()
                        && exclusions.exclusions@[k].0@ == i && !share_season(
                        exclusions.exclusions@[k].1,
                        *seasons,
                    );
                assert(c.contains(i));
                let m = choose|m: int| 0 <= m < c.len() && c[m] == i;
                assert(ex[k].0@ == c[m] && !share_season(ex[k].1, *seasons));
            }
        }
        r
    }

    /// Plans the intervention `iid` on `new_period` and `new_seasons` when
    /// it is not planned yet, and tells whether it did: it is taken out of
    /// the unplanned interventions (its first occurrence) and put last among
    /// the planned ones. An intervention that is planned already keeps its
    /// period, whatever `new_period` is.
    pub fn schedule(&mut self, iid: IID, new_period: Period, new_seasons: &'m Seasons) -> (r: bool)
        requires
            iid@ < old(self).interventions@.len(),
            iid@ < old(self).seasons@.len(),
        ensures
            r == (old(self).interventions@[iid@ as int] is None),
            r ==> final(self).interventions@ == old(self).interventions@.update(
                iid@ as int,
                Some(new_period),
            ) && final(self).seasons@ == old(self).seasons@.update(
                iid@ as int,
                Some(new_seasons),
            ) && final(self).planned@ == old(self).planned@.push(iid) && final(self).unplanned@
                == without_first(old(self).unplanned@, iid),
            r ==> planning_of(
                final(self).interventions@,
                final(self).interventions@.len() as int,
            ) == planning_of(old(self).interventions@, old(self).interventions@.len() as int).insert(
                planning_of(old(self).interventions@, iid@ as int).len() as int,
                (iid@ as int, new_period.first()),
            ),
            !r ==> *final(self) == *old(self),
            old(self).wf() && new_period.fits() ==> final(self).wf(),
    {
        let idx = iid.get();
        match self.interventions[idx] {
            Some(_) => false,
            None => {
                let ghost ints = self.interventions@;
                let ghost n = ints.len() as int;
                let ghost before = self.unplanned@;
                let mut j: usize = 0;
                while j < self.unplanned.len() && self.unplanned[j].get() != idx
                    invariant
                        self.unplanned@ == before,
                        idx == iid@,
                        0 <= j <= before.len(),
                        forall|m: int| 0 <= m < j ==> (#[trigger] before[m])@ != iid@,
                    decreases before.len() - j,
                {
                    j = j + 1;
                }
                proof {
                    lemma_without_first(before, iid, j as int);
                }
                if j < self.unplanned.len() {
                    self.unplanned.remove(j);
                }
                let ghost planned_before = self.planned@;
                self.planned.push(iid);
                self.interventions.set(idx, Some(new_period));
                self.seasons.set(idx, Some(new_seasons));
                proof {
                    lemma_planning_of_plan(ints, idx as int, new_period, n);
                    if old(self).wf() && new_period.fits() {
                        let k = unplanned_ids(ints, idx as int).len() as int;
                        lemma_unplanned_ids_bounds(ints, n);
                        lemma_unplanned_ids_plan(ints, idx as int, new_period, n);
                        assert(ids_of(before) == unplanned_ids(ints, n));
                        assert(before[k]@ == idx);
                        if j < k {
                            assert(unplanned_ids(ints, n)[j as int] < unplanned_ids(ints, n)[k]);
                            assert(ids_of(before)[j as int] == before[j as int]@);
                        }
                        assert(j == k);
                        assert(ids_of(self.unplanned@) == unplanned_ids(ints, n).remove(k));
                        let fin = self.interventions@;
                        assert(ids_of(self.planned@) == ids_of(planned_before).push(idx as int));
                        assert(!ids_of(planned_before).contains(idx as int));
                        assert forall|x: int| #[trigger]
                            ids_of(self.planned@).contains(x) <==> 0 <= x < fin.len()
                                && fin[x] is Some by {
                            if x != idx {
                                if ids_of(self.planned@).contains(x) {
                                    let w = choose|w: int|
                                        0 <= w < ids_of(self.planned@).len() && ids_of(
                                            self.planned@,
                                        )[w] == x;
                                    assert(ids_of(planned_before)[w] == x);
                                }
                                if ids_of(planned_before).contains(x) {
                                    let w = choose|w: int|
                                        0 <= w < ids_of(planned_before).len() && ids_of(
                                            planned_before,
                                        )[w] == x;
                                    assert(ids_of(self.planned@)[w] == x);
                                }
                            } else {
                                assert(ids_of(self.planned@)[planned_before.len() as int] == x);
                            }
                        }
                    }
                }
                true
            },
        }
    }

    /// The planning: each planned intervention, in the order of the
    /// identifiers, with the first day of its period.
    pub fn current_planning(&self) -> (r: Planning)
        ensures
            planning_numbers(r.interventions@) == planning_of(
                self.interventions@,
                self.interventions@.len() as int,
            ),
    {
        let mut interventions: Vec<(IID, Day)> = Vec::new();
        let mut i: usize = 0;
        while i < self.interventions.len()
            invariant
                0 <= i <= self.interventions@.len(),
                planning_numbers(interventions@) == planning_of(self.interventions@, i as int),
            decreases self.interventions@.len() - i,
        {
            let ghost before = interventions@;
            match &self.interventions[i] {
                Some(p) => {
                    interventions.push((IID::new(i), p.start()));
                    assert(planning_numbers(interventions@) == planning_numbers(before).push(
                        (i as int, self.interventions@[i as int]->0.first()),
                    ));
                },
                None => {},
            }
            i = i + 1;
        }
        Planning { interventions }
    }
}

proof fn lemma_unplanned_ids_prefix(a: Seq<Option<Period>>, b: Seq<Option<Period>>, n: int)
    requires
        0 <= n <= a.len(),
        n <= b.len(),
        forall|i: int| 0 <= i < n ==> a[i] == b[i],
    ensures
        unplanned_ids(a, n) == unplanned_ids(b, n),
    decreases n,
{
    if n > 0 {
        lemma_unplanned_ids_prefix(a, b, n - 1);
    }
}

proof fn lemma_planning_of(planned: Seq<Option<Period>>, n: int)
    requires
        0 <= n <= planned.len(),
    ensures
        forall|k: int|
            0 <= k < planning_of(planned, n).len() ==> {
                let e = #[trigger] planning_of(planned, n)[k];
                &&& 0 <= e.0 < n
                &&& planned[e.0] matches Some(p) && p.first() == e.1
            },
        forall|a: int, b: int|
            0 <= a < b < planning_of(planned, n).len() ==> (#[trigger] planning_of(planned, n)[a]).0
                < (#[trigger] planning_of(planned, n)[b]).0,
        forall|x: int|
            0 <= x < n && #[trigger] planned[x] is Some ==> exists|k: int|
                0 <= k < planning_of(planned, n).len() && (#[trigger] planning_of(planned, n)[k]).0
                    == x,
    decreases n,
{
    if n > 0 {
        lemma_planning_of(planned, n - 1);
        let rest = planning_of(planned, n - 1);
        let all = planning_of(planned, n);
        assert forall|x: int| 0 <= x < n && #[trigger] planned[x] is Some implies exists|k: int|
            0 <= k < all.len() && (#[trigger] all[k]).0 == x by {
            if x < n - 1 {
                let k = choose|k: int| 0 <= k < rest.len() && (#[trigger] rest[k]).0 == x;
                assert(all[k] == rest[k]);
            } else {
                assert(all[rest.len() as int].0 == x);
            }
        }
    }
}

/// The planning of a search state lists each planned intervention once,
/// with the first day of its period, and nothing else: as many entries as
/// planned interventions, in increasing order of the identifiers.
pub proof fn lemma_planning_lists_planned<'m>(state: SearchState<'m>)
    requires
        state.wf(),
    ensures
        ({
            let planning = planning_of(state.interventions@, state.interventions@.len() as int);
            &&& planning.len() == state.planned@.len()
            &&& forall|k: int|
                0 <= k < planning.len() ==> ids_of(state.planned@).contains(
                    (#[trigger] planning[k]).0,
                ) && (state.interventions@[planning[k].0] matches Some(p) && p.first()
                    == planning[k].1)
            &&& forall|a: int, b: int|
                0 <= a < b < planning.len() ==> (#[trigger] planning[a]).0 < (
                #[trigger] planning[b]).0
            &&& forall|x: int|
                #[trigger] ids_of(state.planned@).contains(x) ==> exists|k: int|
                    0 <= k < planning.len() && (#[trigger] planning[k]).0 == x
        }),
{
    let ints = state.interventions@;
    let n = ints.len() as int;
    lemma_planning_of(ints, n);
    let planning = planning_of(ints, n);
    let firsts = planning.map_values(|e: (int, int)| e.0);
    let ids = ids_of(state.planned@);
    assert forall|a: int, b: int| 0 <= a < firsts.len() && 0 <= b < firsts.len() && a != b implies firsts[a]
        != firsts[b] by {
        if a < b {
            assert(planning[a].0 < planning[b].0);
        } else {
            assert(planning[b].0 < planning[a].0);
        }
    }
    assert(firsts.no_duplicates());
    assert forall|x: int| firsts.to_set().contains(x) <==> ids.to_set().contains(x) by {
        if firsts.to_set().contains(x) {
            assert(firsts.contains(x));
            let k = choose|k: int| 0 <= k < firsts.len() && firsts[k] == x;
            assert(planning[k].0 == x);
            assert(ids.contains(x));
        }
        if ids.to_set().contains(x) {
            assert(ids.contains(x));
            assert(ints[x] is Some);
            let k = choose|k: int| 0 <= k < planning.len() && (#[trigger] planning[k]).0 == x;
            assert(firsts[k] == x);
            assert(firsts.contains(x));
        }
    }
    assert(firsts.to_set() =~= ids.to_set());
    firsts.unique_seq_to_set();
    ids.unique_seq_to_set();
}

} // verus!
