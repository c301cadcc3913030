//! What the reading of an instance computes from the decoded document:
//! the season of each day, the exclusions between interventions, the
//! seasons covered by each period, the periods of an intervention and
//! where its risk values and workloads go.
use crate::exclusion::{entries_clean, sorted_by_intervention, InterventionExclusions};
use crate::risks::{group_count, group_sums_defined, group_totals, Risks};
use crate::seasons::{has_season, no_bit_past_length, season_bits, Seasons};
use crate::types::{Day, Period, IID, SID};
use std::ops::Add;
use vstd::prelude::*;
use vstd::std_specs::ops::AddSpec;

verus! {

/// Day identifier as it is read from a document.
#[derive(Copy, Clone, Hash, Debug, PartialEq, Eq, Structural, PartialOrd, Ord)]
pub struct SerdeDay(usize);

impl View for SerdeDay {
    type V = usize;

    closed spec fn view(&self) -> usize {
        self.0
    }
}

impl SerdeDay {
    pub fn new(id: usize) -> (r: Self)
        ensures
            r@ == id,
    {
        SerdeDay(id)
    }

    pub fn get(&self) -> (r: usize)
        ensures
            r == self@,
    {
        self.0
    }

    /// The day with the given number.
    pub closed spec fn from_number(id: usize) -> SerdeDay {
        SerdeDay(id)
    }

    pub broadcast proof fn lemma_from_number(id: usize)
        ensures
            #[trigger] SerdeDay::from_number(id)@ == id,
    {
    }

    /// Two days with the same number are the same day.
    pub proof fn lemma_same_number(a: SerdeDay, b: SerdeDay)
        ensures
            a@ == b@ <==> a == b,
    {
    }
}

impl std::ops::Add for SerdeDay {
    type Output = SerdeDay;

    fn add(self, other: SerdeDay) -> (r: SerdeDay)
        ensures
            r@ == self@ + other@,
    {
        SerdeDay(self.0 + other.0)
    }
}

impl vstd::std_specs::ops::AddSpecImpl for SerdeDay {
    open spec fn obeys_add_spec() -> bool {
        true
    }

    open spec fn add_req(self, other: SerdeDay) -> bool {
        self@ + other@ <= usize::MAX
    }

    open spec fn add_spec(self, other: SerdeDay) -> SerdeDay {
        SerdeDay::from_number((self@ + other@) as usize)
    }
}

impl std::ops::Sub for SerdeDay {
    type Output = SerdeDay;

    fn sub(self, other: SerdeDay) -> (r: SerdeDay)
        ensures
            r@ == self@ - other@,
    {
        SerdeDay(self.0 - other.0)
    }
}

impl vstd::std_specs::ops::SubSpecImpl for SerdeDay {
    open spec fn obeys_sub_spec() -> bool {
        true
    }

    open spec fn sub_req(self, other: SerdeDay) -> bool {
        self@ >= other@
    }

    open spec fn sub_spec(self, other: SerdeDay) -> SerdeDay {
        SerdeDay::from_number((self@ - other@) as usize)
    }
}

impl From<SerdeDay> for Day {
    fn from(day: SerdeDay) -> (r: Day)
        ensures
            r@ == day@,
    {
        let r = Day::new(day.get());
        proof {
            Day::lemma_from_number(day@);
            Day::lemma_same_number(r, Day::from_number(day@));
        }
        r
    }
}

impl vstd::std_specs::convert::FromSpecImpl<SerdeDay> for Day {
    open spec fn obeys_from_spec() -> bool {
        true
    }

    open spec fn from_spec(day: SerdeDay) -> Day {
        Day::from_number(day@)
    }
}

/// The seasons of the days, as the reading of an instance lists them.
pub struct WorkingSeasons<'a> {
    /// The name of each season, at the position of its identifier.
    pub seasons_codes: Vec<&'a str>,
    /// The number of seasons, the season of the days that no season holds
    /// included.
    pub nseasons: usize,
    /// The season of each day.
    pub season_of_days: Vec<SID>,
}

/// `day` is one of `days`.
pub open spec fn holds_day(days: Seq<SerdeDay>, day: int) -> bool {
    exists|j: int| 0 <= j < days.len() && #[trigger] days[j]@ == day
}

/// The season of `day`: the last of `seasons` that holds it, and
/// `default` when none does.
pub open spec fn season_of_day(seasons: Seq<Seq<SerdeDay>>, day: int, default: int) -> int
    decreases seasons.len(),
{
    if seasons.len() == 0 {
        default
    } else if holds_day(seasons.last(), day) {
        seasons.len() - 1
    } else {
        season_of_day(seasons.drop_last(), day, default)
    }
}

/// The season of a day is the last season that lists it, and the extra
/// season `default` when no season lists it.
pub proof fn lemma_season_of_day(seasons: Seq<Seq<SerdeDay>>, day: int, default: int)
    requires
        default >= seasons.len(),
    ensures
        season_of_day(seasons, day, default) == default ==> forall|s: int|
            0 <= s < seasons.len() ==> !holds_day(#[trigger] seasons[s], day),
        season_of_day(seasons, day, default) != default ==> {
            let s = season_of_day(seasons, day, default);
            &&& 0 <= s < seasons.len()
            &&& holds_day(seasons[s], day)
            &&& forall|t: int| s < t < seasons.len() ==> !holds_day(#[trigger] seasons[t], day)
        },
    decreases seasons.len(),
{
    if seasons.len() > 0 {
        let rest = seasons.drop_last();
        lemma_season_of_day(rest, day, default);
        if !holds_day(seasons.last(), day) {
            assert forall|s: int| 0 <= s < rest.len() implies #[trigger] seasons[s] == rest[s] by {
            }
        }
    }
}

/// A list holds each of its days, and only those.
pub proof fn lemma_holds_day(days: Seq<SerdeDay>, day: int)
    ensures
        forall|j: int| 0 <= j < days.len() ==> holds_day(days, #[trigger] days[j]@ as int),
        holds_day(days, day) ==> exists|j: int| 0 <= j < days.len() && #[trigger] days[j]@ == day,
{
    assert forall|j: int| 0 <= j < days.len() implies holds_day(days, #[trigger] days[j]@ as int) by {
        assert(days[j]@ == days[j]@ as int);
    }
}

/// A day listed by the season `s`, and by no later season, has the season
/// `s`.
pub proof fn lemma_listed_day_season(seasons: Seq<Seq<SerdeDay>>, default: int, s: int, j: int)
    requires
        default >= seasons.len(),
        0 <= s < seasons.len(),
        0 <= j < seasons[s].len(),
        forall|t: int, i: int|
            s < t < seasons.len() && 0 <= i < seasons[t].len() ==> (#[trigger] seasons[t][i])@
                != seasons[s][j]@,
    ensures
        season_of_day(seasons, seasons[s][j]@ as int, default) == s,
{
    let d = seasons[s][j]@ as int;
    lemma_season_of_day(seasons, d, default);
    lemma_holds_day(seasons[s], d);
    let v = season_of_day(seasons, d, default);
    if v != s {
        if v == default {
            assert(!holds_day(seasons[s], d));
        } else if v > s {
            lemma_holds_day(seasons[v], d);
            let i = choose|i: int| 0 <= i < seasons[v].len() && #[trigger] seasons[v][i]@ == d;
            assert(seasons[v][i]@ != seasons[s][j]@);
        } else {
            assert(!holds_day(seasons[s], d));
        }
    }
}

/// A day that no season lists has the extra season `default`.
pub proof fn lemma_unlisted_day_season(seasons: Seq<Seq<SerdeDay>>, default: int, d: int)
    requires
        default >= seasons.len(),
        forall|t: int, i: int|
            0 <= t < seasons.len() && 0 <= i < seasons[t].len() ==> (#[trigger] seasons[t][i])@ != d,
    ensures
        season_of_day(seasons, d, default) == default,
{
    lemma_season_of_day(seasons, d, default);
    let v = season_of_day(seasons, d, default);
    if v != default {
        lemma_holds_day(seasons[v], d);
        let i = choose|i: int| 0 <= i < seasons[v].len() && #[trigger] seasons[v][i]@ == d;
    }
}

/// The days listed for each season.
pub open spec fn season_days<'a>(seasons: Seq<(&'a str, Vec<SerdeDay>)>) -> Seq<Seq<SerdeDay>> {
    seasons.map_values(|s: (&'a str, Vec<SerdeDay>)| s.1@)
}

/// Numbers the seasons in the order given (the order of their names) and
/// gives each of the `ndays` days its season; the days that no season lists
/// get one more season, the last one.
pub fn list_of_seasons<'a>(seasons: &[(&'a str, Vec<SerdeDay>)], ndays: SerdeDay) -> (r:
    WorkingSeasons<'a>)
    requires
        seasons@.len() < usize::MAX,
        forall|s: int, j: int|
            0 <= s < seasons@.len() && 0 <= j < seasons@[s].1@.len() ==> #[trigger] seasons@[s].1@[j]@
                < ndays@,
    ensures
        r.nseasons == seasons@.len() + 1,
        r.seasons_codes@ == seasons@.map_values(|s: (&'a str, Vec<SerdeDay>)| s.0),
        r.season_of_days@.len() == ndays@,
        forall|d: int|
            0 <= d < ndays@ ==> #[trigger] r.season_of_days@[d]@ == season_of_day(
                season_days(seasons@),
                d,
                seasons@.len() as int,
            ),
        forall|s: int, j: int|
            #![trigger seasons@[s].1@[j]]
            0 <= s < seasons@.len() && 0 <= j < seasons@[s].1@.len() && (forall|t: int, i: int|
                #![trigger seasons@[t].1@[i]]
                s < t < seasons@.len() && 0 <= i < seasons@[t].1@.len() ==> seasons@[t].1@[i]@
                    != seasons@[s].1@[j]@) ==> r.season_of_days@[seasons@[s].1@[j]@ as int]@ == s,
        forall|d: int|
            #![trigger r.season_of_days@[d]]
            0 <= d < ndays@ && (forall|t: int, i: int|
                #![trigger seasons@[t].1@[i]]
                0 <= t < seasons@.len() && 0 <= i < seasons@[t].1@.len() ==> seasons@[t].1@[i]@
                    != d) ==> r.season_of_days@[d]@ == seasons@.len(),
{
    let nseasons = seasons.len() + 1;
    let ghost all = season_days(seasons@);
    let mut seasons_codes: Vec<&'a str> = Vec::new();
    let mut season_of_days: Vec<SID> = Vec::new();
    let mut d: usize = 0;
    while d < ndays.get()
        invariant
            nseasons == seasons@.len() + 1,
            d <= ndays@,
            season_of_days@.len() == d,
            forall|e: int| 0 <= e < d ==> #[trigger] season_of_days@[e]@ == nseasons - 1,
        decreases ndays@ - d,
    {
        season_of_days.push(SID::new(nseasons - 1));
        d = d + 1;
    }
    let mut sid: usize = 0;
    while sid < seasons.len()
        invariant
            nseasons == seasons@.len() + 1,
            all == season_days(seasons@),
            forall|s: int, j: int|
                0 <= s < seasons@.len() && 0 <= j < seasons@[s].1@.len() ==> #[trigger] seasons@[s].1@[j]@
                    < ndays@,
            0 <= sid <= seasons@.len(),
            seasons_codes@ == seasons@.take(sid as int).map_values(
                |s: (&'a str, Vec<SerdeDay>)| s.0,
            ),
            season_of_days@.len() == ndays@,
            forall|e: int|
                0 <= e < ndays@ ==> #[trigger] season_of_days@[e]@ == season_of_day(
                    all.take(sid as int),
                    e,
                    seasons@.len() as int,
                ),
        decreases seasons@.len() - sid,
    {
        seasons_codes.push(seasons[sid].0);
        let days = &seasons[sid].1;
        let ghost before = season_of_days@;
        let mut j: usize = 0;
        while j < days.len()
            invariant
                0 <= sid < seasons@.len(),
                days@ == seasons@[sid as int].1@,
                forall|jj: int| 0 <= jj < days@.len() ==> #[trigger] days@[jj]@ < ndays@,
                0 <= j <= days@.len(),
                season_of_days@.len() == ndays@,
                before.len() == ndays@,
                forall|e: int|
                    0 <= e < ndays@ ==> #[trigger] season_of_days@[e]@ == if holds_day(
                        days@.take(j as int),
                        e,
                    ) {
                        sid as int
                    } else {
                        before[e]@ as int
                    },
            decreases days@.len() - j,
        {
            let day = days[j].get();
            season_of_days.set(day, SID::new(sid));
            proof {
                assert forall|e: int| 0 <= e < ndays@ implies #[trigger] season_of_days@[e]@
                    == if holds_day(days@.take(j + 1), e) {
                    sid as int
                } else {
                    before[e]@ as int
                } by {
                    if holds_day(days@.take(j as int), e) {
                        let w = choose|w: int|
                            0 <= w < days@.take(j as int).len() && #[trigger] days@.take(
                                j as int,
                            )[w]@ == e;
                        assert(days@.take(j + 1)[w]@ == e);
                    }
                    if e == day {
                        assert(days@.take(j + 1)[j as int]@ == e);
                    } else if holds_day(days@.take(j + 1), e) {
                        let w = choose|w: int|
                            0 <= w < days@.take(j + 1).len() && #[trigger] days@.take(j + 1)[w]@
                                == e;
                        assert(days@.take(j as int)[w]@ == e);
                    }
                }
            }
            j = j + 1;
        }
        proof {
            assert(days@.take(days@.len() as int) == days@);
            assert(all.take(sid + 1).drop_last() == all.take(sid as int));
            assert(all.take(sid + 1).last() == days@);
            assert(seasons@.take(sid + 1).map_values(|s: (&'a str, Vec<SerdeDay>)| s.0)
                == seasons@.take(sid as int).map_values(|s: (&'a str, Vec<SerdeDay>)| s.0).push(
                seasons@[sid as int].0,
            ));
        }
        sid = sid + 1;
    }
    proof {
        assert(all.take(seasons@.len() as int) == all);
        assert(seasons@.take(seasons@.len() as int) == seasons@);
        let len = seasons@.len() as int;
        assert forall|s: int, j: int|
            #![trigger seasons@[s].1@[j]]
            0 <= s < seasons@.len() && 0 <= j < seasons@[s].1@.len() && (forall|t: int, i: int|
                #![trigger seasons@[t].1@[i]]
                s < t < seasons@.len() && 0 <= i < seasons@[t].1@.len() ==> seasons@[t].1@[i]@
                    != seasons@[s].1@[j]@) implies season_of_days@[seasons@[s].1@[j]@ as int]@
            == s by {
            assert(all[s] == seasons@[s].1@);
            assert forall|t: int, i: int|
                s < t < all.len() && 0 <= i < all[t].len() implies (#[trigger] all[t][i])@
                != all[s][j]@ by {
                assert(all[t] == seasons@[t].1@);
                assert(seasons@[t].1@[i]@ != seasons@[s].1@[j]@);
            }
            lemma_listed_day_season(all, len, s, j);
        }
        assert forall|d: int|
            #![trigger season_of_days@[d]]
            0 <= d < ndays@ && (forall|t: int, i: int|
                #![trigger seasons@[t].1@[i]]
                0 <= t < seasons@.len() && 0 <= i < seasons@[t].1@.len() ==> seasons@[t].1@[i]@
                    != d) implies season_of_days@[d]@ == seasons@.len() by {
            assert forall|t: int, i: int|
                0 <= t < all.len() && 0 <= i < all[t].len() implies (#[trigger] all[t][i])@
                != d by {
                assert(all[t] == seasons@[t].1@);
                assert(seasons@[t].1@[i]@ != d);
            }
            lemma_unlisted_day_season(all, len, d);
        }
    }
    WorkingSeasons { seasons_codes, nseasons, season_of_days }
}

/// Some entry of `ex` names the intervention `j`.
pub open spec fn has_entry(ex: Seq<(IID, Seasons)>, j: int) -> bool {
    exists|k: int| 0 <= k < ex.len() && (#[trigger] ex[k]).0@ == j
}

/// Some entry of `ex` names the intervention `j` with the season `s`.
pub open spec fn entry_has(ex: Seq<(IID, Seasons)>, j: int, s: int) -> bool {
    exists|k: int| 0 <= k < ex.len() && (#[trigger] ex[k]).0@ == j && has_season(ex[k].1, s)
}

/// Every entry of `ex` has `n` seasons.
pub open spec fn entries_sized(ex: Seq<(IID, Seasons)>, n: nat) -> bool {
    forall|k: int| 0 <= k < ex.len() ==> season_bits((#[trigger] ex[k]).1).len() == n
}

/// Adds the season `sid` to the exclusion with `iid`, making the entry of
/// `iid` when there is none; the entries stay sorted by intervention.
pub fn update_exclusion(exclusions: &mut Vec<(IID, Seasons)>, iid: IID, sid: SID, nseasons: usize)
    requires
        sorted_by_intervention(old(exclusions)@),
        forall|k: int|
            0 <= k < old(exclusions)@.len() && (#[trigger] old(exclusions)@[k]).0@ == iid@ ==> sid@
                < season_bits(old(exclusions)@[k].1).len(),
        !has_entry(old(exclusions)@, iid@ as int) ==> sid@ < nseasons,
    ensures
        sorted_by_intervention(final(exclusions)@),
        entries_sized(old(exclusions)@, nseasons as nat) ==> entries_sized(
            final(exclusions)@,
            nseasons as nat,
        ),
        entries_clean(old(exclusions)@) ==> entries_clean(final(exclusions)@),
        forall|j: int|
            has_entry(final(exclusions)@, j) <==> has_entry(old(exclusions)@, j) || j == iid@,
        forall|j: int, s: int|
            entry_has(final(exclusions)@, j, s) <==> entry_has(old(exclusions)@, j, s) || (j
                == iid@ && s == sid@),
{
    let ghost ex = exclusions@;
    let mut k: usize = 0;
    while k < exclusions.len() && exclusions[k].0.get() < iid.get()
        invariant
            exclusions@ == ex,
            0 <= k <= ex.len(),
            forall|m: int| 0 <= m < k ==> (#[trigger] ex[m]).0@ < iid@,
        decreases ex.len() - k,
    {
        k = k + 1;
    }
    if k < exclusions.len() && exclusions[k].0.get() == iid.get() {
        let mut e = exclusions.remove(k);
        e.1.set(sid.get(), true);
        exclusions.insert(k, e);
        proof {
            let fin = exclusions@;
            assert(fin == ex.update(k as int, e));
            assert forall|j: int, s: int|
                entry_has(fin, j, s) <==> entry_has(ex, j, s) || (j == iid@ && s == sid@) by {
                if entry_has(fin, j, s) {
                    let m = choose|m: int|
                        0 <= m < fin.len() && (#[trigger] fin[m]).0@ == j && has_season(
                            fin[m].1,
                            s,
                        );
                    if m != k {
                        assert(ex[m] == fin[m]);
                    }
                }
                if entry_has(ex, j, s) {
                    let m = choose|m: int|
                        0 <= m < ex.len() && (#[trigger] ex[m]).0@ == j && has_season(ex[m].1, s);
                    if m != k {
                        assert(ex[m] == fin[m]);
                    } else {
                        assert(has_season(fin[m].1, s));
                    }
                }
                if j == iid@ && s == sid@ {
                    assert(fin[k as int].0@ == j && has_season(fin[k as int].1, s));
                }
            }
            assert forall|j: int| has_entry(fin, j) <==> has_entry(ex, j) || j == iid@ by {
                if has_entry(fin, j) {
                    let m = choose|m: int| 0 <= m < fin.len() && (#[trigger] fin[m]).0@ == j;
                    assert(ex[m].0 == fin[m].0);
                }
                if has_entry(ex, j) {
                    let m = choose|m: int| 0 <= m < ex.len() && (#[trigger] ex[m]).0@ == j;
                    assert(ex[m].0 == fin[m].0);
                }
                if j == iid@ {
                    assert(fin[k as int].0@ == j);
                }
            }
        }
    } else {
        proof {
            assert(!has_entry(ex, iid@ as int)) by {
                if has_entry(ex, iid@ as int) {
                    let m = choose|m: int| 0 <= m < ex.len() && (#[trigger] ex[m]).0@ == iid@;
                    if m > k {
                        assert(ex[k as int].0@ < ex[m].0@);
                    }
                }
            }
        }
        let mut seasons = Seasons::with_capacity(nseasons);
        seasons.set(sid.get(), true);
        exclusions.insert(k, (iid, seasons));
        proof {
            let fin = exclusions@;
            assert(fin == ex.insert(k as int, (iid, seasons)));
            assert(k < ex.len() ==> ex[k as int].0@ > iid@);
            assert forall|a: int, b: int| 0 <= a < b < fin.len() implies #[trigger] fin[a].0@
                < #[trigger] fin[b].0@ by {
                if b < k {
                } else if a < k && b == k {
                } else if a < k && b > k {
                    assert(fin[b] == ex[b - 1]);
                    if k < ex.len() {
                        assert(ex[k as int].0@ <= ex[b - 1].0@);
                    }
                } else if a == k {
                    assert(fin[b] == ex[b - 1]);
                    assert(ex[k as int].0@ <= ex[b - 1].0@);
                } else {
                    assert(fin[a] == ex[a - 1]);
                    assert(fin[b] == ex[b - 1]);
                }
            }
            if entries_sized(ex, nseasons as nat) {
                assert forall|m: int| 0 <= m < fin.len() implies season_bits(
                    (#[trigger] fin[m]).1,
                ).len() == nseasons as nat by {
                    if m > k {
                        assert(fin[m] == ex[m - 1]);
                    }
                }
            }
            assert forall|j: int, s: int|
                entry_has(fin, j, s) <==> entry_has(ex, j, s) || (j == iid@ && s == sid@) by {
                if entry_has(fin, j, s) {
                    let m = choose|m: int|
                        0 <= m < fin.len() && (#[trigger] fin[m]).0@ == j && has_season(
                            fin[m].1,
                            s,
                        );
                    if m < k {
                        assert(ex[m] == fin[m]);
                    } else if m > k {
                        assert(ex[m - 1] == fin[m]);
                    }
                }
                if entry_has(ex, j, s) {
                    let m = choose|m: int|
                        0 <= m < ex.len() && (#[trigger] ex[m]).0@ == j && has_season(ex[m].1, s);
                    if m < k {
                        assert(ex[m] == fin[m]);
                    } else {
                        assert(ex[m] == fin[m + 1]);
                    }
                }
                if j == iid@ && s == sid@ {
                    assert(fin[k as int].0@ == j && has_season(fin[k as int].1, s));
                }
            }
            assert forall|j: int| has_entry(fin, j) <==> has_entry(ex, j) || j == iid@ by {
                if has_entry(fin, j) {
                    let m = choose|m: int| 0 <= m < fin.len() && (#[trigger] fin[m]).0@ == j;
                    if m < k {
                        assert(ex[m] == fin[m]);
                    } else if m > k {
                        assert(ex[m - 1] == fin[m]);
                    }
                }
                if has_entry(ex, j) {
                    let m = choose|m: int| 0 <= m < ex.len() && (#[trigger] ex[m]).0@ == j;
                    if m < k {
                        assert(ex[m] == fin[m]);
                    } else {
                        assert(ex[m] == fin[m + 1]);
                    }
                }
                if j == iid@ {
                    assert(fin[k as int].0@ == j);
                }
            }
        }
    }
}

/// Some exclusion of `pairs` is between `i` and `j`, in either order, for
/// the season `s`.
pub open spec fn paired(pairs: Seq<(IID, IID, SID)>, i: int, j: int, s: int) -> bool {
    exists|k: int|
        0 <= k < pairs.len() && ((#[trigger] pairs[k]).2@ == s) && ((pairs[k].0@ == i
            && pairs[k].1@ == j) || (pairs[k].0@ == j && pairs[k].1@ == i))
}

/// Some exclusion of `pairs` is between `i` and `j`, in either order.
pub open spec fn paired_any(pairs: Seq<(IID, IID, SID)>, i: int, j: int) -> bool {
    exists|k: int|
        0 <= k < pairs.len() && (((#[trigger] pairs[k]).0@ == i && pairs[k].1@ == j) || (
        pairs[k].0@ == j && pairs[k].1@ == i))
}

/// Each exclusion read is recorded between its two interventions, in both
/// orders, for its season, whatever that season; and a recorded exclusion
/// comes from one that was read.
pub proof fn lemma_paired(pairs: Seq<(IID, IID, SID)>)
    ensures
        forall|k: int|
            0 <= k < pairs.len() ==> paired(
                pairs,
                (#[trigger] pairs[k]).0@ as int,
                pairs[k].1@ as int,
                pairs[k].2@ as int,
            ) && paired(pairs, pairs[k].1@ as int, pairs[k].0@ as int, pairs[k].2@ as int)
                && paired_any(pairs, pairs[k].0@ as int, pairs[k].1@ as int) && paired_any(
                pairs,
                pairs[k].1@ as int,
                pairs[k].0@ as int,
            ),
        forall|i: int, j: int, s: int|
            #[trigger] paired(pairs, i, j, s) ==> exists|k: int|
                0 <= k < pairs.len() && (#[trigger] pairs[k]).2@ == s && ((pairs[k].0@ == i
                    && pairs[k].1@ == j) || (pairs[k].0@ == j && pairs[k].1@ == i)),
        forall|i: int, j: int|
            #[trigger] paired_any(pairs, i, j) ==> exists|k: int|
                0 <= k < pairs.len() && (((#[trigger] pairs[k]).0@ == i && pairs[k].1@ == j) || (
                pairs[k].0@ == j && pairs[k].1@ == i)),
{
}

/// An entry records its intervention and each of its seasons, and every
/// recorded intervention and season comes from an entry.
pub proof fn lemma_entries(ex: Seq<(IID, Seasons)>)
    ensures
        forall|k: int|
            0 <= k < ex.len() ==> has_entry(ex, (#[trigger] ex[k]).0@ as int),
        forall|k: int, s: int|
            0 <= k < ex.len() && #[trigger] has_season(ex[k].1, s) ==> entry_has(
                ex,
                ex[k].0@ as int,
                s,
            ),
        forall|j: int| #[trigger]
            has_entry(ex, j) ==> exists|k: int| 0 <= k < ex.len() && (#[trigger] ex[k]).0@ == j,
        forall|j: int, s: int|
            #[trigger] entry_has(ex, j, s) ==> exists|k: int|
                0 <= k < ex.len() && (#[trigger] ex[k]).0@ == j && has_season(ex[k].1, s),
{
}

/// An exclusion read is recorded in the exclusions of each of its two
/// interventions, with the other intervention and its season, when the
/// exclusions are those that `compute_exclusions` describes.
pub proof fn lemma_exclusion_recorded(
    pairs: Seq<(IID, IID, SID)>,
    r: Seq<InterventionExclusions>,
    n: int,
    k: int,
)
    requires
        r.len() == n,
        0 <= k < pairs.len(),
        pairs[k].0@ < n,
        pairs[k].1@ < n,
        forall|i: int, j: int, s: int|
            0 <= i < n ==> (#[trigger] entry_has(r[i].exclusions@, j, s) <==> paired(
                pairs,
                i,
                j,
                s,
            )),
    ensures
        exists|m: int|
            0 <= m < r[pairs[k].0@ as int].exclusions@.len() && r[pairs[k].0@ as int].exclusions@[m].0
                == pairs[k].1 && has_season(
                r[pairs[k].0@ as int].exclusions@[m].1,
                pairs[k].2@ as int,
            ),
        exists|m: int|
            0 <= m < r[pairs[k].1@ as int].exclusions@.len() && r[pairs[k].1@ as int].exclusions@[m].0
                == pairs[k].0 && has_season(
                r[pairs[k].1@ as int].exclusions@[m].1,
                pairs[k].2@ as int,
            ),
{
    let a = pairs[k].0@ as int;
    let b = pairs[k].1@ as int;
    let s = pairs[k].2@ as int;
    let ea = r[a].exclusions@;
    let eb = r[b].exclusions@;
    assert(paired(pairs, a, b, s)) by {
        assert(pairs[k].2@ == s);
    }
    assert(paired(pairs, b, a, s)) by {
        assert(pairs[k].2@ == s);
    }
    assert(entry_has(ea, b, s));
    assert(entry_has(eb, a, s));
    let m = choose|m: int| 0 <= m < ea.len() && (#[trigger] ea[m]).0@ == b && has_season(ea[m].1, s);
    IID::lemma_same_number(ea[m].0, pairs[k].1);
    let w = choose|w: int| 0 <= w < eb.len() && (#[trigger] eb[w]).0@ == a && has_season(eb[w].1, s);
    IID::lemma_same_number(eb[w].0, pairs[k].0);
}

/// Every exclusion read is recorded in the exclusions of both its
/// interventions, when the exclusions are those that `compute_exclusions`
/// describes.
pub proof fn lemma_exclusions_recorded(
    pairs: Seq<(IID, IID, SID)>,
    r: Seq<InterventionExclusions>,
    n: int,
)
    requires
        r.len() == n,
        forall|k: int|
            0 <= k < pairs.len() ==> (#[trigger] pairs[k]).0@ < n && pairs[k].1@ < n,
        forall|i: int| 0 <= i < n ==> sorted_by_intervention(#[trigger] r[i].exclusions@),
        forall|i: int, j: int, s: int|
            0 <= i < n ==> (#[trigger] entry_has(r[i].exclusions@, j, s) <==> paired(
                pairs,
                i,
                j,
                s,
            )),
    ensures
        forall|k: int|
            0 <= k < pairs.len() ==> r[(#[trigger] pairs[k]).0@ as int].exclusions@.map_values(
                |e: (IID, Seasons)| e.0,
            ).contains(pairs[k].1),
        forall|k: int|
            0 <= k < pairs.len() ==> r[(#[trigger] pairs[k]).1@ as int].exclusions@.map_values(
                |e: (IID, Seasons)| e.0,
            ).contains(pairs[k].0),
        forall|k: int, m: int|
            0 <= k < pairs.len() && 0 <= m < r[pairs[k].0@ as int].exclusions@.len() && (#[trigger] r[(#[trigger] pairs[k]).0@ as int].exclusions@[m]).0
                == pairs[k].1 ==> has_season(r[pairs[k].0@ as int].exclusions@[m].1, pairs[k].2@ as int),
        forall|k: int, m: int|
            0 <= k < pairs.len() && 0 <= m < r[pairs[k].1@ as int].exclusions@.len() && (#[trigger] r[(#[trigger] pairs[k]).1@ as int].exclusions@[m]).0
                == pairs[k].0 ==> has_season(r[pairs[k].1@ as int].exclusions@[m].1, pairs[k].2@ as int),
{
    assert forall|k: int| 0 <= k < pairs.len() implies r[(#[trigger] pairs[k]).0@ as int].exclusions@.map_values(
        |e: (IID, Seasons)| e.0,
    ).contains(pairs[k].1) && r[pairs[k].1@ as int].exclusions@.map_values(
        |e: (IID, Seasons)| e.0,
    ).contains(pairs[k].0) by {
        lemma_exclusion_recorded(pairs, r, n, k);
        let ea = r[pairs[k].0@ as int].exclusions@;
        let eb = r[pairs[k].1@ as int].exclusions@;
        let m = choose|m: int|
            0 <= m < ea.len() && ea[m].0 == pairs[k].1 && has_season(ea[m].1, pairs[k].2@ as int);
        assert(ea.map_values(|e: (IID, Seasons)| e.0)[m] == pairs[k].1);
        let w = choose|w: int|
            0 <= w < eb.len() && eb[w].0 == pairs[k].0 && has_season(eb[w].1, pairs[k].2@ as int);
        assert(eb.map_values(|e: (IID, Seasons)| e.0)[w] == pairs[k].0);
    }
    assert forall|k: int, m: int|
        0 <= k < pairs.len() && 0 <= m < r[pairs[k].0@ as int].exclusions@.len() && (#[trigger] r[(#[trigger] pairs[k]).0@ as int].exclusions@[m]).0
            == pairs[k].1 implies has_season(r[pairs[k].0@ as int].exclusions@[m].1, pairs[k].2@ as int) by {
        lemma_exclusion_recorded(pairs, r, n, k);
        let ea = r[pairs[k].0@ as int].exclusions@;
        let w = choose|w: int|
            0 <= w < ea.len() && ea[w].0 == pairs[k].1 && has_season(ea[w].1, pairs[k].2@ as int);
        assert(sorted_by_intervention(ea));
        if w != m {
            if w < m {
                assert(ea[w].0@ < ea[m].0@);
            } else {
                assert(ea[m].0@ < ea[w].0@);
            }
        }
    }
    assert forall|k: int, m: int|
        0 <= k < pairs.len() && 0 <= m < r[pairs[k].1@ as int].exclusions@.len() && (#[trigger] r[(#[trigger] pairs[k]).1@ as int].exclusions@[m]).0
            == pairs[k].0 implies has_season(r[pairs[k].1@ as int].exclusions@[m].1, pairs[k].2@ as int) by {
        lemma_exclusion_recorded(pairs, r, n, k);
        let eb = r[pairs[k].1@ as int].exclusions@;
        let w = choose|w: int|
            0 <= w < eb.len() && eb[w].0 == pairs[k].0 && has_season(eb[w].1, pairs[k].2@ as int);
        assert(sorted_by_intervention(eb));
        if w != m {
            if w < m {
                assert(eb[w].0@ < eb[m].0@);
            } else {
                assert(eb[m].0@ < eb[w].0@);
            }
        }
    }
}

/// Every season of an entry of the exclusions that `compute_exclusions`
/// describes comes from an exclusion read between the two interventions.
pub proof fn lemma_exclusion_read(
    pairs: Seq<(IID, IID, SID)>,
    r: Seq<InterventionExclusions>,
    n: int,
    i: int,
    m: int,
    s: int,
)
    requires
        r.len() == n,
        0 <= i < n,
        0 <= m < r[i].exclusions@.len(),
        has_season(r[i].exclusions@[m].1, s),
        forall|i: int, j: int, s: int|
            0 <= i < n ==> (#[trigger] entry_has(r[i].exclusions@, j, s) <==> paired(
                pairs,
                i,
                j,
                s,
            )),
    ensures
        exists|k: int|
            0 <= k < pairs.len() && (#[trigger] pairs[k]).2@ == s && ((pairs[k].0@ == i
                && pairs[k].1 == r[i].exclusions@[m].0) || (pairs[k].1@ == i && pairs[k].0
                == r[i].exclusions@[m].0)),
{
    let ex = r[i].exclusions@;
    let j = ex[m].0@ as int;
    assert(entry_has(ex, j, s)) by {
        assert(ex[m].0@ == j);
    }
    assert(paired(pairs, i, j, s));
    let k = choose|k: int|
        0 <= k < pairs.len() && (#[trigger] pairs[k]).2@ == s && ((pairs[k].0@ == i
            && pairs[k].1@ == j) || (pairs[k].0@ == j && pairs[k].1@ == i));
    IID::lemma_same_number(pairs[k].1, ex[m].0);
    IID::lemma_same_number(pairs[k].0, ex[m].0);
}

/// The exclusions of each of the `ninterventions` interventions, from the
/// exclusions read from the document, each of them a pair of interventions
/// and a season: an intervention is excluded with another for a season
/// exactly when some exclusion names both of them (in either order) with
/// that season.
pub fn compute_exclusions(
    pairs: &[(IID, IID, SID)],
    ninterventions: usize,
    nseasons: usize,
) -> (r: Vec<InterventionExclusions>)
    requires
        forall|k: int|
            0 <= k < pairs@.len() ==> (#[trigger] pairs@[k]).0@ < ninterventions
                && pairs@[k].1@ < ninterventions && pairs@[k].2@ < nseasons,
    ensures
        r@.len() == ninterventions,
        forall|i: int|
            0 <= i < ninterventions ==> (#[trigger] r@[i]).wf() && entries_sized(
                r@[i].exclusions@,
                nseasons as nat,
            ) && entries_clean(r@[i].exclusions@),
        forall|i: int, j: int|
            0 <= i < ninterventions ==> (#[trigger] has_entry(r@[i].exclusions@, j)
                <==> paired_any(pairs@, i, j)),
        forall|i: int, j: int, s: int|
            0 <= i < ninterventions ==> (#[trigger] entry_has(r@[i].exclusions@, j, s)
                <==> paired(pairs@, i, j, s)),
        forall|k: int|
            0 <= k < pairs@.len() ==> r@[(#[trigger] pairs@[k]).0@ as int].exclusions@.map_values(
                |e: (IID, Seasons)| e.0,
            ).contains(pairs@[k].1),
        forall|k: int|
            0 <= k < pairs@.len() ==> r@[(#[trigger] pairs@[k]).1@ as int].exclusions@.map_values(
                |e: (IID, Seasons)| e.0,
            ).contains(pairs@[k].0),
        forall|k: int, m: int|
            0 <= k < pairs@.len() && 0 <= m < r@[pairs@[k].0@ as int].exclusions@.len() && (#[trigger] r@[(#[trigger] pairs@[k]).0@ as int].exclusions@[m]).0
                == pairs@[k].1 ==> has_season(r@[pairs@[k].0@ as int].exclusions@[m].1, pairs@[k].2@ as int),
        forall|k: int, m: int|
            0 <= k < pairs@.len() && 0 <= m < r@[pairs@[k].1@ as int].exclusions@.len() && (#[trigger] r@[(#[trigger] pairs@[k]).1@ as int].exclusions@[m]).0
                == pairs@[k].0 ==> has_season(r@[pairs@[k].1@ as int].exclusions@[m].1, pairs@[k].2@ as int),
        forall|i: int, m: int, s: int|
            0 <= i < ninterventions && 0 <= m < r@[i].exclusions@.len() && #[trigger] has_season(
                r@[i].exclusions@[m].1,
                s,
            ) ==> exists|k: int|
                0 <= k < pairs@.len() && (#[trigger] pairs@[k]).2@ == s && ((pairs@[k].0@ == i
                    && pairs@[k].1 == r@[i].exclusions@[m].0) || (pairs@[k].1@ == i
                    && pairs@[k].0 == r@[i].exclusions@[m].0)),
{
    let mut exclusions: Vec<Vec<(IID, Seasons)>> = Vec::new();
    let mut i: usize = 0;
    while i < ninterventions
        invariant
            0 <= i <= ninterventions,
            exclusions@.len() == i,
            forall|m: int| 0 <= m < i ==> (#[trigger] exclusions@[m])@.len() == 0,
        decreases ninterventions - i,
    {
        exclusions.push(Vec::new());
        i = i + 1;
    }
    let mut n: usize = 0;
    while n < pairs.len()
        invariant
            0 <= n <= pairs@.len(),
            forall|k: int|
                0 <= k < pairs@.len() ==> (#[trigger] pairs@[k]).0@ < ninterventions
                    && pairs@[k].1@ < ninterventions && pairs@[k].2@ < nseasons,
            exclusions@.len() == ninterventions,
            forall|m: int|
                0 <= m < ninterventions ==> sorted_by_intervention(#[trigger] exclusions@[m]@)
                    && entries_sized(exclusions@[m]@, nseasons as nat) && entries_clean(
                    exclusions@[m]@,
                ),
            forall|m: int, j: int|
                0 <= m < ninterventions ==> (#[trigger] has_entry(exclusions@[m]@, j)
                    <==> paired_any(pairs@.take(n as int), m, j)),
            forall|m: int, j: int, s: int|
                0 <= m < ninterventions ==> (#[trigger] entry_has(exclusions@[m]@, j, s)
                    <==> paired(pairs@.take(n as int), m, j, s)),
        decreases pairs@.len() - n,
    {
        let (a, b, season) = pairs[n];
        let (i1, i2) = if a.get() > b.get() {
            (a, b)
        } else {
            (b, a)
        };
        let ghost before = exclusions@;
        update_exclusion(&mut exclusions[i1.get()], i2, season, nseasons);
        let ghost middle = exclusions@;
        update_exclusion(&mut exclusions[i2.get()], i1, season, nseasons);
        proof {
            let pre = pairs@.take(n as int);
            let post = pairs@.take(n + 1);
            assert(post == pre.push(pairs@[n as int]));
            assert forall|m: int, j: int|
                0 <= m < ninterventions implies (#[trigger] has_entry(exclusions@[m]@, j)
                <==> paired_any(post, m, j)) by {
                if paired_any(post, m, j) && !paired_any(pre, m, j) {
                    let k = choose|k: int|
                        0 <= k < post.len() && (((#[trigger] post[k]).0@ == m && post[k].1@ == j)
                            || (post[k].0@ == j && post[k].1@ == m));
                    assert(k == n);
                }
                if paired_any(pre, m, j) {
                    let k = choose|k: int|
                        0 <= k < pre.len() && (((#[trigger] pre[k]).0@ == m && pre[k].1@ == j)
                            || (pre[k].0@ == j && pre[k].1@ == m));
                    assert(post[k] == pre[k]);
                }
                if m == i1@ && j == i2@ || m == i2@ && j == i1@ {
                    assert(post[n as int] == pairs@[n as int]);
                }
            }
            assert forall|m: int, j: int, s: int|
                0 <= m < ninterventions implies (#[trigger] entry_has(exclusions@[m]@, j, s)
                <==> paired(post, m, j, s)) by {
                if paired(post, m, j, s) && !paired(pre, m, j, s) {
                    let k = choose|k: int|
                        0 <= k < post.len() && ((#[trigger] post[k]).2@ == s) && ((post[k].0@ == m
                            && post[k].1@ == j) || (post[k].0@ == j && post[k].1@ == m));
                    assert(k == n);
                }
                if paired(pre, m, j, s) {
                    let k = choose|k: int|
                        0 <= k < pre.len() && ((#[trigger] pre[k]).2@ == s) && ((pre[k].0@ == m
                            && pre[k].1@ == j) || (pre[k].0@ == j && pre[k].1@ == m));
                    assert(post[k] == pre[k]);
                }
                if (m == i1@ && j == i2@ || m == i2@ && j == i1@) && s == season@ {
                    assert(post[n as int] == pairs@[n as int]);
                }
            }
        }
        n = n + 1;
    }
    assert(pairs@.take(pairs@.len() as int) == pairs@);
    let mut r: Vec<InterventionExclusions> = Vec::new();
    let mut i: usize = 0;
    let ghost all = exclusions@;
    while i < ninterventions
        invariant
            0 <= i <= ninterventions,
            all.len() == ninterventions,
            exclusions@.len() == ninterventions - i,
            forall|m: int| 0 <= m < exclusions@.len() ==> #[trigger] exclusions@[m] == all[m + i],
            r@.len() == i,
            forall|m: int| 0 <= m < i ==> (#[trigger] r@[m]).exclusions@ == all[m]@,
        decreases ninterventions - i,
    {
        let e = exclusions.remove(0);
        r.push(InterventionExclusions { exclusions: e });
        i = i + 1;
    }
    proof {
        lemma_exclusions_recorded(pairs@, r@, ninterventions as int);
        assert forall|i: int, m: int, s: int|
            0 <= i < ninterventions && 0 <= m < r@[i].exclusions@.len() && #[trigger] has_season(
                r@[i].exclusions@[m].1,
                s,
            ) implies exists|k: int|
                0 <= k < pairs@.len() && (#[trigger] pairs@[k]).2@ == s && ((pairs@[k].0@ == i
                    && pairs@[k].1 == r@[i].exclusions@[m].0) || (pairs@[k].1@ == i
                    && pairs@[k].0 == r@[i].exclusions@[m].0)) by {
            lemma_exclusion_read(pairs@, r@, ninterventions as int, i, m, s);
        }
    }
    r
}

/// The season `s` is the season of some day of `period` that has one in
/// `seasons`.
pub open spec fn season_in_period(period: Period, seasons: Seq<SID>, s: int) -> bool {
    exists|d: int| period.has_day(d) && 0 <= d < seasons.len() && (#[trigger] seasons[d])@ == s
}

/// The season of each day of a period that has one, the first and the last
/// day included, is a season of the period; every season of the period is
/// the season of one of its days.
pub proof fn lemma_season_in_period(period: Period, seasons: Seq<SID>, s: int)
    ensures
        forall|d: int|
            period@.0 <= d < period@.0 + period@.1 && 0 <= d < seasons.len() ==> season_in_period(
                period,
                seasons,
                (#[trigger] seasons[d])@ as int,
            ),
        season_in_period(period, seasons, s) ==> exists|d: int|
            period@.0 <= d < period@.0 + period@.1 && 0 <= d < seasons.len() && (
            #[trigger] seasons[d])@ == s,
{
    assert forall|d: int|
        period@.0 <= d < period@.0 + period@.1 && 0 <= d < seasons.len() implies season_in_period(
        period,
        seasons,
        (#[trigger] seasons[d])@ as int,
    ) by {
        assert(period.has_day(d));
    }
}

/// The seasons of the days of `period` (days past the end of `seasons`
/// have none), in a set of `nseasons` seasons.
pub fn create_seasons_of_period(period: &Period, seasons: &[SID], nseasons: usize) -> (r: Seasons)
    requires
        period.fits(),
        forall|d: int|
            period.has_day(d) && 0 <= d < seasons@.len() ==> (#[trigger] seasons@[d])@ < nseasons,
    ensures
        season_bits(r).len() == nseasons,
        no_bit_past_length(r),
        forall|s: int| #[trigger] has_season(r, s) <==> season_in_period(*period, seasons@, s),
        forall|d: int|
            period@.0 <= d < period@.0 + period@.1 && 0 <= d < seasons@.len() ==> has_season(
                r,
                (#[trigger] seasons@[d])@ as int,
            ),
        forall|s: int|
            #[trigger] has_season(r, s) ==> exists|d: int|
                period@.0 <= d < period@.0 + period@.1 && 0 <= d < seasons@.len() && (
                #[trigger] seasons@[d])@ == s,
{
    proof {
        use_type_invariant(period);
        period.lemma_non_empty();
    }
    let mut seasons_of_p = Seasons::with_capacity(nseasons);
    let days = period.days_exclusive();
    let mut day = days.0.get();
    while day < days.1.get()
        invariant
            period.fits(),
            forall|d: int|
                period.has_day(d) && 0 <= d < seasons@.len() ==> (#[trigger] seasons@[d])@
                    < nseasons,
            days.0@ == period.first(),
            days.1@ == period.stop(),
            period.first() <= day <= period.stop(),
            season_bits(seasons_of_p).len() == nseasons,
            no_bit_past_length(seasons_of_p),
            forall|s: int|
                #[trigger] has_season(seasons_of_p, s) <==> exists|d: int|
                    period.first() <= d < day && 0 <= d < seasons@.len() && (#[trigger] seasons@[d])@
                        == s,
        decreases period.stop() - day,
    {
        if day < seasons.len() {
            let sid = seasons[day].get();
            let ghost before = seasons_of_p;
            seasons_of_p.set(sid, true);
            proof {
                assert forall|s: int|
                    #[trigger] has_season(seasons_of_p, s) <==> exists|d: int|
                        period.first() <= d < day + 1 && 0 <= d < seasons@.len() && (
                        #[trigger] seasons@[d])@ == s by {
                    if has_season(seasons_of_p, s) {
                        if s == sid {
                            assert(seasons@[day as int]@ == s);
                        } else {
                            assert(has_season(before, s));
                            let d = choose|d: int|
                                period.first() <= d < day && 0 <= d < seasons@.len() && (
                                #[trigger] seasons@[d])@ == s;
                            assert(seasons@[d]@ == s);
                        }
                    }
                    if exists|d: int|
                        period.first() <= d < day + 1 && 0 <= d < seasons@.len() && (
                        #[trigger] seasons@[d])@ == s {
                        let d = choose|d: int|
                            period.first() <= d < day + 1 && 0 <= d < seasons@.len() && (
                            #[trigger] seasons@[d])@ == s;
                        if d < day {
                            assert(has_season(before, s));
                        }
                        assert(has_season(seasons_of_p, s));
                    }
                }
            }
        } else {
            proof {
                assert forall|s: int|
                    #[trigger] has_season(seasons_of_p, s) <==> exists|d: int|
                        period.first() <= d < day + 1 && 0 <= d < seasons@.len() && (
                        #[trigger] seasons@[d])@ == s by {
                    if exists|d: int|
                        period.first() <= d < day + 1 && 0 <= d < seasons@.len() && (
                        #[trigger] seasons@[d])@ == s {
                        let d = choose|d: int|
                            period.first() <= d < day + 1 && 0 <= d < seasons@.len() && (
                            #[trigger] seasons@[d])@ == s;
                        assert(d < day);
                    }
                }
            }
        }
        day = day + 1;
    }
    proof {
        assert forall|s: int| #[trigger] has_season(seasons_of_p, s) <==> season_in_period(
            *period,
            seasons@,
            s,
        ) by {
            lemma_season_in_period(*period, seasons@, s);
        }
        assert forall|d: int|
            period@.0 <= d < period@.0 + period@.1 && 0 <= d < seasons@.len() implies has_season(
            seasons_of_p,
            (#[trigger] seasons@[d])@ as int,
        ) by {
            lemma_season_in_period(*period, seasons@, seasons@[d]@ as int);
        }
        assert forall|s: int| #[trigger] has_season(seasons_of_p, s) implies exists|d: int|
            period@.0 <= d < period@.0 + period@.1 && 0 <= d < seasons@.len() && (
            #[trigger] seasons@[d])@ == s by {
            lemma_season_in_period(*period, seasons@, s);
        }
    }
    seasons_of_p
}

/// The seasons of each of `periods` (see `create_seasons_of_period`).
pub fn create_seasons_of_periods(periods: &[Period], seasons: &[SID], nseasons: usize) -> (r: Vec<
    Seasons,
>)
    requires
        forall|k: int| 0 <= k < periods@.len() ==> (#[trigger] periods@[k]).fits(),
        forall|k: int, d: int|
            0 <= k < periods@.len() && (#[trigger] periods@[k]).has_day(d) && 0 <= d
                < seasons@.len() ==> (#[trigger] seasons@[d])@ < nseasons,
    ensures
        r@.len() == periods@.len(),
        forall|k: int|
            0 <= k < periods@.len() ==> season_bits(#[trigger] r@[k]).len() == nseasons
                && no_bit_past_length(r@[k]),
        forall|k: int, s: int|
            0 <= k < periods@.len() ==> (#[trigger] has_season(r@[k], s) <==> season_in_period(
                periods@[k],
                seasons@,
                s,
            )),
{
    let mut r: Vec<Seasons> = Vec::new();
    let mut k: usize = 0;
    while k < periods.len()
        invariant
            0 <= k <= periods@.len(),
            forall|m: int| 0 <= m < periods@.len() ==> (#[trigger] periods@[m]).fits(),
            forall|m: int, d: int|
                0 <= m < periods@.len() && (#[trigger] periods@[m]).has_day(d) && 0 <= d
                    < seasons@.len() ==> (#[trigger] seasons@[d])@ < nseasons,
            r@.len() == k,
            forall|m: int|
                0 <= m < k ==> season_bits(#[trigger] r@[m]).len() == nseasons
                    && no_bit_past_length(r@[m]),
            forall|m: int, s: int|
                0 <= m < k ==> (#[trigger] has_season(r@[m], s) <==> season_in_period(
                    periods@[m],
                    seasons@,
                    s,
                )),
        decreases periods@.len() - k,
    {
        let p = &periods[k];
        assert(p.fits());
        assert forall|d: int| p.has_day(d) && 0 <= d < seasons@.len() implies (
        #[trigger] seasons@[d])@ < nseasons by {
            assert(periods@[k as int].has_day(d));
        }
        r.push(create_seasons_of_period(p, seasons, nseasons));
        k = k + 1;
    }
    r
}

/// The first `n` periods of an intervention end within the horizon of
/// `ndays` days: the period starting on day `k` lasts `delta[k] + 1` days.
pub open spec fn within_horizon(delta: Seq<SerdeDay>, ndays: int, n: int) -> bool {
    forall|k: int| 0 <= k < n ==> k + (#[trigger] delta[k])@ < ndays
}

/// The periods of an intervention: the one starting on day `k` lasts
/// `delta[k] + 1` days, and the periods are taken in order as long as they
/// end within the `ndays` days of the horizon.
pub fn intervention_periods(delta: &[SerdeDay], ndays: usize) -> (r: Vec<Period>)
    requires
        ndays >= 1,
        forall|k: int|
            0 <= k < delta@.len() && within_horizon(delta@, ndays as int, k) ==> k + (
            #[trigger] delta@[k])@ < usize::MAX,
    ensures
        r@.len() <= delta@.len(),
        within_horizon(delta@, ndays as int, r@.len() as int),
        forall|k: int| 0 <= k < r@.len() ==> k + (#[trigger] delta@[k])@ < ndays,
        forall|k: int| 0 <= k < r@.len() ==> (#[trigger] r@[k]).stop() <= ndays,
        r@.len() < delta@.len() ==> r@.len() + delta@[r@.len() as int]@ >= ndays,
        forall|k: int|
            0 <= k < r@.len() ==> (#[trigger] r@[k]).first() == k && r@[k].length() == delta@[k]@
                + 1 && r@[k].fits(),
{
    let last_day = Day::new(ndays - 1);
    let mut periods: Vec<Period> = Vec::new();
    let mut k: usize = 0;
    while k < delta.len()
        invariant_except_break
            periods@.len() == k,
        invariant
            ndays >= 1,
            last_day@ == ndays - 1,
            0 <= k <= delta@.len(),
            periods@.len() <= k,
            forall|m: int|
                0 <= m < delta@.len() && within_horizon(delta@, ndays as int, m) ==> m + (
                #[trigger] delta@[m])@ < usize::MAX,
            within_horizon(delta@, ndays as int, periods@.len() as int),
            forall|m: int|
                0 <= m < periods@.len() ==> (#[trigger] periods@[m]).first() == m
                    && periods@[m].length() == delta@[m]@ + 1 && periods@[m].fits(),
        ensures
            periods@.len() < delta@.len() ==> periods@.len() + delta@[periods@.len() as int]@
                >= ndays,
        decreases delta@.len() - k,
    {
        let start: Day = SerdeDay::new(k).into();
        let duration: Day = (delta[k] + SerdeDay::new(1)).into();
        let p = Period::new(start, duration).unwrap();
        if p.end().get() > last_day.get() {
            break;
        }
        periods.push(p);
        k = k + 1;
    }
    periods
}

/// The total number of risk values of the first `n` periods, with
/// `nscenarios` values per day.
pub open spec fn risk_values_before(periods: Seq<Period>, nscenarios: int, n: int) -> int
    decreases n,
{
    if n <= 0 {
        0
    } else {
        risk_values_before(periods, nscenarios, n - 1) + periods[n - 1].length() * nscenarios
    }
}

/// The number of risk values before a period grows with the period.
pub proof fn lemma_risk_values_grow(periods: Seq<Period>, nscenarios: int, a: int, b: int)
    requires
        0 <= a <= b <= periods.len(),
        nscenarios >= 0,
        forall|k: int| 0 <= k < periods.len() ==> (#[trigger] periods[k]).length() >= 0,
    ensures
        risk_values_before(periods, nscenarios, a) <= risk_values_before(periods, nscenarios, b),
    decreases b - a,
{
    if a < b {
        lemma_risk_values_grow(periods, nscenarios, a, b - 1);
        let l = periods[b - 1].length();
        assert(l * nscenarios >= 0) by (nonlinear_arith)
            requires
                l >= 0,
                nscenarios >= 0,
        ;
    }
}

/// Where the risk values of each period start, when each period has
/// `nscenarios` values per day and the periods follow one another; the
/// last offset is the total number of values.
pub fn risk_period_offsets(periods: &[Period], nscenarios: usize) -> (r: Vec<usize>)
    requires
        risk_values_before(periods@, nscenarios as int, periods@.len() as int) <= usize::MAX,
    ensures
        r@.len() == periods@.len() + 1,
        r@[0] == 0,
        forall|k: int|
            0 <= k < periods@.len() ==> r@[k + 1] == r@[k] + (#[trigger] periods@[k]).length()
                * nscenarios,
        forall|k: int|
            0 <= k <= periods@.len() ==> (#[trigger] r@[k]) == risk_values_before(
                periods@,
                nscenarios as int,
                k,
            ),
{
    let mut r: Vec<usize> = Vec::new();
    r.push(0);
    let mut state: usize = 0;
    let mut k: usize = 0;
    while k < periods.len()
        invariant
            0 <= k <= periods@.len(),
            risk_values_before(periods@, nscenarios as int, periods@.len() as int) <= usize::MAX,
            r@.len() == k + 1,
            state == risk_values_before(periods@, nscenarios as int, k as int),
            forall|m: int|
                0 <= m <= k ==> (#[trigger] r@[m]) == risk_values_before(
                    periods@,
                    nscenarios as int,
                    m,
                ),
        decreases periods@.len() - k,
    {
        let d = periods[k].duration().get();
        proof {
            assert forall|m: int| 0 <= m < periods@.len() implies (#[trigger] periods@[m]).length()
                >= 0 by {
                periods@[m].lemma_bounds();
            }
            lemma_risk_values_grow(periods@, nscenarios as int, k + 1, periods@.len() as int);
            let l = periods@[k as int].length();
            assert(0 <= l * nscenarios) by (nonlinear_arith)
                requires
                    l >= 0,
            ;
        }
        state = state + d * nscenarios;
        r.push(state);
        k = k + 1;
    }
    r
}

/// `len` copies of `v`.
pub open spec fn filled<F>(len: nat, v: F) -> Seq<F> {
    Seq::new(len, |p: int| v)
}

/// `vals` with `values` written from position `at` on.
pub open spec fn write_at<F>(vals: Seq<F>, at: int, values: Seq<F>) -> Seq<F> {
    Seq::new(vals.len(), |p: int| if at <= p < at + values.len() { values[p - at] } else { vals[p] })
}

/// Where the risk values of day `current` of the period starting on day
/// `start` go: the periods follow one another, with `nscenarios` values
/// per day.
pub open spec fn risk_slot(periods: Seq<Period>, nscenarios: int, current: int, start: int) -> int {
    risk_values_before(periods, nscenarios, start) + (current - start) * nscenarios
}

/// An entry of the risks of a document (a day, the starting day of a
/// period, the values of the scenarios) names a day of the period starting
/// on a day that has one, with at most `nscenarios` values.
pub open spec fn risk_entry_fits<F>(
    periods: Seq<Period>,
    nscenarios: int,
    e: (SerdeDay, SerdeDay, Vec<F>),
) -> bool {
    &&& e.1@ < periods.len()
    &&& e.1@ <= e.0@
    &&& e.0@ - e.1@ < periods[e.1@ as int].length()
    &&& e.2@.len() <= nscenarios
}

/// The risk values once the entries, one after the other, have written
/// their values in their slots over `base`.
pub open spec fn placed_risks<F>(
    periods: Seq<Period>,
    nscenarios: int,
    entries: Seq<(SerdeDay, SerdeDay, Vec<F>)>,
    base: Seq<F>,
) -> Seq<F>
    decreases entries.len(),
{
    if entries.len() == 0 {
        base
    } else {
        let e = entries.last();
        write_at(
            placed_risks(periods, nscenarios, entries.drop_last(), base),
            risk_slot(periods, nscenarios, e.0@ as int, e.1@ as int),
            e.2@,
        )
    }
}

/// Placing the risk values of the entries keeps the number of values.
pub proof fn lemma_placed_risks_len<F>(
    periods: Seq<Period>,
    nscenarios: int,
    entries: Seq<(SerdeDay, SerdeDay, Vec<F>)>,
    base: Seq<F>,
)
    ensures
        placed_risks(periods, nscenarios, entries, base).len() == base.len(),
    decreases entries.len(),
{
    if entries.len() > 0 {
        lemma_placed_risks_len(periods, nscenarios, entries.drop_last(), base);
    }
}

proof fn lemma_risk_slots_apart(
    periods: Seq<Period>,
    n: int,
    c1: int,
    s1: int,
    j1: int,
    c2: int,
    s2: int,
    j2: int,
)
    requires
        n > 0,
        forall|m: int| 0 <= m < periods.len() ==> (#[trigger] periods[m]).length() >= 0,
        0 <= s1 <= c1,
        s1 < periods.len(),
        c1 - s1 < periods[s1].length(),
        0 <= s2 <= c2,
        s2 < periods.len(),
        c2 - s2 < periods[s2].length(),
        0 <= j1 < n,
        0 <= j2 < n,
        c1 != c2 || s1 != s2,
    ensures
        risk_slot(periods, n, c1, s1) + j1 != risk_slot(periods, n, c2, s2) + j2,
{
    let d1 = c1 - s1;
    let d2 = c2 - s2;
    let l1 = periods[s1].length();
    let l2 = periods[s2].length();
    assert(0 <= d1 * n && 0 <= d2 * n) by (nonlinear_arith)
        requires
            0 <= d1,
            0 <= d2,
            0 <= n,
    ;
    assert(d1 * n + j1 < l1 * n) by (nonlinear_arith)
        requires
            0 <= d1 < l1,
            0 <= j1 < n,
    ;
    assert(d2 * n + j2 < l2 * n) by (nonlinear_arith)
        requires
            0 <= d2 < l2,
            0 <= j2 < n,
    ;
    if s1 == s2 {
        assert(d1 * n + j1 != d2 * n + j2) by (nonlinear_arith)
            requires
                d1 != d2,
                0 <= j1 < n,
                0 <= j2 < n,
        ;
    } else if s1 < s2 {
        lemma_risk_values_grow(periods, n, s1 + 1, s2);
    } else {
        lemma_risk_values_grow(periods, n, s2 + 1, s1);
    }
}

/// The place of the value of the scenario `j` of the entry `e`.
pub open spec fn risk_place<F>(
    periods: Seq<Period>,
    nscenarios: int,
    e: (SerdeDay, SerdeDay, Vec<F>),
    j: int,
) -> int {
    risk_slot(periods, nscenarios, e.0@ as int, e.1@ as int) + j
}

/// A risk value of an entry is found at its place (the entry's slot, then
/// the position of the scenario) unless a later entry names the same day
/// and period; a place that no entry names keeps its value of `base`.
pub proof fn lemma_risk_entries_placed<F>(
    periods: Seq<Period>,
    nscenarios: int,
    entries: Seq<(SerdeDay, SerdeDay, Vec<F>)>,
    base: Seq<F>,
    pos: int,
)
    requires
        nscenarios > 0,
        0 <= pos < base.len(),
        forall|k: int|
            0 <= k < entries.len() ==> risk_entry_fits(periods, nscenarios, #[trigger] entries[k]),
    ensures
        forall|k: int, j: int|
            0 <= k < entries.len() && 0 <= j < entries[k].2@.len() && pos == #[trigger] risk_place(
                periods,
                nscenarios,
                entries[k],
                j,
            ) && (forall|m: int|
                k < m < entries.len() ==> !((#[trigger] entries[m]).0 == entries[k].0
                    && entries[m].1 == entries[k].1)) ==> placed_risks(
                periods,
                nscenarios,
                entries,
                base,
            )[pos] == entries[k].2@[j],
        (forall|k: int, j: int|
            0 <= k < entries.len() && 0 <= j < entries[k].2@.len() ==> pos != #[trigger] risk_place(
                periods,
                nscenarios,
                entries[k],
                j,
            ))
            ==> placed_risks(periods, nscenarios, entries, base)[pos] == base[pos],
    decreases entries.len(),
{
    if entries.len() > 0 {
        let rest = entries.drop_last();
        let last = entries.len() - 1;
        let e = entries[last];
        assert forall|m: int| 0 <= m < rest.len() implies #[trigger] rest[m] == entries[m] by {}
        lemma_risk_entries_placed(periods, nscenarios, rest, base, pos);
        lemma_placed_risks_len(periods, nscenarios, rest, base);
        assert forall|m: int| 0 <= m < periods.len() implies (#[trigger] periods[m]).length()
            >= 0 by {
            periods[m].lemma_bounds();
        }
        let at = risk_slot(periods, nscenarios, e.0@ as int, e.1@ as int);
        assert(risk_entry_fits(periods, nscenarios, e));
        assert forall|k: int, j: int|
            0 <= k < entries.len() && 0 <= j < entries[k].2@.len() && pos == #[trigger] risk_place(
                periods,
                nscenarios,
                entries[k],
                j,
            ) && (forall|m: int|
                k < m < entries.len() ==> !((#[trigger] entries[m]).0 == entries[k].0
                    && entries[m].1 == entries[k].1)) implies placed_risks(
            periods,
            nscenarios,
            entries,
            base,
        )[pos] == entries[k].2@[j] by {
            if k < last {
                assert(risk_entry_fits(periods, nscenarios, entries[k]));
                assert(!(entries[last].0 == entries[k].0 && entries[last].1 == entries[k].1));
                assert(!(pos >= at && pos < at + e.2@.len())) by {
                    if at <= pos < at + e.2@.len() {
                        lemma_risk_slots_apart(
                            periods,
                            nscenarios,
                            entries[k].0@ as int,
                            entries[k].1@ as int,
                            j,
                            e.0@ as int,
                            e.1@ as int,
                            pos - at,
                        );
                    }
                }
                assert(rest[k] == entries[k]);
                assert forall|m: int| k < m < rest.len() implies !((#[trigger] rest[m]).0
                    == rest[k].0 && rest[m].1 == rest[k].1) by {
                    assert(rest[m] == entries[m]);
                }
            }
        }
        if forall|k: int, j: int|
            0 <= k < entries.len() && 0 <= j < entries[k].2@.len() ==> pos != #[trigger] risk_place(
                periods,
                nscenarios,
                entries[k],
                j,
            ) {
            if at <= pos < at + e.2@.len() {
                assert(pos == risk_place(periods, nscenarios, entries[last], pos - at));
            }
            assert forall|k: int, j: int|
                0 <= k < rest.len() && 0 <= j < rest[k].2@.len() implies pos != #[trigger] risk_place(
                    periods,
                    nscenarios,
                    rest[k],
                    j,
                ) by {
                assert(rest[k] == entries[k]);
            }
        }
    }
}

/// The risks of an intervention from the entries of a document: the values
/// of all its periods, one period after the other, `nscenarios` values per
/// day, start as `zero`; each entry (a day, the starting day of a period,
/// the values of the scenarios) writes its values in its slot; the sums are
/// made by groups of `nscenarios` values.
pub fn create_risks<F: Copy + Add<Output = F>>(
    entries: &[(SerdeDay, SerdeDay, Vec<F>)],
    periods: &[Period],
    nscenarios: usize,
    zero: F,
) -> (r: Risks<F>)
    requires
        nscenarios > 0,
        risk_values_before(periods@, nscenarios as int, periods@.len() as int) <= usize::MAX,
        forall|k: int|
            0 <= k < entries@.len() ==> risk_entry_fits(
                periods@,
                nscenarios as int,
                #[trigger] entries@[k],
            ),
        (forall|a: F, b: F| #[trigger] a.add_req(b)) || (F::obeys_add_spec() && group_sums_defined(
            placed_risks(
                periods@,
                nscenarios as int,
                entries@,
                filled(
                    risk_values_before(periods@, nscenarios as int, periods@.len() as int) as nat,
                    zero,
                ),
            ),
            nscenarios as nat,
        )),
    ensures
        r.spec_nscenarios() == nscenarios,
        r.offsets().len() == periods@.len() + 1,
        forall|k: int|
            0 <= k <= periods@.len() ==> (#[trigger] r.offsets()[k]) == risk_values_before(
                periods@,
                nscenarios as int,
                k,
            ),
        r.values_seq() == placed_risks(
            periods@,
            nscenarios as int,
            entries@,
            filled(
                risk_values_before(periods@, nscenarios as int, periods@.len() as int) as nat,
                zero,
            ),
        ),
        r.values_seq().len() == risk_values_before(periods@, nscenarios as int, periods@.len() as int),
        r.summed_seq().len() == group_count(r.values_seq().len(), nscenarios as nat),
        F::obeys_add_spec() ==> r.summed_seq() == group_totals(r.values_seq(), nscenarios as nat),
{
    let ghost n = nscenarios as int;
    let ghost all = periods@;
    let offsets = risk_period_offsets(periods, nscenarios);
    let total = offsets[periods.len()];
    let mut values: Vec<F> = Vec::new();
    let mut i: usize = 0;
    while i < total
        invariant
            0 <= i <= total,
            values@ == filled(i as nat, zero),
        decreases total - i,
    {
        values.push(zero);
        i = i + 1;
        assert(values@ == filled(i as nat, zero));
    }
    proof {
        assert forall|m: int| 0 <= m < all.len() implies (#[trigger] all[m]).length() >= 0 by {
            all[m].lemma_bounds();
        }
    }
    let mut k: usize = 0;
    while k < entries.len()
        invariant
            n == nscenarios,
            nscenarios > 0,
            all == periods@,
            forall|m: int| 0 <= m < all.len() ==> (#[trigger] all[m]).length() >= 0,
            forall|m: int|
                0 <= m < entries@.len() ==> risk_entry_fits(all, n, #[trigger] entries@[m]),
            offsets@.len() == all.len() + 1,
            forall|m: int|
                0 <= m <= all.len() ==> (#[trigger] offsets@[m]) == risk_values_before(all, n, m),
            total == risk_values_before(all, n, all.len() as int),
            0 <= k <= entries@.len(),
            values@ == placed_risks(all, n, entries@.take(k as int), filled(total as nat, zero)),
        decreases entries@.len() - k,
    {
        let e = &entries[k];
        let c = e.0.get();
        let s = e.1.get();
        let ghost before = values@;
        proof {
            assert(risk_entry_fits(all, n, entries@[k as int]));
            let len_s = all[s as int].length();
            let d = c - s;
            let m = e.2@.len() as int;
            assert(d * n + m <= len_s * n) by (nonlinear_arith)
                requires
                    0 <= d < len_s,
                    0 <= m <= n,
            ;
            assert(0 <= d * n) by (nonlinear_arith)
                requires
                    0 <= d,
                    0 <= n,
            ;
            lemma_risk_values_grow(all, n, s + 1, all.len() as int);
            assert(risk_values_before(all, n, s + 1) == risk_values_before(all, n, s as int)
                + len_s * n);
            lemma_placed_risks_len(all, n, entries@.take(k as int), filled(total as nat, zero));
        }
        let begin = offsets[s] + (c - s) * nscenarios;
        let mut j: usize = 0;
        while j < e.2.len()
            invariant
                begin + e.2@.len() <= values@.len(),
                values@.len() == before.len(),
                before.len() == total,
                0 <= j <= e.2@.len(),
                values@ == write_at(before, begin as int, e.2@.take(j as int)),
            decreases e.2@.len() - j,
        {
            values.set(begin + j, e.2[j]);
            j = j + 1;
            assert(values@ == write_at(before, begin as int, e.2@.take(j as int)));
        }
        proof {
            assert(e.2@.take(e.2@.len() as int) == e.2@);
            assert(entries@.take(k + 1).drop_last() == entries@.take(k as int));
            assert(entries@.take(k + 1).last() == entries@[k as int]);
        }
        k = k + 1;
    }
    proof {
        assert(entries@.take(entries@.len() as int) == entries@);
        lemma_placed_risks_len(all, n, entries@, filled(total as nat, zero));
    }
    Risks::<F>::builder().set_nscenarios(nscenarios).set_periods(offsets).set_risks(values).build()
}

/// The position of the workloads of the resource at position `rpos` for the
/// period starting on day `start`: period after period, resource after
/// resource.
pub open spec fn block(start: int, rpos: int, nresources: int) -> int {
    start * nresources + rpos
}

proof fn lemma_block_order(p: int, rp: int, q: int, rq: int, n: int)
    requires
        0 <= p,
        0 <= q,
        0 <= rp < n,
        0 <= rq < n,
        p < q || (p == q && rp < rq),
    ensures
        block(p, rp, n) < block(q, rq, n),
        block(p, rp, n) < (p + 1) * n,
{
    assert(p * n + rp < (p + 1) * n) by (nonlinear_arith)
        requires
            rp < n,
    ;
    if p < q {
        assert((p + 1) * n <= q * n) by (nonlinear_arith)
            requires
                p + 1 <= q,
                0 <= n,
        ;
    }
}

/// An entry of the workloads of a document (the position of a resource
/// among those of the intervention, a day, the starting day of a period,
/// the workload) names one of the `nresources` resources and a day of the
/// period starting on a day that has one.
pub open spec fn workload_entry_fits<F>(
    periods: Seq<Period>,
    nresources: int,
    e: (usize, SerdeDay, SerdeDay, F),
) -> bool {
    &&& e.0 < nresources
    &&& e.2@ < periods.len()
    &&& e.2@ <= e.1@
    &&& e.1@ - e.2@ < periods[e.2@ as int].length()
}

/// The workloads of the resource at position `rpos` for the period
/// starting on day `start` once the entries, one after the other, have
/// written theirs over `base`.
pub open spec fn placed_workloads<F>(
    entries: Seq<(usize, SerdeDay, SerdeDay, F)>,
    start: int,
    rpos: int,
    base: Seq<F>,
) -> Seq<F>
    decreases entries.len(),
{
    if entries.len() == 0 {
        base
    } else {
        let rest = placed_workloads(entries.drop_last(), start, rpos, base);
        let e = entries.last();
        if e.0 == rpos && e.2@ == start {
            Seq::new(rest.len(), |i: int| if i == e.1@ - e.2@ { e.3 } else { rest[i] })
        } else {
            rest
        }
    }
}

/// Placing the workloads of the entries keeps the number of days.
pub proof fn lemma_placed_workloads_len<F>(
    entries: Seq<(usize, SerdeDay, SerdeDay, F)>,
    start: int,
    rpos: int,
    base: Seq<F>,
)
    ensures
        placed_workloads(entries, start, rpos, base).len() == base.len(),
    decreases entries.len(),
{
    if entries.len() > 0 {
        lemma_placed_workloads_len(entries.drop_last(), start, rpos, base);
    }
}

/// The workload of an entry is found at its day in the workloads of its
/// resource and period, unless a later entry names the same resource, day
/// and period; a day that no entry names keeps its workload of `base`.
pub proof fn lemma_workload_entries_placed<F>(
    entries: Seq<(usize, SerdeDay, SerdeDay, F)>,
    start: int,
    rpos: int,
    base: Seq<F>,
    day: int,
)
    requires
        0 <= day < base.len(),
    ensures
        forall|k: int|
            0 <= k < entries.len() && (#[trigger] entries[k]).0 == rpos && entries[k].2@ == start
                && entries[k].1@ - start == day && (forall|m: int|
                k < m < entries.len() ==> !((#[trigger] entries[m]).0 == rpos && entries[m].2@
                    == start && entries[m].1@ - start == day)) ==> placed_workloads(
                entries,
                start,
                rpos,
                base,
            )[day] == entries[k].3,
        (forall|m: int|
            0 <= m < entries.len() ==> !((#[trigger] entries[m]).0 == rpos && entries[m].2@
                == start && entries[m].1@ - start == day)) ==> placed_workloads(
            entries,
            start,
            rpos,
            base,
        )[day] == base[day],
    decreases entries.len(),
{
    if entries.len() > 0 {
        let rest = entries.drop_last();
        let n = entries.len() - 1;
        lemma_workload_entries_placed(rest, start, rpos, base, day);
        lemma_placed_workloads_len(rest, start, rpos, base);
        assert forall|m: int| 0 <= m < rest.len() implies #[trigger] rest[m] == entries[m] by {}
        assert forall|k: int|
            0 <= k < entries.len() && (#[trigger] entries[k]).0 == rpos && entries[k].2@ == start
                && entries[k].1@ - start == day && (forall|m: int|
                k < m < entries.len() ==> !((#[trigger] entries[m]).0 == rpos && entries[m].2@
                    == start && entries[m].1@ - start == day)) implies placed_workloads(
            entries,
            start,
            rpos,
            base,
        )[day] == entries[k].3 by {
            if k < n {
                assert(!(entries[n].0 == rpos && entries[n].2@ == start && entries[n].1@ - start
                    == day));
                assert(rest[k] == entries[k]);
                assert forall|m: int| k < m < rest.len() implies !((#[trigger] rest[m]).0 == rpos
                    && rest[m].2@ == start && rest[m].1@ - start == day) by {
                    assert(rest[m] == entries[m]);
                }
            }
        }
    }
}

/// The workloads of an intervention from the entries of a document: for
/// each period, in order, and each of the `nresources` resources, the
/// position of the resource and one workload per day of the period, which
/// starts as `zero`; each entry (the position of a resource, a day, the
/// starting day of a period, the workload) writes its workload at its day.
pub fn create_workloads<F: Copy>(
    entries: &[(usize, SerdeDay, SerdeDay, F)],
    periods: &[Period],
    nresources: usize,
    zero: F,
) -> (r: Vec<(usize, Vec<F>)>)
    requires
        periods@.len() * nresources <= usize::MAX,
        forall|k: int|
            0 <= k < entries@.len() ==> workload_entry_fits(
                periods@,
                nresources as int,
                #[trigger] entries@[k],
            ),
    ensures
        r@.len() == periods@.len() * nresources,
        forall|p: int, rp: int|
            0 <= p < periods@.len() && 0 <= rp < nresources ==> {
                let b = #[trigger] r@[block(p, rp, nresources as int)];
                &&& b.0 == rp
                &&& b.1@ == placed_workloads(
                    entries@,
                    p,
                    rp,
                    filled(periods@[p].length() as nat, zero),
                )
            },
{
    let ghost nr = nresources as int;
    let ghost all = periods@;
    let mut r: Vec<(usize, Vec<F>)> = Vec::new();
    let mut p: usize = 0;
    while p < periods.len()
        invariant
            nr == nresources,
            all == periods@,
            all.len() * nr <= usize::MAX,
            0 <= p <= all.len(),
            r@.len() == p * nr,
            forall|q: int, rq: int|
                0 <= q < p && 0 <= rq < nr ==> {
                    let b = #[trigger] r@[block(q, rq, nr)];
                    &&& b.0 == rq
                    &&& b.1@ == filled(all[q].length() as nat, zero)
                },
        decreases all.len() - p,
    {
        let len = periods[p].duration().get();
        let ghost before = r@;
        let mut rp: usize = 0;
        while rp < nresources
            invariant
                nr == nresources,
                all == periods@,
                0 <= p < all.len(),
                len == all[p as int].length(),
                0 <= rp <= nr,
                r@.len() == p * nr + rp,
                before.len() == p * nr,
                forall|m: int| 0 <= m < before.len() ==> #[trigger] r@[m] == before[m],
                forall|rq: int|
                    0 <= rq < rp ==> {
                        let b = #[trigger] r@[block(p as int, rq, nr)];
                        &&& b.0 == rq
                        &&& b.1@ == filled(len as nat, zero)
                    },
            decreases nr - rp,
        {
            let mut zeros: Vec<F> = Vec::new();
            let mut d: usize = 0;
            while d < len
                invariant
                    0 <= d <= len,
                    zeros@ == filled(d as nat, zero),
                decreases len - d,
            {
                zeros.push(zero);
                d = d + 1;
                assert(zeros@ == filled(d as nat, zero));
            }
            proof {
                assert(p * nr + rp < all.len() * nr) by (nonlinear_arith)
                    requires
                        p < all.len(),
                        rp < nr,
                ;
            }
            r.push((rp, zeros));
            rp = rp + 1;
        }
        proof {
            assert((p + 1) * nr == p * nr + nr) by (nonlinear_arith);
            assert forall|q: int, rq: int|
                0 <= q < p + 1 && 0 <= rq < nr implies {
                    let b = #[trigger] r@[block(q, rq, nr)];
                    &&& b.0 == rq
                    &&& b.1@ == filled(all[q].length() as nat, zero)
                } by {
                if q < p {
                    lemma_block_order(q, rq, p as int, 0, nr);
                    assert(block(q, rq, nr) < (q + 1) * nr);
                    assert((q + 1) * nr <= p * nr) by (nonlinear_arith)
                        requires
                            q + 1 <= p,
                            0 <= nr,
                    ;
                    assert(r@[block(q, rq, nr)] == before[block(q, rq, nr)]);
                }
            }
        }
        p = p + 1;
    }
    let mut k: usize = 0;
    while k < entries.len()
        invariant
            nr == nresources,
            all == periods@,
            all.len() * nr <= usize::MAX,
            forall|m: int|
                0 <= m < entries@.len() ==> workload_entry_fits(all, nr, #[trigger] entries@[m]),
            r@.len() == all.len() * nr,
            0 <= k <= entries@.len(),
            forall|q: int, rq: int|
                0 <= q < all.len() && 0 <= rq < nr ==> {
                    let b = #[trigger] r@[block(q, rq, nr)];
                    &&& b.0 == rq
                    &&& b.1@ == placed_workloads(
                        entries@.take(k as int),
                        q,
                        rq,
                        filled(all[q].length() as nat, zero),
                    )
                },
        decreases entries@.len() - k,
    {
        let e = &entries[k];
        let rpos = e.0;
        let start = e.2.get();
        let day = e.1.get() - start;
        let ghost before = r@;
        proof {
            assert(workload_entry_fits(all, nr, entries@[k as int]));
            lemma_block_order(start as int, rpos as int, all.len() as int, 0, nr);
            assert(block(all.len() as int, 0, nr) == all.len() * nr);
            lemma_placed_workloads_len(
                entries@.take(k as int),
                start as int,
                rpos as int,
                filled(all[start as int].length() as nat, zero),
            );
        }
        let idx = rpos + start * nresources;
        assert(idx == block(start as int, rpos as int, nr));
        r[idx].1.set(day, e.3);
        proof {
            let pre = entries@.take(k as int);
            let post = entries@.take(k + 1);
            assert(post.drop_last() == pre);
            assert(post.last() == entries@[k as int]);
            assert forall|q: int, rq: int|
                0 <= q < all.len() && 0 <= rq < nr implies {
                    let b = #[trigger] r@[block(q, rq, nr)];
                    &&& b.0 == rq
                    &&& b.1@ == placed_workloads(post, q, rq, filled(all[q].length() as nat, zero))
                } by {
                lemma_block_order(q, rq, all.len() as int, 0, nr);
                if q != start || rq != rpos {
                    if q < start || (q == start && rq < rpos) {
                        lemma_block_order(q, rq, start as int, rpos as int, nr);
                    } else {
                        lemma_block_order(start as int, rpos as int, q, rq, nr);
                    }
                    assert(r@[block(q, rq, nr)] == before[block(q, rq, nr)]);
                }
            }
        }
        k = k + 1;
    }
    proof {
        assert(entries@.take(entries@.len() as int) == entries@);
    }
    r
}

/// The exclusions that `compute_exclusions` makes are symmetric: an
/// intervention is excluded with another for a season exactly when the
/// other is excluded with it for that season.
pub proof fn lemma_exclusions_symmetric(
    pairs: Seq<(IID, IID, SID)>,
    exclusions: Seq<InterventionExclusions>,
    i: int,
    j: int,
    s: int,
)
    requires
        0 <= i < exclusions.len(),
        0 <= j < exclusions.len(),
        forall|m: int, k: int, t: int|
            0 <= m < exclusions.len() ==> (#[trigger] entry_has(exclusions[m].exclusions@, k, t)
                <==> paired(pairs, m, k, t)),
    ensures
        entry_has(exclusions[i].exclusions@, j, s) <==> entry_has(exclusions[j].exclusions@, i, s),
{
    assert(entry_has(exclusions[i].exclusions@, j, s) <==> paired(pairs, i, j, s));
    assert(entry_has(exclusions[j].exclusions@, i, s) <==> paired(pairs, j, i, s));
    if paired(pairs, i, j, s) {
        let k = choose|k: int|
            0 <= k < pairs.len() && ((#[trigger] pairs[k]).2@ == s) && ((pairs[k].0@ == i
                && pairs[k].1@ == j) || (pairs[k].0@ == j && pairs[k].1@ == i));
        assert(paired(pairs, j, i, s));
    }
    if paired(pairs, j, i, s) {
        let k = choose|k: int|
            0 <= k < pairs.len() && ((#[trigger] pairs[k]).2@ == s) && ((pairs[k].0@ == j
                && pairs[k].1@ == i) || (pairs[k].0@ == i && pairs[k].1@ == j));
        assert(paired(pairs, i, j, s));
    }
}

} // verus!
