//! Exclusions between interventions: two interventions that are excluded
//! for some seasons cannot both run during one of those seasons.
use crate::seasons::{
    all_enabled, any_season, has_season, insert_all_seasons, no_bit_past_length, season_bits,
    shared_seasons, share_season, Seasons,
};
use crate::types::IID;
use vstd::prelude::*;

verus! {

/// Whether some season belongs to both sets.
#[inline(always)]
pub fn intersect(lhs: &Seasons, rhs: &Seasons) -> (r: bool)
    requires
        no_bit_past_length(*lhs),
        no_bit_past_length(*rhs),
    ensures
        r == share_season(*lhs, *rhs),
{
    !lhs.is_disjoint(rhs)
}

/// The exclusions of one intervention: the interventions it is excluded
/// with, each with the seasons of the exclusion.
#[derive(Debug)]
pub struct InterventionExclusions {
    pub exclusions: Vec<(IID, Seasons)>,
}

/// The identifiers of the entries are strictly increasing.
pub open spec fn sorted_by_intervention(ex: Seq<(IID, Seasons)>) -> bool {
    forall|i: int, j: int| 0 <= i < j < ex.len() ==> #[trigger] ex[i].0@ < #[trigger] ex[j].0@
}

/// No set of seasons of the entries has a bit set past its length.
pub open spec fn entries_clean(ex: Seq<(IID, Seasons)>) -> bool {
    forall|k: int| 0 <= k < ex.len() ==> no_bit_past_length((#[trigger] ex[k]).1)
}

/// The numbers are strictly increasing.
pub open spec fn increasing(s: Seq<int>) -> bool {
    forall|i: int, j: int| 0 <= i < j < s.len() ==> #[trigger] s[i] < #[trigger] s[j]
}

/// The numbers of the identifiers.
pub open spec fn ids_of(iids: Seq<IID>) -> Seq<int> {
    iids.map_values(|x: IID| x@ as int)
}

/// Some intervention of `iids` has an entry in `ex` whose seasons have none
/// in common with `seasons`.
pub open spec fn excluded_by(ex: Seq<(IID, Seasons)>, seasons: Seasons, iids: Seq<int>) -> bool {
    exists|k: int, n: int|
        #![trigger ex[k], iids[n]]
        0 <= k < ex.len() && 0 <= n < iids.len() && ex[k].0@ == iids[n] && !share_season(
            ex[k].1,
            seasons,
        )
}

/// The interventions of the entries whose seasons have none in common with
/// `seasons`, in the order of the entries.
pub open spec fn excluded_list(ex: Seq<(IID, Seasons)>, seasons: Seasons) -> Seq<IID> {
    ex.filter(|e: (IID, Seasons)| !share_season(e.1, seasons)).map_values(
        |e: (IID, Seasons)| e.0,
    )
}

/// An intervention of `iids` is excluded exactly when it is among the
/// interventions that `excluded_interventions` lists.
pub proof fn lemma_excluded_by_listed(ex: Seq<(IID, Seasons)>, seasons: Seasons, iids: Seq<int>)
    ensures
        excluded_by(ex, seasons, iids) <==> exists|n: int|
            0 <= n < iids.len() && #[trigger] ids_of(excluded_list(ex, seasons)).contains(
                iids[n],
            ),
{
    let keep = |e: (IID, Seasons)| !share_season(e.1, seasons);
    let f = ex.filter(keep);
    let list = excluded_list(ex, seasons);
    if excluded_by(ex, seasons, iids) {
        let (k, n) = choose|k: int, n: int|
            #![trigger ex[k], iids[n]]
            0 <= k < ex.len() && 0 <= n < iids.len() && ex[k].0@ == iids[n] && !share_season(
                ex[k].1,
                seasons,
            );
        ex.lemma_filter_contains(keep, k);
        assert(f.contains(ex[k]));
        let w = choose|w: int| 0 <= w < f.len() && f[w] == ex[k];
        assert(ids_of(list)[w] == iids[n]);
        assert(ids_of(list).contains(iids[n]));
    }
    if exists|n: int|
        0 <= n < iids.len() && #[trigger] ids_of(list).contains(iids[n]) {
        let n = choose|n: int| 0 <= n < iids.len() && #[trigger] ids_of(list).contains(iids[n]);
        let w = choose|w: int| 0 <= w < ids_of(list).len() && ids_of(list)[w] == iids[n];
        ex.lemma_filter_pred(keep, w);
        assert(f.contains(f[w]));
        ex.lemma_filter_contains_rev(keep, f[w]);
        assert(ex.contains(f[w]));
        let k = choose|k: int| 0 <= k < ex.len() && ex[k] == f[w];
        assert(keep(f[w]));
        assert(ex[k].0@ == iids[n] && !share_season(ex[k].1, seasons));
    }
}

/// Every season shared by `a` and `b` is below `bound`.
pub open spec fn shared_below(bound: int, a: Seasons, b: Seasons) -> bool {
    forall|sid: int| has_season(a, sid) && #[trigger] has_season(b, sid) ==> sid < bound
}

/// `cur` without the seasons shared by `a` and `b`.
pub open spec fn remove_shared(cur: Seq<bool>, a: Seasons, b: Seasons) -> Seq<bool> {
    Seq::new(cur.len(), |i: int| cur[i] && !(has_season(a, i) && has_season(b, i)))
}

/// Some bit of `bits` is enabled.
pub open spec fn some_bit(bits: Seq<bool>) -> bool {
    exists|i: int| 0 <= i < bits.len() && #[trigger] bits[i]
}

/// The entry `k` names one of `interventions`, and the seasons that it
/// shares with that intervention are below `bound`.
pub open spec fn entry_readable(
    ex: Seq<(IID, Seasons)>,
    interventions: Seq<Seasons>,
    k: int,
    bound: int,
) -> bool {
    &&& ex[k].0@ < interventions.len()
    &&& no_bit_past_length(ex[k].1)
    &&& shared_below(bound, ex[k].1, interventions[ex[k].0@ as int])
}

/// All the seasons of the first intervention (as many as it has bits)
/// but those that the first entry shares with the intervention it names.
pub open spec fn after_first_entry(ex: Seq<(IID, Seasons)>, interventions: Seq<Seasons>) -> Seq<
    bool,
> {
    remove_shared(
        all_enabled(season_bits(interventions[0]).len()),
        ex[0].1,
        interventions[ex[0].0@ as int],
    )
}

impl InterventionExclusions {
    /// The entries are sorted by intervention, without repetition.
    pub open spec fn wf(&self) -> bool {
        sorted_by_intervention(self.exclusions@)
    }

    /// Searches `iid` among the entries from position `pos` on, by
    /// dichotomy; gives its offset from `pos`.
    fn find_from(&self, pos: usize, iid: IID) -> (r: Option<usize>)
        requires
            pos <= self.exclusions@.len(),
        ensures
            r matches Some(k) ==> pos + k < self.exclusions@.len()
                && self.exclusions@[pos + k].0@ == iid@,
            r is None && self.wf() ==> forall|j: int|
                pos <= j < self.exclusions@.len() ==> (#[trigger] self.exclusions@[j]).0@ != iid@,
    {
        let ghost ex = self.exclusions@;
        let mut lo: usize = pos;
        let mut hi: usize = self.exclusions.len();
        while lo < hi
            invariant
                ex == self.exclusions@,
                pos <= lo <= hi <= ex.len(),
                self.wf() ==> forall|j: int| pos <= j < lo ==> #[trigger] ex[j].0@ < iid@,
                self.wf() ==> forall|j: int| hi <= j < ex.len() ==> #[trigger] ex[j].0@ > iid@,
            decreases hi - lo,
        {
            let mid = lo + (hi - lo) / 2;
            let id = self.exclusions[mid].0.get();
            if id == iid.get() {
                assert(ex[pos + (mid - pos)].0@ == iid@);
                return Some(mid - pos);
            } else if id < iid.get() {
                lo = mid + 1;
            } else {
                hi = mid;
            }
        }
        None
    }

    /// Tests whether some of the interventions `interventions` (identifiers
    /// in increasing order), planned on `seasons`, excludes this
    /// intervention: whether one of them has an entry whose seasons have
    /// none in common with `seasons`. The search for each intervention
    /// starts where the previous one was found, which relies on the order
    /// of the entries and of `interventions`.
    pub fn is_excluded(&self, seasons: &Seasons, interventions: &[IID]) -> (r: bool)
        requires
            entries_clean(self.exclusions@),
            no_bit_past_length(*seasons),
        ensures
            r ==> exists|k: int, n: int|
                #![trigger self.exclusions@[k], interventions@[n]]
                0 <= k < self.exclusions@.len() && 0 <= n < interventions@.len()
                    && self.exclusions@[k].0 == interventions@[n] && !share_season(
                    self.exclusions@[k].1,
                    *seasons,
                ),
            self.wf() && increasing(ids_of(interventions@)) && (exists|k: int, n: int|
                #![trigger self.exclusions@[k], interventions@[n]]
                0 <= k < self.exclusions@.len() && 0 <= n < interventions@.len()
                    && self.exclusions@[k].0 == interventions@[n] && !share_season(
                    self.exclusions@[k].1,
                    *seasons,
                )) ==> r,
            r ==> excluded_by(self.exclusions@, *seasons, ids_of(interventions@)),
            self.wf() && increasing(ids_of(interventions@)) ==> (r <==> excluded_by(
                self.exclusions@,
                *seasons,
                ids_of(interventions@),
            )),
    {
        let ghost ex = self.exclusions@;
        let ghost ids = ids_of(interventions@);
        if self.exclusions.len() == 0 {
            return false;
        }
        let mut pos = 0usize;
        let mut n: usize = 0;
        while n < interventions.len()
            invariant
                ex == self.exclusions@,
                ids == ids_of(interventions@),
                ids.len() == interventions@.len(),
                0 <= n <= interventions@.len(),
                ex.len() <= usize::MAX,
                entries_clean(ex),
                no_bit_past_length(*seasons),
                pos < ex.len(),
                self.wf() && increasing(ids) ==> forall|k: int, m: int|
                    #![trigger ex[k], ids[m]]
                    0 <= k < pos && n <= m < ids.len() ==> ex[k].0@ < ids[m],
                self.wf() && increasing(ids) ==> forall|k: int, m: int|
                    #![trigger ex[k], ids[m]]
                    0 <= k < ex.len() && 0 <= m < n && ex[k].0@ == ids[m] ==> share_season(
                        ex[k].1,
                        *seasons,
                    ),
            decreases interventions@.len() - n,
        {
            let iid = interventions[n];
            assert(ids[n as int] == iid@);
            match self.find_from(pos, iid) {
                Some(idx) => {
                    assert(pos + idx < ex.len());
                    let found = pos + idx;
                    assert(no_bit_past_length(ex[found as int].1));
                    if !intersect(&self.exclusions[found].1, seasons) {
                        assert(ex[found as int].0@ == ids[n as int]);
                        proof {
                            IID::lemma_same_number(ex[found as int].0, interventions@[n as int]);
                        }
                        return true;
                    }
                    proof {
                        if self.wf() && increasing(ids) {
                            assert forall|k: int, m: int|
                                #![trigger ex[k], ids[m]]
                                0 <= k < found && n + 1 <= m < ids.len() implies ex[k].0@
                                < ids[m] by {
                                assert(ex[k].0@ < ex[found as int].0@);
                                assert(ids[n as int] < ids[m]);
                            }
                            assert forall|k: int, m: int|
                                #![trigger ex[k], ids[m]]
                                0 <= k < ex.len() && 0 <= m < n + 1 && ex[k].0@ == ids[m]
                                    implies share_season(ex[k].1, *seasons) by {
                                if m == n && k != found {
                                    if k < found {
                                        assert(ex[k].0@ < ex[found as int].0@);
                                    } else {
                                        assert(ex[found as int].0@ < ex[k].0@);
                                    }
                                }
                            }
                        }
                    }
                    pos = found;
                },
                None => {
                    proof {
                        if self.wf() && increasing(ids) {
                            assert forall|k: int, m: int|
                                #![trigger ex[k], ids[m]]
                                0 <= k < pos && n + 1 <= m < ids.len() implies ex[k].0@
                                < ids[m] by {
                                assert(ex[k].0@ < ids[n as int]);
                                assert(ids[n as int] < ids[m]);
                            }
                            assert forall|k: int, m: int|
                                #![trigger ex[k], ids[m]]
                                0 <= k < ex.len() && 0 <= m < n + 1 && ex[k].0@ == ids[m]
                                    implies share_season(ex[k].1, *seasons) by {
                                if m == n {
                                    if k < pos {
                                        assert(ex[k].0@ < ids[n as int]);
                                    } else {
                                        assert(ex[k].0@ != iid@);
                                    }
                                }
                            }
                        }
                    }
                },
            }
            n = n + 1;
        }
        proof {
            if self.wf() && increasing(ids) && (exists|k: int, n: int|
                #![trigger self.exclusions@[k], interventions@[n]]
                0 <= k < self.exclusions@.len() && 0 <= n < interventions@.len()
                    && self.exclusions@[k].0 == interventions@[n] && !share_season(
                    self.exclusions@[k].1,
                    *seasons,
                )) {
                let (k, m) = choose|k: int, n: int|
                    #![trigger self.exclusions@[k], interventions@[n]]
                    0 <= k < self.exclusions@.len() && 0 <= n < interventions@.len()
                        && self.exclusions@[k].0 == interventions@[n] && !share_season(
                        self.exclusions@[k].1,
                        *seasons,
                    );
                assert(ex[k].0@ == ids[m]);
            }
        }
        false
    }

    /// The interventions whose exclusion seasons are disjoint from `seasons`,
    /// in the order of the entries.
    pub fn excluded_interventions(&self, seasons: &Seasons) -> (r: Vec<IID>)
        requires
            entries_clean(self.exclusions@),
            no_bit_past_length(*seasons),
        ensures
            r@ == excluded_list(self.exclusions@, *seasons),
    {
        let ghost keep = |e: (IID, Seasons)| !share_season(e.1, *seasons);
        let mut r: Vec<IID> = Vec::new();
        let mut i: usize = 0;
        while i < self.exclusions.len()
            invariant
                0 <= i <= self.exclusions@.len(),
                entries_clean(self.exclusions@),
                no_bit_past_length(*seasons),
                keep == (|e: (IID, Seasons)| !share_season(e.1, *seasons)),
                r@ == self.exclusions@.take(i as int).filter(keep).map_values(
                    |e: (IID, Seasons)| e.0,
                ),
            decreases self.exclusions@.len() - i,
        {
            let ghost pre = self.exclusions@.take(i as int);
            let ghost post = self.exclusions@.take(i + 1);
            proof {
                assert(post == pre.push(self.exclusions@[i as int]));
                pre.lemma_filter_push(self.exclusions@[i as int], keep);
            }
            assert(no_bit_past_length(self.exclusions@[i as int].1));
            if self.exclusions[i].1.is_disjoint(seasons) {
                r.push(self.exclusions[i].0);
                assert(post.filter(keep).map_values(|e: (IID, Seasons)| e.0) == pre.filter(
                    keep,
                ).map_values(|e: (IID, Seasons)| e.0).push(self.exclusions@[i as int].0));
            }
            i = i + 1;
        }
        assert(self.exclusions@.take(i as int) == self.exclusions@);
        r
    }

    /// The seasons left once, entry after entry, the seasons shared by the
    /// entry and by the intervention it names (in `interventions`) are taken
    /// out of all the seasons of the first intervention, stopping at the first
    /// entry after which some season is left. As nothing is left to take out
    /// once a first entry has left no season, these are all the seasons but
    /// those shared by the first entry and the intervention it names.
    pub fn possible_seasons(&self, interventions: &[Seasons]) -> (r: Seasons)
        requires
            interventions@.len() > 0,
            self.exclusions@.len() > 0 ==> entry_readable(
                self.exclusions@,
                interventions@,
                0,
                season_bits(interventions@[0]).len() as int,
            ),
            self.exclusions@.len() > 0 && !some_bit(
                after_first_entry(self.exclusions@, interventions@),
            ) ==> forall|k: int|
                0 <= k < self.exclusions@.len() ==> #[trigger] entry_readable(
                    self.exclusions@,
                    interventions@,
                    k,
                    season_bits(interventions@[0]).len() as int,
                ),
        ensures
            no_bit_past_length(r),
            forall|sid: int|
                #[trigger] has_season(r, sid) <==> (0 <= sid < season_bits(interventions@[0]).len()
                    && (self.exclusions@.len() > 0 ==> !(has_season(self.exclusions@[0].1, sid)
                    && has_season(interventions@[self.exclusions@[0].0@ as int], sid)))),
            season_bits(r) == if self.exclusions@.len() == 0 {
                all_enabled(season_bits(interventions@[0]).len())
            } else {
                after_first_entry(self.exclusions@, interventions@)
            },
    {
        let ghost ex = self.exclusions@;
        let ghost len = season_bits(interventions@[0]).len();
        let mut possible = Seasons::with_capacity(interventions[0].len());
        insert_all_seasons(&mut possible);
        let mut k: usize = 0;
        while k < self.exclusions.len()
            invariant
                ex == self.exclusions@,
                0 <= k <= ex.len(),
                interventions@.len() > 0,
                len == season_bits(interventions@[0]).len(),
                len <= usize::MAX,
                ex.len() > 0 ==> entry_readable(ex, interventions@, 0, len as int),
                ex.len() > 0 && !some_bit(after_first_entry(ex, interventions@)) ==> forall|m: int|
                    0 <= m < ex.len() ==> #[trigger] entry_readable(ex, interventions@, m, len as int),
                no_bit_past_length(possible),
                k == 0 ==> season_bits(possible) == all_enabled(len),
                k > 0 ==> season_bits(possible) == after_first_entry(ex, interventions@) && !some_bit(
                    after_first_entry(ex, interventions@),
                ),
            decreases ex.len() - k,
        {
            let ghost cur = season_bits(possible);
            assert(entry_readable(ex, interventions@, k as int, len as int));
            let iid = self.exclusions[k].0.get();
            let seasons = &self.exclusions[k].1;
            let other = &interventions[iid];
            let shared = shared_seasons(seasons, other);
            let mut j: usize = 0;
            while j < shared.len()
                invariant
                    0 <= j <= shared@.len(),
                    no_bit_past_length(possible),
                    cur.len() == len,
                    len <= usize::MAX,
                    shared_below(len as int, *seasons, *other),
                    forall|i: int|
                        0 <= i < shared@.len() ==> has_season(*seasons, #[trigger] shared@[i] as int)
                            && has_season(*other, shared@[i] as int),
                    season_bits(possible) == Seq::new(
                        cur.len(),
                        |i: int| cur[i] && !shared@.take(j as int).contains(i as usize),
                    ),
                decreases shared@.len() - j,
            {
                let sid = shared[j];
                assert(has_season(*seasons, sid as int) && has_season(*other, sid as int));
                let ghost before = season_bits(possible);
                possible.set(sid, false);
                proof {
                    let pre = shared@.take(j as int);
                    let post = shared@.take(j + 1);
                    assert(post == pre.push(sid));
                    assert forall|i: int| 0 <= i < cur.len() implies season_bits(possible)[i] == (
                    cur[i] && !post.contains(i as usize)) by {
                        assert(post.contains(i as usize) <==> pre.contains(i as usize) || i as usize
                            == sid) by {
                            if post.contains(i as usize) {
                                let w = choose|w: int| 0 <= w < post.len() && post[w] == i as usize;
                                if w < pre.len() {
                                    assert(pre[w] == i as usize);
                                }
                            }
                            if pre.contains(i as usize) {
                                let w = choose|w: int| 0 <= w < pre.len() && pre[w] == i as usize;
                                assert(post[w] == i as usize);
                            }
                            if i as usize == sid {
                                assert(post[j as int] == sid);
                            }
                        }
                    }
                    assert(season_bits(possible) =~= Seq::new(
                        cur.len(),
                        |i: int| cur[i] && !post.contains(i as usize),
                    ));
                }
                j = j + 1;
            }
            proof {
                assert(shared@.take(shared@.len() as int) == shared@);
                assert(season_bits(possible) == remove_shared(cur, *seasons, *other)) by {
                    assert forall|i: int| 0 <= i < cur.len() implies season_bits(possible)[i]
                        == remove_shared(cur, *seasons, *other)[i] by {
                        assert((i as usize) as int == i);
                        if has_season(*seasons, i) && has_season(*other, i) {
                            assert(shared@.contains(i as usize));
                        }
                        if shared@.contains(i as usize) {
                            let w = choose|w: int| 0 <= w < shared@.len() && shared@[w] == i as usize;
                            assert(has_season(*seasons, shared@[w] as int));
                        }
                    }
                }
                if k > 0 {
                    assert(remove_shared(cur, *seasons, *other) == cur);
                }
            }
            if any_season(&possible) {
                proof {
                    if k > 0 {
                        let i = choose|i: int| has_season(possible, i);
                        assert(season_bits(possible)[i]);
                    }
                }
                return possible;
            }
            proof {
                assert(!some_bit(season_bits(possible))) by {
                    assert forall|i: int| 0 <= i < season_bits(possible).len() implies !season_bits(
                        possible,
                    )[i] by {
                        assert(!has_season(possible, i));
                    }
                }
            }
            k = k + 1;
        }
        possible
    }
}

} // verus!
