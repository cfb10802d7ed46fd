//! Merging several change feeds into one globally time-ordered batch stream.
//!
//! Each feed delivers batches tagged with a progress watermark: all updates
//! of the batch, and of every earlier batch of the same feed, have logical
//! time strictly below the watermark, and no later update of the feed will
//! have a time below it. The collector tracks the last watermark of every
//! open feed, buffers updates by their own logical time, and releases a
//! buffered time bucket only once it lies strictly below the minimum
//! watermark over all open feeds, so that no released update can ever be
//! contradicted by a late arrival.

use vstd::prelude::*;
use vstd::pervasive::VecAdditionalExecFns;

use crate::kv::{
    has_key, key_index, keys_unique, lemma_key_index_in_range, lemma_key_index_unique,
    lemma_remove_unique, lemma_upsert_unique, remove_key, upsert,
};
use crate::types::{OpId, OpInfo, OpInfoView, WorkerId};

verus! {

/// Payload of one differential update.
#[derive(Debug)]
pub enum Data {
    /// Operator metadata: identifier plus name and nesting address.
    Operator(OpId, OpInfo),
    /// One observed unit of scheduling time for an (operator, worker) pair.
    Elapsed(OpId, WorkerId),
    /// One observed unit of arrangement size; the worker is absent for a
    /// "this operator currently has no measurable size" row.
    Size(OpId, Option<WorkerId>),
}

/// Mathematical model of a [`Data`] value.
pub ghost enum DataView {
    Operator(u64, OpInfoView),
    Elapsed(u64, u64),
    Size(u64, Option<u64>),
}

impl View for Data {
    type V = DataView;

    open spec fn view(&self) -> DataView {
        match self {
            Data::Operator(id, info) => DataView::Operator(*id, info@),
            Data::Elapsed(id, worker) => DataView::Elapsed(*id, *worker),
            Data::Size(id, worker) => DataView::Size(*id, *worker),
        }
    }
}

/// A differential change: `diff > 0` inserts `data` with that multiplicity,
/// `diff < 0` retracts it. `time` is the logical (millisecond) timestamp
/// assigned by the remote engine.
#[derive(Debug)]
pub struct Update {
    pub data: Data,
    pub time: u64,
    pub diff: i64,
}

/// Mathematical model of an [`Update`].
pub ghost struct UpdateView {
    pub data: DataView,
    pub time: u64,
    pub diff: i64,
}

impl View for Update {
    type V = UpdateView;

    open spec fn view(&self) -> UpdateView {
        UpdateView { data: self.data@, time: self.time, diff: self.diff }
    }
}

/// A time-bounded group of updates: every update of the batch has logical
/// time strictly below the watermark `time`, and so has every update of
/// every earlier batch of the same stream.
#[derive(Debug)]
pub struct Batch {
    pub time: u64,
    pub updates: Vec<Update>,
}

/// Mathematical model of a [`Batch`].
pub ghost struct BatchView {
    pub time: u64,
    pub updates: Seq<UpdateView>,
}

impl View for Batch {
    type V = BatchView;

    open spec fn view(&self) -> BatchView {
        BatchView { time: self.time, updates: self.updates@.map_values(|u: Update| u@) }
    }
}

/// The fixed set of feed shapes a collector can multiplex.
#[derive(Clone, Copy, Debug, PartialEq, Eq, Structural)]
pub enum FeedKind {
    /// The operator directory feed (ids, names, addresses).
    Operators,
    /// The cumulative scheduling-time feed.
    Elapsed,
    /// The arrangement-size feed.
    Sizes,
}

/// Multiplexes the batch streams of several feeds into one stream whose
/// batches come in strictly increasing time order and are final: a released
/// update can never be contradicted by a later arrival from any open feed.
pub struct Collector {
    progress: Vec<(FeedKind, u64)>,
    stash: Vec<(u64, Vec<Update>)>,
}

/// Mathematical model of a [`Collector`]: the last watermark of every open
/// feed, and the buffered updates bucketed by their own logical time.
pub ghost struct CollectorView {
    pub progress: Seq<(FeedKind, u64)>,
    pub stash: Seq<(u64, Seq<UpdateView>)>,
}

impl View for Collector {
    type V = CollectorView;

    closed spec fn view(&self) -> CollectorView {
        CollectorView {
            progress: self.progress@,
            stash: self.stash@.map_values(|b: (u64, Vec<Update>)| (b.0, b.1@.map_values(|u: Update| u@))),
        }
    }
}

/// Stash buckets are sorted by strictly increasing time.
pub open spec fn stash_sorted(s: Seq<(u64, Seq<UpdateView>)>) -> bool {
    forall|i: int, j: int| 0 <= i < j < s.len() ==> (#[trigger] s[i]).0 < (#[trigger] s[j]).0
}

/// The minimum watermark over the open feeds; `None` when no feed is open,
/// in which case nothing constrains release any more.
pub open spec fn spec_frontier(p: Seq<(FeedKind, u64)>) -> Option<u64>
    decreases p.len(),
{
    if p.len() == 0 {
        None
    } else {
        match spec_frontier(p.drop_last()) {
            None => Some(p.last().1),
            Some(m) => Some(if p.last().1 < m { p.last().1 } else { m }),
        }
    }
}

/// Whether a bucket at time `t` may be released under frontier `f`.
pub open spec fn below(f: Option<u64>, t: u64) -> bool {
    match f {
        None => true,
        Some(m) => t < m,
    }
}

/// A time strictly below the frontier is strictly below every open feed's
/// watermark: the safety fact the release rule rests on.
pub proof fn lemma_frontier_is_min(p: Seq<(FeedKind, u64)>, t: u64)
    requires
        below(spec_frontier(p), t),
    ensures
        forall|i: int| 0 <= i < p.len() ==> t < (#[trigger] p[i]).1,
    decreases p.len(),
{
    if p.len() > 0 {
        match spec_frontier(p.drop_last()) {
            None => {
                assert(p.drop_last().len() == 0);
            }
            Some(m) => {
                let f = spec_frontier(p);
                assert(f matches Some(fm) && fm <= m && fm <= p.last().1);
                lemma_frontier_is_min(p.drop_last(), t);
                assert(forall|i: int|
                    0 <= i < p.len() - 1 ==> (#[trigger] p[i]) == p.drop_last()[i]);
            }
        }
    }
}

/// Adding one update to the stash: push it onto its time's bucket when one
/// exists, insert a fresh singleton bucket at the sorted position otherwise.
pub open spec fn spec_stash_one(
    s: Seq<(u64, Seq<UpdateView>)>,
    u: UpdateView,
) -> Seq<(u64, Seq<UpdateView>)> {
    if has_key(s, u.time) {
        let i = key_index(s, u.time);
        s.update(i, (u.time, s[i].1.push(u)))
    } else {
        s.insert(lt_count(s, u.time), (u.time, seq![u]))
    }
}

/// The number of buckets with time strictly below `t`.
pub open spec fn lt_count(s: Seq<(u64, Seq<UpdateView>)>, t: u64) -> int
    decreases s.len(),
{
    if s.len() == 0 {
        0
    } else {
        lt_count(s.drop_last(), t) + if s.last().0 < t {
            1int
        } else {
            0int
        }
    }
}

/// Adding a whole sequence of updates to the stash, in order.
pub open spec fn spec_stash_all(
    s: Seq<(u64, Seq<UpdateView>)>,
    us: Seq<UpdateView>,
) -> Seq<(u64, Seq<UpdateView>)>
    decreases us.len(),
{
    if us.len() == 0 {
        s
    } else {
        spec_stash_one(spec_stash_all(s, us.drop_last()), us.last())
    }
}

/// How many leading buckets are released under frontier `f`: all of them
/// when no feed is open, those strictly below the minimum watermark else.
pub open spec fn released_count(s: Seq<(u64, Seq<UpdateView>)>, f: Option<u64>) -> int {
    match f {
        None => s.len() as int,
        Some(m) => lt_count(s, m),
    }
}

/// In a sorted stash, the buckets strictly below `t` form the prefix of
/// length `lt_count`.
pub proof fn lemma_lt_count_prefix(s: Seq<(u64, Seq<UpdateView>)>, t: u64)
    requires
        stash_sorted(s),
    ensures
        0 <= lt_count(s, t) <= s.len(),
        forall|i: int| 0 <= i < s.len() ==> ((#[trigger] s[i]).0 < t <==> i < lt_count(s, t)),
    decreases s.len(),
{
    if s.len() > 0 {
        lemma_lt_count_prefix(s.drop_last(), t);
        assert(forall|i: int|
            0 <= i < s.len() - 1 ==> (#[trigger] s[i]) == s.drop_last()[i]);
        if s.last().0 < t {
            assert forall|i: int| 0 <= i < s.len() implies ((#[trigger] s[i]).0 < t <==> i
                < lt_count(s, t)) by {
                if i < s.len() - 1 {
                    assert(s[i].0 < s.last().0);
                }
            }
        }
    }
}

/// In a sorted stash, the buckets released under frontier `f` are exactly
/// the prefix of length `released_count`.
pub proof fn lemma_released_prefix(s: Seq<(u64, Seq<UpdateView>)>, f: Option<u64>)
    requires
        stash_sorted(s),
    ensures
        0 <= released_count(s, f) <= s.len(),
        forall|i: int|
            0 <= i < s.len() ==> (below(f, (#[trigger] s[i]).0) <==> i < released_count(s, f)),
{
    match f {
        None => {
        }
        Some(m) => {
            lemma_lt_count_prefix(s, m);
        }
    }
}

impl Collector {
    /// Structural invariant: open feeds are listed at most once, and stash
    /// buckets are sorted by strictly increasing time.
    pub open spec fn wf(&self) -> bool {
        keys_unique(self@.progress) && stash_sorted(self@.stash)
    }

    /// A collector with no feeds and nothing buffered.
    pub fn new() -> (r: Collector)
        ensures
            r@.progress.len() == 0,
            r@.stash.len() == 0,
            r.wf(),
    {
        let r = Collector { progress: Vec::new(), stash: Vec::new() };
        proof {
            assert(r@.stash =~= r.stash@.map_values(|b: (u64, Vec<Update>)| (b.0, b.1@.map_values(|u: Update| u@))));
        }
        r
    }

    /// The current frontier: the minimum watermark over the open feeds.
    fn frontier(&self) -> (r: Option<u64>)
        ensures
            r == spec_frontier(self@.progress),
    {
        let ghost p = self@.progress;
        let mut r: Option<u64> = None;
        let mut i: usize = 0;
        while i < self.progress.len()
            invariant
                i <= p.len(),
                p == self@.progress,
                self.progress@ == p,
                r == spec_frontier(p.take(i as int)),
            decreases p.len() - i,
        {
            let w = self.progress[i].1;
            proof {
                assert(p.take(i + 1).drop_last() =~= p.take(i as int));
                assert(p.take(i + 1).last() == p[i as int]);
            }
            r = match r {
                None => Some(w),
                Some(m) => Some(if w < m { w } else { m }),
            };
            i = i + 1;
        }
        proof {
            assert(p.take(p.len() as int) =~= p);
        }
        r
    }

    /// The position of feed `kind` in the open-feed list, if it is open.
    fn find_feed(&self, kind: FeedKind) -> (r: Option<usize>)
        ensures
            match r {
                Some(i) => i < self@.progress.len() && self@.progress[i as int].0 == kind,
                None => !has_key(self@.progress, kind),
            },
    {
        let ghost p = self@.progress;
        let mut i: usize = 0;
        while i < self.progress.len()
            invariant
                i <= p.len(),
                self.progress@ == p,
                forall|k: int| 0 <= k < i ==> (#[trigger] p[k]).0 != kind,
            decreases p.len() - i,
        {
            if self.progress[i].0 == kind {
                return Some(i);
            }
            i = i + 1;
        }
        proof {
            assert(!has_key(p, kind)) by {
                if has_key(p, kind) {
                    lemma_key_index_in_range(p, kind);
                    assert(false);
                }
            }
        }
        None
    }

    /// Records `time` as feed `kind`'s latest watermark.
    fn set_progress(&mut self, kind: FeedKind, time: u64)
        requires
            old(self).wf(),
        ensures
            final(self)@.progress == upsert(old(self)@.progress, kind, time),
            final(self)@.stash == old(self)@.stash,
            final(self).wf(),
    {
        let ghost p = old(self)@.progress;
        proof {
            lemma_upsert_unique(p, kind, time);
        }
        match self.find_feed(kind) {
            Some(i) => {
                proof {
                    lemma_key_index_unique(p, kind, i as int);
                }
                self.progress.set(i, (kind, time));
            }
            None => {
                self.progress.push((kind, time));
            }
        }
    }

    /// Opens feed `kind` with an initial zero watermark.
    pub fn open_feed(&mut self, kind: FeedKind)
        requires
            old(self).wf(),
        ensures
            final(self)@.progress == upsert(old(self)@.progress, kind, 0),
            final(self)@.stash == old(self)@.stash,
            final(self).wf(),
    {
        self.set_progress(kind, 0);
    }

    /// Buckets one update by its own logical time.
    fn stash_update(&mut self, u: Update)
        requires
            old(self).wf(),
        ensures
            final(self)@.stash == spec_stash_one(old(self)@.stash, u@),
            final(self)@.progress == old(self)@.progress,
            final(self).wf(),
    {
        let ghost s = old(self)@.stash;
        proof {
            assert forall|a: int, b2: int| 0 <= a < b2 < s.len() implies (#[trigger] s[a]).0 != (
            #[trigger] s[b2]).0 by {
                assert(s[a].0 < s[b2].0);
            }
        }
        let mut i: usize = 0;
        while i < self.stash.len() && self.stash[i].0 < u.time
            invariant
                i <= s.len(),
                self@ == old(self)@,
                old(self).wf(),
                self.stash@.len() == s.len(),
                forall|k: int| 0 <= k < s.len() ==> (#[trigger] s[k]).0 == self.stash@[k].0,
                forall|k: int| 0 <= k < i ==> (#[trigger] s[k]).0 < u.time,
            decreases s.len() - i,
        {
            i = i + 1;
        }
        proof {
            lemma_lt_count_prefix(s, u.time);
            let cnt = lt_count(s, u.time);
            if cnt < i as int {
                assert(s[cnt].0 < u.time);
                assert(false);
            }
            if cnt > i as int {
                assert(s[i as int].0 < u.time);
                assert(i < s.len());
                assert(false);
            }
            assert(cnt == i as int);
        }
        if i < self.stash.len() && self.stash[i].0 == u.time {
            proof {
                assert(keys_unique(s));
                lemma_key_index_unique(s, u.time, i as int);
            }
            let ghost uv = u@;
            let ghost v0 = self.stash@;
            let entry = self.stash.remove(i);
            let (t, mut b) = entry;
            b.push(u);
            let ghost bv = b@;
            let ghost elt = (t, b);
            self.stash.insert(i, (t, b));
            proof {
                let s2 = s.update(i as int, (u.time, s[i as int].1.push(uv)));
                v0.remove_ensures(i as int);
                v0.remove(i as int).insert_ensures(i as int, elt);
                assert(self.stash@ == v0.remove(i as int).insert(i as int, elt));
                assert(self.stash@.len() == v0.len());
                assert forall|j: int| 0 <= j < v0.len() && j != i implies #[trigger] self.stash@[j]
                    == v0[j] by {
                    if j < i {
                        assert(self.stash@[j] == v0.remove(i as int)[j]);
                    } else {
                        assert(self.stash@[j] == v0.remove(i as int)[j - 1]);
                    }
                }
                assert(self.stash@[i as int].0 == t);
                assert(self.stash@[i as int].1@ == bv);
                assert(bv.drop_last() =~= v0[i as int].1@);
                assert(bv.last()@ == uv);
                assert forall|j: int| 0 <= j < s2.len() implies #[trigger] self@.stash[j]
                    == s2[j] by {
                    if j == i {
                        assert(self@.stash[j].0 == t);
                        assert(self@.stash[j].1 =~= s[i as int].1.push(uv)) by {
                            let m = bv.map_values(|u2: Update| u2@);
                            let base = s[i as int].1;
                            assert(self@.stash[j].1 == m);
                            assert(m.len() == base.len() + 1);
                            assert forall|k: int| 0 <= k < m.len() implies #[trigger] m[k]
                                == base.push(uv)[k] by {
                                if k < m.len() - 1 {
                                    assert(bv[k] == v0[i as int].1@[k]);
                                    assert(base[k] == v0[i as int].1@.map_values(
                                        |u2: Update| u2@,
                                    )[k]);
                                } else {
                                    assert(bv[k] == bv.last());
                                }
                            }
                        }
                    }
                }
                assert(self@.stash =~= s2);
                assert(spec_stash_one(s, u@) == s2);
                assert forall|a: int, b2: int|
                    0 <= a < b2 < s2.len() implies (#[trigger] s2[a]).0 < (#[trigger] s2[b2]).0 by {
                    assert(s[a].0 < s[b2].0);
                }
            }
        } else {
            let t = u.time;
            let ghost uv = u@;
            let ghost v0 = self.stash@;
            let mut b: Vec<Update> = Vec::new();
            b.push(u);
            let ghost elt = (t, b);
            self.stash.insert(i, (t, b));
            proof {
                v0.insert_ensures(i as int, elt);
                assert(self.stash@ == v0.insert(i as int, elt));
                assert(!has_key(s, t)) by {
                    if has_key(s, t) {
                        lemma_key_index_in_range(s, t);
                        let j = key_index(s, t);
                        assert(j < i as int || s[j].0 > t || s[j].0 == t);
                        assert(false);
                    }
                }
                let s2 = s.insert(i as int, (t, seq![uv]));
                s.insert_ensures(i as int, (t, seq![uv]));
                assert forall|j: int| 0 <= j < s2.len() implies #[trigger] self@.stash[j]
                    == s2[j] by {
                    if j < i {
                        assert(self.stash@[j] == v0[j]);
                        assert(s2[j] == s[j]);
                    } else if j == i {
                        assert(self.stash@[j] == elt);
                        assert(elt.1@.len() == 1);
                        assert(elt.1@[0]@ == uv);
                        assert(self@.stash[j].1 =~= seq![uv]);
                    } else {
                        assert(self.stash@[j] == v0[j - 1]);
                        assert(s2[j] == s[j - 1]);
                    }
                }
                assert(self@.stash =~= s2);
                assert forall|a: int, b2: int|
                    0 <= a < b2 < s2.len() implies (#[trigger] s2[a]).0 < (#[trigger] s2[b2]).0 by {
                    if a < i && b2 < i {
                        assert(s2[a] == s[a] && s2[b2] == s[b2]);
                    } else if a < i && b2 == i {
                        assert(s2[a] == s[a]);
                    } else if a < i && b2 > i {
                        assert(s2[a] == s[a] && s2[b2] == s[b2 - 1]);
                        assert(s[a].0 < u.time);
                        assert(s[b2 - 1].0 >= u.time);
                    } else if a == i {
                        assert(s2[b2] == s[b2 - 1]);
                        assert(s[b2 - 1].0 >= u.time && s[b2 - 1].0 != u.time);
                    } else {
                        assert(s2[a] == s[a - 1] && s2[b2] == s[b2 - 1]);
                    }
                }
            }
        }
    }

    /// Releases, in ascending time order, every stash bucket strictly below
    /// the current frontier, each as one output batch.
    fn release_ready(&mut self) -> (out: Vec<Batch>)
        requires
            old(self).wf(),
        ensures
            ({
                let f = spec_frontier(old(self)@.progress);
                let c = released_count(old(self)@.stash, f);
                &&& final(self)@.progress == old(self)@.progress
                &&& final(self)@.stash == old(self)@.stash.skip(c)
                &&& out@.len() == c
                &&& forall|i: int|
                    0 <= i < c ==> #[trigger] out@[i]@.time == old(self)@.stash[i].0
                        && out@[i]@.updates == old(self)@.stash[i].1
                &&& final(self).wf()
            }),
    {
        let ghost s = old(self)@.stash;
        let ghost f = spec_frontier(old(self)@.progress);
        proof {
            lemma_released_prefix(s, f);
        }
        let ghost c = released_count(s, f);
        let front = self.frontier();
        let mut out: Vec<Batch> = Vec::new();
        loop
            invariant
                old(self).wf(),
                front == f,
                out@.len() <= c,
                c == released_count(s, f),
                0 <= c <= s.len(),
                forall|i: int|
                    0 <= i < s.len() ==> (below(f, (#[trigger] s[i]).0) <==> i < c),
                self@.progress == old(self)@.progress,
                self@.stash == s.skip(out@.len() as int),
                forall|i: int|
                    0 <= i < out@.len() ==> #[trigger] out@[i]@.time == s[i].0
                        && out@[i]@.updates == s[i].1,
                self.wf(),
            ensures
                out@.len() == c,
                self@.progress == old(self)@.progress,
                self@.stash == s.skip(c),
                forall|i: int|
                    0 <= i < c ==> #[trigger] out@[i]@.time == s[i].0 && out@[i]@.updates == s[i].1,
                self.wf(),
            decreases s.len() - out@.len(),
        {
            let ghost k = out@.len() as int;
            proof {
                assert(self@.stash =~= s.skip(k));
                assert(self@.stash.len() == s.len() - k);
            }
            if self.stash.len() == 0 {
                proof {
                    assert(k == s.len());
                    assert(c == k);
                    assert forall|i: int|
                        0 <= i < c implies #[trigger] out@[i]@.time == s[i].0 && out@[i]@.updates
                        == s[i].1 by {
                        assert(i < out@.len());
                    }
                }
                break ;
            }
            let ready = match front {
                None => true,
                Some(m) => self.stash[0].0 < m,
            };
            proof {
                assert(self@.stash[0] == s.skip(k)[0]);
                assert(s.skip(k)[0] == s[k]);
                assert(ready == below(f, s[k].0));
            }
            if !ready {
                proof {
                    assert(!(k < c));
                    assert(c <= k);
                    assert(c == k);
                    assert forall|i: int|
                        0 <= i < c implies #[trigger] out@[i]@.time == s[i].0 && out@[i]@.updates
                        == s[i].1 by {
                        assert(i < out@.len());
                    }
                }
                break ;
            }
            let ghost prev = self@.stash;
            let ghost pv = self.stash@;
            let ghost old_out = out@;
            let entry = self.stash.remove(0);
            let (t, us) = entry;
            out.push(Batch { time: t, updates: us });
            proof {
                assert(out@[k]@.time == s[k].0);
                assert(out@[k]@.updates == s[k].1);
                assert forall|i2: int|
                    0 <= i2 < out@.len() implies #[trigger] out@[i2]@.time == s[i2].0
                    && out@[i2]@.updates == s[i2].1 by {
                    if i2 < k {
                        assert(out@[i2] == old_out[i2]);
                    }
                }
                pv.remove_ensures(0);
                assert forall|j: int| 0 <= j < self@.stash.len() implies #[trigger] self@.stash[j]
                    == prev[j + 1] by {
                    assert(self.stash@[j] == pv[j + 1]);
                }
                assert(self@.stash =~= s.skip(k + 1)) by {
                    assert forall|j: int|
                        0 <= j < self@.stash.len() implies #[trigger] self@.stash[j] == s.skip(
                        k + 1,
                    )[j] by {
                        assert(self@.stash[j] == prev[j + 1]);
                        assert(prev[j + 1] == s.skip(k)[j + 1]);
                        assert(s.skip(k)[j + 1] == s[k + 1 + j]);
                        assert(s.skip(k + 1)[j] == s[k + 1 + j]);
                    }
                }
                assert forall|a: int, b: int|
                    0 <= a < b < self@.stash.len() implies (#[trigger] self@.stash[a]).0 < (
                #[trigger] self@.stash[b]).0 by {
                    assert(self@.stash[a] == s[a + k + 1]);
                    assert(self@.stash[b] == s[b + k + 1]);
                }
            }
        }
        out
    }

    /// Absorbs one batch from feed `kind`: advances the feed's watermark,
    /// buckets the batch's updates by their own time, and releases every
    /// bucket that now lies strictly below the frontier.
    ///
    /// Frontier safety, stated by the last two quantified clauses: every
    /// released batch has a time strictly below the watermark of every feed
    /// still open afterwards — so no released update can be contradicted by
    /// a later arrival — and released batches come in strictly increasing
    /// time order.
    pub fn absorb_batch(&mut self, kind: FeedKind, batch: Batch) -> (out: Vec<Batch>)
        requires
            old(self).wf(),
        ensures
            ({
                let p2 = upsert(old(self)@.progress, kind, batch@.time);
                let s1 = spec_stash_all(old(self)@.stash, batch@.updates);
                let c = released_count(s1, spec_frontier(p2));
                &&& final(self)@.progress == p2
                &&& final(self)@.stash == s1.skip(c)
                &&& out@.len() == c
                &&& forall|i: int|
                    0 <= i < c ==> #[trigger] out@[i]@.time == s1[i].0 && out@[i]@.updates
                        == s1[i].1
                &&& forall|i: int, j: int|
                    0 <= i < out@.len() && 0 <= j < p2.len() ==> #[trigger] out@[i]@.time < (
                    #[trigger] p2[j]).1
                &&& forall|i: int, j: int| 0 <= i < j < out@.len() ==> out@[i]@.time < out@[j]@.time
                &&& final(self).wf()
            }),
    {
        let ghost us = batch@.updates;
        let ghost s0 = old(self)@.stash;
        let ghost p2 = upsert(old(self)@.progress, kind, batch@.time);
        let Batch { time, updates } = batch;
        let mut updates = updates;
        self.set_progress(kind, time);
        let ghost total = us.len() as int;
        let n0 = updates.len();
        proof {
            assert(total == n0 as int);
            assert(updates@.map_values(|u: Update| u@) =~= us.skip(0));
        }
        let mut k: usize = 0;
        while updates.len() > 0
            invariant
                k as int + updates@.len() == total,
                total == us.len(),
                total <= usize::MAX,
                updates@.map_values(|u: Update| u@) == us.skip(k as int),
                self@.progress == p2,
                self@.stash == spec_stash_all(s0, us.take(k as int)),
                self.wf(),
            decreases updates@.len(),
        {
            let ghost prev = updates@;
            let u = updates.remove(0);
            proof {
                assert(prev.map_values(|u2: Update| u2@)[0] == us.skip(k as int)[0]);
                assert(us.skip(k as int)[0] == us[k as int]);
                assert(u@ == us[k as int]);
            }
            self.stash_update(u);
            proof {
                assert(us.take(k + 1).drop_last() =~= us.take(k as int));
                assert(us.take(k + 1).last() == us[k as int]);
                assert(spec_stash_all(s0, us.take(k + 1)) == spec_stash_one(
                    spec_stash_all(s0, us.take(k as int)),
                    us[k as int],
                ));
                assert(updates@.map_values(|u2: Update| u2@) =~= us.skip(k + 1)) by {
                    assert forall|j: int|
                        0 <= j < updates@.len() implies updates@.map_values(|u2: Update| u2@)[j]
                        == #[trigger] us.skip(k + 1)[j] by {
                        assert(updates@[j] == prev[j + 1]);
                        assert(prev.map_values(|u2: Update| u2@)[j + 1] == us.skip(k as int)[j
                            + 1]);
                        assert(us.skip(k as int)[j + 1] == us[k + 1 + j]);
                        assert(us.skip(k + 1)[j] == us[k + 1 + j]);
                    }
                }
            }
            k = k + 1;
        }
        proof {
            assert(us.take(k as int) =~= us);
        }
        let ghost s1 = spec_stash_all(s0, us);
        let out = self.release_ready();
        proof {
            let f = spec_frontier(p2);
            lemma_released_prefix(s1, f);
            assert forall|i: int, j: int|
                0 <= i < out@.len() && 0 <= j < p2.len() implies #[trigger] out@[i]@.time < (
            #[trigger] p2[j]).1 by {
                assert(out@[i]@.time == s1[i].0);
                assert(below(f, s1[i].0));
                lemma_frontier_is_min(p2, s1[i].0);
            }
        }
        out
    }

    /// Closes feed `kind`: its absence no longer constrains the frontier, so
    /// buffered updates from other feeds (or, once every feed is closed, all
    /// remaining buffered updates) are released. In particular the last
    /// clause states that closing the final open feed drains the stash
    /// completely.
    #[verifier::rlimit(50)]
    #[verifier::spinoff_prover]
    pub fn close_feed(&mut self, kind: FeedKind) -> (out: Vec<Batch>)
        requires
            old(self).wf(),
        ensures
            final(self)@.progress == remove_key(old(self)@.progress, kind),
            final(self)@.stash == old(self)@.stash.skip(
                released_count(
                    old(self)@.stash,
                    spec_frontier(remove_key(old(self)@.progress, kind)),
                ),
            ),
            out@.len() == released_count(
                old(self)@.stash,
                spec_frontier(remove_key(old(self)@.progress, kind)),
            ),
            forall|i: int|
                0 <= i < out@.len() ==> #[trigger] out@[i]@.time == old(self)@.stash[i].0
                    && out@[i]@.updates == old(self)@.stash[i].1,
            forall|i: int, j: int|
                0 <= i < out@.len() && 0 <= j < remove_key(old(self)@.progress, kind).len()
                    ==> #[trigger] out@[i]@.time < (#[trigger] remove_key(
                    old(self)@.progress,
                    kind,
                )[j]).1,
            forall|i: int, j: int| 0 <= i < j < out@.len() ==> out@[i]@.time < out@[j]@.time,
            remove_key(old(self)@.progress, kind).len() == 0 ==> final(self)@.stash.len() == 0,
            final(self).wf(),
    {
        let ghost p = old(self)@.progress;
        let ghost p2 = remove_key(p, kind);
        let ghost s0 = old(self)@.stash;
        match self.find_feed(kind) {
            Some(i) => {
                proof {
                    lemma_key_index_unique(p, kind, i as int);
                    lemma_remove_unique(p, i as int);
                }
                self.progress.remove(i);
                proof {
                    assert(self@.progress == p2);
                }
            }
            None => {
                proof {
                    assert(p2 == p);
                }
            }
        }
        let out = self.release_ready();
        proof {
            let f = spec_frontier(p2);
            lemma_released_prefix(s0, f);
            assert forall|i2: int, j: int|
                0 <= i2 < out@.len() && 0 <= j < p2.len() implies #[trigger] out@[i2]@.time < (
            #[trigger] p2[j]).1 by {
                assert(out@[i2]@.time == s0[i2].0);
                assert(below(f, s0[i2].0));
                lemma_frontier_is_min(p2, s0[i2].0);
            }
            if p2.len() == 0 {
                assert(f is None);
                assert(released_count(s0, f) == s0.len());
                assert(s0.skip(s0.len() as int).len() == 0);
            }
            let c = released_count(s0, f);
            assert(self@.progress == p2);
            assert(self@.stash == s0.skip(c));
            assert(out@.len() == c);
            assert(self.wf());
            assert forall|i2: int|
                0 <= i2 < out@.len() implies #[trigger] out@[i2]@.time == old(self)@.stash[i2].0
                && out@[i2]@.updates == old(self)@.stash[i2].1 by {
                assert(out@[i2]@.time == s0[i2].0);
                assert(out@[i2]@.updates == s0[i2].1);
            }
            assert(p2.len() == 0 ==> self@.stash.len() == 0);
            assert(forall|i2: int, j: int|
                0 <= i2 < j < out@.len() ==> out@[i2]@.time < out@[j]@.time);
        }
        out
    }
}

} // verus!
