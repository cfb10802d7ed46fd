//! Folding the ordered batch stream into durable per-(operator, worker)
//! counters, and deriving exclusive per-node times from the inherently
//! cumulative measurements using the operator nesting hierarchy.

use vstd::prelude::*;

use crate::collect::{Batch, BatchView, Data, DataView, Update, UpdateView};
use crate::kv::{has_key, key_index, key_value, keys_unique, lemma_key_index_in_range,
    lemma_key_index_unique, lemma_upsert_unique, upsert};
use crate::pprof::{lemma_add_samples_growth, placeholder_name, spec_add_location,
    spec_add_operator, spec_add_samples, spec_build, BuilderView, Profile, ProfileBuilder,
    ProfileView};
use crate::types::{Address, Error, OpId, OpInfo, OpInfoView, WorkerId};

verus! {

/// Unsigned 64-bit addition clamped to the top of the range.
pub open spec fn sat_add_u64(a: u64, b: u64) -> u64 {
    if a + b > u64::MAX {
        u64::MAX
    } else {
        (a + b) as u64
    }
}

/// Signed 64-bit addition clamped to both ends of the range.
pub open spec fn sat_add_i64(a: i64, b: i64) -> i64 {
    if a + b > i64::MAX {
        i64::MAX
    } else if a + b < i64::MIN {
        i64::MIN
    } else {
        (a + b) as i64
    }
}

/// Mathematical model of an [`Aggregator`].
pub ghost struct AggView {
    /// The watermark of the first processed batch, in milliseconds.
    pub start: Option<u64>,
    /// The operator directory, in insertion order.
    pub operators: Seq<(u64, OpInfoView)>,
    /// Cumulative elapsed nanoseconds per (operator, worker).
    pub elapsed: Seq<((u64, u64), u64)>,
    /// Cumulative signed size per (operator, worker).
    pub sizes: Seq<((u64, u64), i64)>,
    /// Operator ids seen in size rows, for directory completeness.
    pub sized: Seq<u64>,
}

/// Folding one differential update into the aggregate state:
/// - operator metadata with positive diff upserts the directory, other
///   diffs are ignored (operator identity is append-only);
/// - elapsed samples accumulate only non-negative diffs (the remote
///   counter is monotone; retractions are dropped, not subtracted);
/// - size samples record the operator id and accumulate the signed diff
///   when a worker is present (retractions genuinely shrink size).
pub open spec fn spec_apply(v: AggView, u: UpdateView) -> AggView {
    match u.data {
        DataView::Operator(id, info) => if u.diff > 0 {
            AggView { operators: upsert(v.operators, id, info), ..v }
        } else {
            v
        },
        DataView::Elapsed(id, w) => if u.diff >= 0 {
            let prev = if has_key(v.elapsed, (id, w)) {
                key_value(v.elapsed, (id, w))
            } else {
                0u64
            };
            AggView { elapsed: upsert(v.elapsed, (id, w), sat_add_u64(prev, u.diff as u64)), ..v }
        } else {
            v
        },
        DataView::Size(id, wopt) => {
            let v1 = if v.sized.contains(id) {
                v
            } else {
                AggView { sized: v.sized.push(id), ..v }
            };
            match wopt {
                Some(w) => {
                    let prev = if has_key(v1.sizes, (id, w)) {
                        key_value(v1.sizes, (id, w))
                    } else {
                        0i64
                    };
                    AggView { sizes: upsert(v1.sizes, (id, w), sat_add_i64(prev, u.diff)), ..v1 }
                }
                None => v1,
            }
        }
    }
}

/// Folding a whole sequence of updates, in order.
pub open spec fn spec_apply_all(v: AggView, us: Seq<UpdateView>) -> AggView
    decreases us.len(),
{
    if us.len() == 0 {
        v
    } else {
        spec_apply(spec_apply_all(v, us.drop_last()), us.last())
    }
}

/// Folding one batch: the first batch's watermark becomes the collection
/// start, then every update is applied in order.
pub open spec fn spec_update(v: AggView, b: BatchView) -> AggView {
    let v1 = if v.start is None {
        AggView { start: Some(b.time), ..v }
    } else {
        v
    };
    spec_apply_all(v1, b.updates)
}

/// The operator directory as a view sequence.
pub open spec fn ops_view(v: Seq<(u64, OpInfo)>) -> Seq<(u64, OpInfoView)> {
    v.map_values(|kv: (u64, OpInfo)| (kv.0, kv.1@))
}

/// The id of the last directory operator registered under address `a`
/// (later directory rows overwrite earlier ones).
pub open spec fn addr_lookup(ops: Seq<(u64, OpInfoView)>, a: Seq<u64>) -> Option<u64>
    decreases ops.len(),
{
    if ops.len() == 0 {
        None
    } else if ops.last().1.address == a {
        Some(ops.last().0)
    } else {
        addr_lookup(ops.drop_last(), a)
    }
}

/// The parent operator of `id` via the directory's address relation:
/// the operator registered under `id`'s address with its last element
/// removed, if `id` is known and not a root.
pub open spec fn parent_of(ops: Seq<(u64, OpInfoView)>, id: u64) -> Option<u64> {
    if has_key(ops, id) {
        let ad = key_value(ops, id).address;
        if ad.len() > 1 {
            addr_lookup(ops, ad.drop_last())
        } else {
            None
        }
    } else {
        None
    }
}

/// The total cumulative time of the children of `(p, w)` among `entries`.
pub open spec fn child_sum(
    ops: Seq<(u64, OpInfoView)>,
    entries: Seq<((u64, u64), u64)>,
    p: u64,
    w: u64,
) -> int
    decreases entries.len(),
{
    if entries.len() == 0 {
        0
    } else {
        child_sum(ops, entries.drop_last(), p, w) + if entries.last().0.1 == w && parent_of(
            ops,
            entries.last().0.0,
        ) == Some(p) {
            entries.last().1 as int
        } else {
            0int
        }
    }
}

/// Clamps an integer into the unsigned 64-bit range.
pub open spec fn clamp0(x: int) -> u64 {
    if x < 0 {
        0
    } else if x > u64::MAX {
        u64::MAX
    } else {
        x as u64
    }
}

/// The exclusive time of entry `i`: its cumulative time minus the
/// cumulative times of its direct children, saturating at zero. Every
/// subtraction reads the untouched cumulative snapshot, so the result is
/// independent of any processing order.
pub open spec fn excl_val(ops: Seq<(u64, OpInfoView)>, entries: Seq<((u64, u64), u64)>, i: int) -> u64 {
    clamp0(entries[i].1 - child_sum(ops, entries, entries[i].0.0, entries[i].0.1))
}

/// Whether entry `i` can be converted: an operator with a known address
/// below the root must have a directory entry at its parent address and a
/// cumulative counter for that parent on the same worker.
pub open spec fn entry_ok(ops: Seq<(u64, OpInfoView)>, entries: Seq<((u64, u64), u64)>, i: int) -> bool {
    (has_key(ops, entries[i].0.0) && key_value(ops, entries[i].0.0).address.len() > 1) ==> (
    match addr_lookup(ops, key_value(ops, entries[i].0.0).address.drop_last()) {
        Some(p) => has_key(entries, (p, entries[i].0.1)),
        None => false,
    })
}

/// Whether the whole conversion succeeds.
pub open spec fn exclusive_ok(ops: Seq<(u64, OpInfoView)>, entries: Seq<((u64, u64), u64)>) -> bool {
    forall|i: int| 0 <= i < entries.len() ==> entry_ok(ops, entries, i)
}

/// A child sum is never negative.
pub proof fn lemma_child_sum_nonneg(
    ops: Seq<(u64, OpInfoView)>,
    entries: Seq<((u64, u64), u64)>,
    p: u64,
    w: u64,
)
    ensures
        child_sum(ops, entries, p, w) >= 0,
    decreases entries.len(),
{
    if entries.len() > 0 {
        lemma_child_sum_nonneg(ops, entries.drop_last(), p, w);
    }
}

/// An operator that is no entry's parent has a zero child sum.
pub proof fn lemma_child_sum_zero(
    ops: Seq<(u64, OpInfoView)>,
    entries: Seq<((u64, u64), u64)>,
    p: u64,
    w: u64,
)
    requires
        forall|j: int|
            0 <= j < entries.len() ==> parent_of(ops, (#[trigger] entries[j]).0.0) != Some(p),
    ensures
        child_sum(ops, entries, p, w) == 0,
    decreases entries.len(),
{
    if entries.len() > 0 {
        assert(forall|j: int|
            0 <= j < entries.len() - 1 ==> (#[trigger] entries.drop_last()[j]) == entries[j]);
        lemma_child_sum_zero(ops, entries.drop_last(), p, w);
        assert(entries.last() == entries[entries.len() - 1]);
    }
}

/// Exclusive-time conversion leaves leaves untouched: for an operator
/// that is no entry's parent — in particular one with no children — the
/// exclusive time equals the cumulative time exactly.
pub proof fn lemma_leaf_exclusive(
    ops: Seq<(u64, OpInfoView)>,
    entries: Seq<((u64, u64), u64)>,
    i: int,
)
    requires
        0 <= i < entries.len(),
        forall|j: int|
            0 <= j < entries.len() ==> parent_of(ops, (#[trigger] entries[j]).0.0) != Some(
                entries[i].0.0,
            ),
    ensures
        excl_val(ops, entries, i) == entries[i].1,
{
    lemma_child_sum_zero(ops, entries, entries[i].0.0, entries[i].0.1);
}

/// Looks up the last directory operator registered under `addr`.
fn find_addr_last(operators: &Vec<(u64, OpInfo)>, addr: &Address) -> (r: Option<u64>)
    ensures
        r == addr_lookup(ops_view(operators@), addr@),
{
    let ghost full = ops_view(operators@);
    let n = operators.len();
    proof {
        assert(full.take(n as int) =~= full);
    }
    let mut i: usize = n;
    while i > 0
        invariant
            i <= n == operators@.len(),
            full == ops_view(operators@),
            addr_lookup(full, addr@) == addr_lookup(full.take(i as int), addr@),
        decreases i,
    {
        i = i - 1;
        let same = operators[i].1.address.same_as(addr);
        proof {
            assert(full.take(i + 1).drop_last() =~= full.take(i as int));
            assert(full.take(i + 1).last() == full[i as int]);
            assert(full[i as int].1.address == operators@[i as int].1.address@);
        }
        if same {
            proof {
                assert(addr_lookup(full.take(i + 1), addr@) == Some(full[i as int].0));
            }
            return Some(operators[i].0);
        }
    }
    proof {
        assert(full.take(0) =~= Seq::<(u64, OpInfoView)>::empty());
    }
    None
}

/// The position of operator `id` in the directory.
fn find_op(operators: &Vec<(u64, OpInfo)>, id: u64) -> (r: Option<usize>)
    ensures
        match r {
            Some(i) => i < operators@.len() && ops_view(operators@)[i as int].0 == id,
            None => !has_key(ops_view(operators@), id),
        },
{
    let ghost m = ops_view(operators@);
    let n = operators.len();
    let mut i: usize = 0;
    while i < n
        invariant
            i <= n == operators@.len(),
            m == ops_view(operators@),
            forall|j: int| 0 <= j < i ==> (#[trigger] m[j]).0 != id,
        decreases n - i,
    {
        if operators[i].0 == id {
            proof {
                assert(m[i as int].0 == id);
            }
            return Some(i);
        }
        i = i + 1;
    }
    proof {
        assert(!has_key(m, id)) by {
            if has_key(m, id) {
                lemma_key_index_in_range(m, id);
            }
        }
    }
    None
}

/// The position of `key` in a counter sequence.
fn find_pair(entries: &Vec<((u64, u64), u64)>, key: (u64, u64)) -> (r: Option<usize>)
    ensures
        match r {
            Some(i) => i < entries@.len() && entries@[i as int].0 == key,
            None => !has_key(entries@, key),
        },
{
    let ghost m = entries@;
    let n = entries.len();
    let mut i: usize = 0;
    while i < n
        invariant
            i <= n == entries@.len(),
            m == entries@,
            forall|j: int| 0 <= j < i ==> (#[trigger] m[j]).0 != key,
        decreases n - i,
    {
        if entries[i].0.0 == key.0 && entries[i].0.1 == key.1 {
            proof {
                assert(m[i as int].0 == key);
            }
            return Some(i);
        }
        i = i + 1;
    }
    proof {
        assert(!has_key(m, key)) by {
            if has_key(m, key) {
                lemma_key_index_in_range(m, key);
            }
        }
    }
    None
}

/// Converts cumulative elapsed times into exclusive per-node times: for
/// every entry whose operator has a parent, the entry's full cumulative
/// value is subtracted (saturating at zero) from the parent's value on the
/// same worker, always reading the untouched cumulative snapshot. Keys and
/// order are preserved. A missing parent operator or parent counter is a
/// fatal consistency error: the directory must be complete.
pub fn exclusive_times(operators: &Vec<(u64, OpInfo)>, elapsed: &Vec<((u64, u64), u64)>) -> (r:
    Result<Vec<((u64, u64), u64)>, Error>)
    requires
        keys_unique(ops_view(operators@)),
        keys_unique(elapsed@),
    ensures
        ({
            let ov = ops_view(operators@);
            match r {
                Ok(out) => {
                    &&& exclusive_ok(ov, elapsed@)
                    &&& out@.len() == elapsed@.len()
                    &&& forall|i: int|
                        0 <= i < elapsed@.len() ==> (#[trigger] out@[i]).0 == elapsed@[i].0
                            && out@[i].1 == excl_val(ov, elapsed@, i)
                }
                Err(e) => {
                    &&& e == Error::IncompleteDirectory
                    &&& !exclusive_ok(ov, elapsed@)
                }
            }
        }),
{
    let ghost ov = ops_view(operators@);
    let ghost ev = elapsed@;
    let mut out: Vec<((u64, u64), u64)> = Vec::new();
    let n = elapsed.len();
    let mut i: usize = 0;
    while i < n
        invariant
            i <= n == elapsed@.len(),
            ev == elapsed@,
            out@.len() == i,
            forall|j: int| 0 <= j < i ==> (#[trigger] out@[j]) == ev[j],
        decreases n - i,
    {
        out.push(elapsed[i]);
        i = i + 1;
    }
    proof {
        assert(ev.take(0) =~= Seq::<((u64, u64), u64)>::empty());
        assert forall|j: int| 0 <= j < ev.len() implies (#[trigger] out@[j]).1 == clamp0(
            ev[j].1 - child_sum(ov, ev.take(0), ev[j].0.0, ev[j].0.1),
        ) by {
            assert(child_sum(ov, ev.take(0), ev[j].0.0, ev[j].0.1) == 0);
        }
    }
    let mut k: usize = 0;
    while k < n
        invariant
            k <= n == elapsed@.len(),
            ev == elapsed@,
            ov == ops_view(operators@),
            keys_unique(ov),
            keys_unique(ev),
            out@.len() == ev.len(),
            forall|j: int| 0 <= j < ev.len() ==> (#[trigger] out@[j]).0 == ev[j].0,
            forall|j: int|
                0 <= j < ev.len() ==> (#[trigger] out@[j]).1 == clamp0(
                    ev[j].1 - child_sum(ov, ev.take(k as int), ev[j].0.0, ev[j].0.1),
                ),
            forall|j: int| 0 <= j < k ==> entry_ok(ov, ev, j),
        decreases n - k,
    {
        let key = elapsed[k].0;
        let v = elapsed[k].1;
        proof {
            assert(ev.take(k + 1).drop_last() =~= ev.take(k as int));
            assert(ev.take(k + 1).last() == ev[k as int]);
        }
        match find_op(operators, key.0) {
            None => {
                proof {
                    assert(parent_of(ov, key.0) is None);
                    assert forall|j: int|
                        0 <= j < ev.len() implies (#[trigger] out@[j]).1 == clamp0(
                        ev[j].1 - child_sum(ov, ev.take(k + 1), ev[j].0.0, ev[j].0.1),
                    ) by {
                        assert(child_sum(ov, ev.take(k + 1), ev[j].0.0, ev[j].0.1) == child_sum(
                            ov,
                            ev.take(k as int),
                            ev[j].0.0,
                            ev[j].0.1,
                        ));
                    }
                    assert(entry_ok(ov, ev, k as int));
                }
            }
            Some(oi) => {
                proof {
                    lemma_key_index_unique(ov, key.0, oi as int);
                    assert(key_value(ov, key.0) == ov[oi as int].1);
                    assert(ov[oi as int].1.address == operators@[oi as int].1.address@);
                }
                match operators[oi].1.address.parent() {
                    None => {
                        proof {
                            assert(key_value(ov, key.0).address.len() <= 1);
                            assert(parent_of(ov, key.0) is None);
                            assert forall|j: int|
                                0 <= j < ev.len() implies (#[trigger] out@[j]).1 == clamp0(
                                ev[j].1 - child_sum(ov, ev.take(k + 1), ev[j].0.0, ev[j].0.1),
                            ) by {
                                assert(child_sum(ov, ev.take(k + 1), ev[j].0.0, ev[j].0.1)
                                    == child_sum(ov, ev.take(k as int), ev[j].0.0, ev[j].0.1));
                            }
                            assert(entry_ok(ov, ev, k as int));
                        }
                    }
                    Some(paddr) => {
                        proof {
                            assert(paddr@ == key_value(ov, key.0).address.drop_last());
                        }
                        match find_addr_last(operators, &paddr) {
                            None => {
                                proof {
                                    assert(!entry_ok(ov, ev, k as int));
                                    assert(!exclusive_ok(ov, ev));
                                }
                                return Err(Error::IncompleteDirectory);
                            }
                            Some(p) => {
                                let target = (p, key.1);
                                let found = find_pair(&out, target);
                                match found {
                                    None => {
                                        proof {
                                            assert(!has_key(ev, target)) by {
                                                if has_key(ev, target) {
                                                    lemma_key_index_in_range(ev, target);
                                                    let j = key_index(ev, target);
                                                    assert(out@[j].0 == target);
                                                    assert(has_key(out@, target));
                                                    lemma_key_index_in_range(out@, target);
                                                }
                                            }
                                            assert(!entry_ok(ov, ev, k as int));
                                            assert(!exclusive_ok(ov, ev));
                                        }
                                        return Err(Error::IncompleteDirectory);
                                    }
                                    Some(jj) => {
                                        proof {
                                            assert(out@[jj as int].0 == target);
                                            assert(ev[jj as int].0 == target);
                                            lemma_key_index_unique(ev, target, jj as int);
                                        }
                                        let cur = out[jj].1;
                                        out.set(jj, (target, cur.saturating_sub(v)));
                                        proof {
                                            assert(parent_of(ov, key.0) == Some(p));
                                            lemma_child_sum_nonneg(
                                                ov,
                                                ev.take(k as int),
                                                target.0,
                                                target.1,
                                            );
                                            assert forall|j: int|
                                                0 <= j < ev.len() implies (#[trigger] out@[j]).1
                                                == clamp0(
                                                ev[j].1 - child_sum(
                                                    ov,
                                                    ev.take(k + 1),
                                                    ev[j].0.0,
                                                    ev[j].0.1,
                                                ),
                                            ) by {
                                                lemma_child_sum_nonneg(
                                                    ov,
                                                    ev.take(k as int),
                                                    ev[j].0.0,
                                                    ev[j].0.1,
                                                );
                                                if j == jj {
                                                    assert(ev[j].0 == target);
                                                    assert(child_sum(
                                                        ov,
                                                        ev.take(k + 1),
                                                        target.0,
                                                        target.1,
                                                    ) == child_sum(
                                                        ov,
                                                        ev.take(k as int),
                                                        target.0,
                                                        target.1,
                                                    ) + ev[k as int].1);
                                                } else {
                                                    assert(ev[j].0 != target);
                                                    assert(child_sum(
                                                        ov,
                                                        ev.take(k + 1),
                                                        ev[j].0.0,
                                                        ev[j].0.1,
                                                    ) == child_sum(
                                                        ov,
                                                        ev.take(k as int),
                                                        ev[j].0.0,
                                                        ev[j].0.1,
                                                    ));
                                                }
                                            }
                                            assert(has_key(ev, target));
                                            assert(entry_ok(ov, ev, k as int));
                                        }
                                    }
                                }
                            }
                        }
                    }
                }
            }
        }
        k = k + 1;
    }
    proof {
        assert(ev.take(n as int) =~= ev);
    }
    Ok(out)
}

/// Registering every directory operator, in insertion order.
pub open spec fn spec_add_ops(b: BuilderView, ops: Seq<(u64, OpInfoView)>) -> BuilderView
    decreases ops.len(),
{
    if ops.len() == 0 {
        b
    } else {
        spec_add_operator(
            spec_add_ops(b, ops.drop_last()),
            ops.last().0,
            ops.last().1.name,
            ops.last().1.address,
        )
    }
}

/// Registering a placeholder location for every operator id that size
/// rows mentioned but the directory never described.
pub open spec fn spec_add_placeholders(
    b: BuilderView,
    ops: Seq<(u64, OpInfoView)>,
    sized: Seq<u64>,
) -> BuilderView
    decreases sized.len(),
{
    if sized.len() == 0 {
        b
    } else {
        let b1 = spec_add_placeholders(b, ops, sized.drop_last());
        let id = sized.last();
        if !has_key(ops, id) && !has_key(b1.locations, id) {
            spec_add_location(b1, id, placeholder_name())
        } else {
            b1
        }
    }
}

/// Clamps an unsigned value into the signed 64-bit range.
pub open spec fn to_i64_sat(x: u64) -> i64 {
    if x > i64::MAX {
        i64::MAX
    } else {
        x as i64
    }
}

/// The time column's entries: the exclusive value of every cumulative
/// entry, keys and order preserved.
pub open spec fn spec_excl_entries(
    ops: Seq<(u64, OpInfoView)>,
    elapsed: Seq<((u64, u64), u64)>,
) -> Seq<((u64, u64), i64)> {
    Seq::new(elapsed.len(), |i: int| (elapsed[i].0, to_i64_sat(excl_val(ops, elapsed, i))))
}

/// The empty builder the profile derivation starts from, stamped with the
/// collection start.
pub open spec fn spec_builder_init(start: Option<u64>) -> BuilderView {
    BuilderView {
        strings: seq![Seq::<char>::empty()],
        functions: Seq::empty(),
        locations: Seq::empty(),
        sample_types: Seq::empty(),
        samples: Seq::empty(),
        op_addrs: Seq::empty(),
        addr_ids: Seq::empty(),
        time_ms: start,
    }
}

/// What deriving the profile from aggregate state yields: register every
/// directory operator, then placeholder locations for sized-but-unknown
/// operators, then — when data exists — a "time"/nanoseconds column of
/// exclusive values and a "size"/bytes column of the raw signed sizes;
/// columns with no data are omitted entirely. Fails exactly when the
/// directory is too incomplete to resolve a parent.
pub open spec fn spec_build_result(v: AggView) -> Result<ProfileView, Error> {
    let b2 = spec_add_ops(spec_builder_init(v.start), v.operators);
    let b3 = spec_add_placeholders(b2, v.operators, v.sized);
    let after_time: Result<BuilderView, Error> = if v.elapsed.len() > 0 {
        if exclusive_ok(v.operators, v.elapsed) {
            spec_add_samples(b3, "time"@, "nanoseconds"@, spec_excl_entries(v.operators, v.elapsed))
        } else {
            Err(Error::IncompleteDirectory)
        }
    } else {
        Ok(b3)
    };
    match after_time {
        Err(e) => Err(e),
        Ok(b4) => {
            let after_size: Result<BuilderView, Error> = if v.sizes.len() > 0 {
                spec_add_samples(b4, "size"@, "bytes"@, v.sizes)
            } else {
                Ok(b4)
            };
            match after_size {
                Err(e) => Err(e),
                Ok(b5) => Ok(spec_build(b5)),
            }
        }
    }
}

/// Folds the ordered batch stream into durable counters and derives the
/// profile artifact at the end of the run.
pub struct Aggregator {
    start: Option<u64>,
    operators: Vec<(u64, OpInfo)>,
    elapsed: Vec<((u64, u64), u64)>,
    sizes: Vec<((u64, u64), i64)>,
    sized: Vec<u64>,
}

impl View for Aggregator {
    type V = AggView;

    closed spec fn view(&self) -> AggView {
        AggView {
            start: self.start,
            operators: self.operators@.map_values(|kv: (u64, OpInfo)| (kv.0, kv.1@)),
            elapsed: self.elapsed@,
            sizes: self.sizes@,
            sized: self.sized@,
        }
    }
}

/// Signed saturating addition, built on the checked operation.
fn sat_add_i64_exec(a: i64, b: i64) -> (r: i64)
    ensures
        r == sat_add_i64(a, b),
{
    match a.checked_add(b) {
        Some(v) => v,
        None => if b > 0 {
            i64::MAX
        } else {
            i64::MIN
        },
    }
}

impl Aggregator {
    /// Structural invariant: unique keys in every counter map, and each
    /// size-row operator id recorded once.
    pub open spec fn wf(&self) -> bool {
        &&& keys_unique(self@.operators)
        &&& keys_unique(self@.elapsed)
        &&& keys_unique(self@.sizes)
        &&& forall|i: int, j: int|
            0 <= i < j < self@.sized.len() ==> self@.sized[i] != self@.sized[j]
    }

    /// An empty aggregate state.
    pub fn new() -> (r: Aggregator)
        ensures
            r.wf(),
            r@.start is None,
            r@.operators.len() == 0,
            r@.elapsed.len() == 0,
            r@.sizes.len() == 0,
            r@.sized.len() == 0,
    {
        let r = Aggregator {
            start: None,
            operators: Vec::new(),
            elapsed: Vec::new(),
            sizes: Vec::new(),
            sized: Vec::new(),
        };
        proof {
            assert(r@.operators =~= Seq::<(u64, OpInfoView)>::empty());
        }
        r
    }

    /// Records operator metadata: positive diffs upsert the directory,
    /// retractions of operator metadata are ignored.
    pub fn update_operator(&mut self, id: OpId, info: OpInfo, diff: i64)
        requires
            old(self).wf(),
        ensures
            final(self).wf(),
            diff > 0 ==> final(self)@ == (AggView {
                operators: upsert(old(self)@.operators, id, info@),
                ..old(self)@
            }),
            diff <= 0 ==> final(self)@ == old(self)@,
    {
        if diff <= 0 {
            return ;
        }
        let ghost m = self@.operators;
        let ghost iv = info@;
        proof {
            lemma_upsert_unique(m, id, iv);
        }
        let n = self.operators.len();
        let mut i: usize = 0;
        while i < n
            invariant
                i <= n == self.operators@.len(),
                self@ == old(self)@,
                old(self).wf(),
                diff > 0,
                m == self@.operators,
                keys_unique(m),
                iv == info@,
                forall|j: int| 0 <= j < i ==> (#[trigger] m[j]).0 != id,
            decreases n - i,
        {
            if self.operators[i].0 == id {
                proof {
                    lemma_key_index_unique(m, id, i as int);
                    lemma_upsert_unique(m, id, iv);
                }
                self.operators.set(i, (id, info));
                proof {
                    assert(self@.operators =~= m.update(i as int, (id, iv)));
                }
                return ;
            }
            i = i + 1;
        }
        self.operators.push((id, info));
        proof {
            assert(!has_key(m, id)) by {
                if has_key(m, id) {
                    lemma_key_index_in_range(m, id);
                }
            }
            assert(self@.operators =~= m.push((id, iv)));
        }
    }

    /// Accumulates one elapsed observation. Only non-negative diffs
    /// contribute: the remote counter is monotone, so retractions are
    /// dropped rather than subtracted.
    pub fn update_elapsed(&mut self, id: OpId, worker: WorkerId, diff: i64)
        requires
            old(self).wf(),
        ensures
            final(self).wf(),
            diff >= 0 ==> final(self)@ == (AggView {
                elapsed: upsert(
                    old(self)@.elapsed,
                    (id, worker),
                    sat_add_u64(
                        if has_key(old(self)@.elapsed, (id, worker)) {
                            key_value(old(self)@.elapsed, (id, worker))
                        } else {
                            0u64
                        },
                        diff as u64,
                    ),
                ),
                ..old(self)@
            }),
            diff < 0 ==> final(self)@ == old(self)@,
    {
        if diff < 0 {
            return ;
        }
        let d = diff as u64;
        let ghost m = self@.elapsed;
        let key = (id, worker);
        let n = self.elapsed.len();
        let mut i: usize = 0;
        while i < n
            invariant
                i <= n == self.elapsed@.len(),
                self@ == old(self)@,
                old(self).wf(),
                diff >= 0,
                m == self@.elapsed,
                keys_unique(m),
                d == diff as u64,
                key == (id, worker),
                forall|j: int| 0 <= j < i ==> (#[trigger] m[j]).0 != key,
            decreases n - i,
        {
            if self.elapsed[i].0.0 == id && self.elapsed[i].0.1 == worker {
                proof {
                    assert(m[i as int].0 == key);
                    lemma_key_index_unique(m, key, i as int);
                    lemma_upsert_unique(m, key, sat_add_u64(m[i as int].1, d));
                }
                let nv = self.elapsed[i].1.saturating_add(d);
                self.elapsed.set(i, (key, nv));
                return ;
            }
            i = i + 1;
        }
        proof {
            assert(!has_key(m, key)) by {
                if has_key(m, key) {
                    lemma_key_index_in_range(m, key);
                }
            }
            lemma_upsert_unique(m, key, sat_add_u64(0, d));
            assert(sat_add_u64(0, d) == d);
        }
        self.elapsed.push((key, d));
    }

    /// Records one size observation: the operator id always counts toward
    /// directory completeness; the signed diff accumulates only when a
    /// worker is present.
    pub fn update_size(&mut self, id: OpId, worker: Option<WorkerId>, diff: i64)
        requires
            old(self).wf(),
        ensures
            final(self).wf(),
            ({
                let v1 = if old(self)@.sized.contains(id) {
                    old(self)@
                } else {
                    AggView { sized: old(self)@.sized.push(id), ..old(self)@ }
                };
                match worker {
                    Some(w) => final(self)@ == (AggView {
                        sizes: upsert(
                            v1.sizes,
                            (id, w),
                            sat_add_i64(
                                if has_key(v1.sizes, (id, w)) {
                                    key_value(v1.sizes, (id, w))
                                } else {
                                    0i64
                                },
                                diff,
                            ),
                        ),
                        ..v1
                    }),
                    None => final(self)@ == v1,
                }
            }),
    {
        // Record the id for directory completeness.
        let ghost s0 = self@.sized;
        let ns = self.sized.len();
        let mut i: usize = 0;
        let mut present = false;
        while i < ns && !present
            invariant
                i <= ns == self.sized@.len(),
                self@ == old(self)@,
                s0 == self@.sized,
                !present ==> forall|j: int| 0 <= j < i ==> s0[j] != id,
                present ==> s0.contains(id),
            decreases ns - i + if present {
                0int
            } else {
                1int
            },
        {
            if self.sized[i] == id {
                present = true;
            } else {
                i = i + 1;
            }
        }
        if !present {
            proof {
                assert(!s0.contains(id));
            }
            self.sized.push(id);
        }
        let ghost v1 = self@;
        proof {
            if s0.contains(id) {
                assert(v1 == old(self)@);
            } else {
                assert(v1.sized =~= s0.push(id));
            }
            assert forall|a: int, b: int|
                0 <= a < b < v1.sized.len() implies v1.sized[a] != v1.sized[b] by {
                if b == v1.sized.len() - 1 && !s0.contains(id) {
                    assert(v1.sized[a] == s0[a]);
                    assert(s0.contains(id) || s0[a] != id);
                }
            }
        }
        let w = match worker {
            Some(w) => w,
            None => {
                return ;
            }
        };
        let ghost m = self@.sizes;
        let key = (id, w);
        let n = self.sizes.len();
        let mut k: usize = 0;
        while k < n
            invariant
                k <= n == self.sizes@.len(),
                self@ == v1,
                old(self).wf(),
                v1 == (if old(self)@.sized.contains(id) {
                    old(self)@
                } else {
                    AggView { sized: old(self)@.sized.push(id), ..old(self)@ }
                }),
                worker == Some(w),
                keys_unique(v1.operators),
                keys_unique(v1.elapsed),
                forall|a: int, b: int|
                    0 <= a < b < v1.sized.len() ==> v1.sized[a] != v1.sized[b],
                m == self@.sizes,
                keys_unique(m),
                key == (id, w),
                forall|j: int| 0 <= j < k ==> (#[trigger] m[j]).0 != key,
            decreases n - k,
        {
            if self.sizes[k].0.0 == id && self.sizes[k].0.1 == w {
                proof {
                    assert(m[k as int].0 == key);
                    lemma_key_index_unique(m, key, k as int);
                    lemma_upsert_unique(m, key, sat_add_i64(m[k as int].1, diff));
                }
                let nv = sat_add_i64_exec(self.sizes[k].1, diff);
                self.sizes.set(k, (key, nv));
                return ;
            }
            k = k + 1;
        }
        proof {
            assert(!has_key(m, key)) by {
                if has_key(m, key) {
                    lemma_key_index_in_range(m, key);
                }
            }
            lemma_upsert_unique(m, key, sat_add_i64(0, diff));
            assert(sat_add_i64(0, diff) == diff);
        }
        self.sizes.push((key, diff));
    }

    /// Folds one batch of the ordered stream; see [`spec_update`].
    pub fn update(&mut self, batch: Batch)
        requires
            old(self).wf(),
        ensures
            final(self).wf(),
            final(self)@ == spec_update(old(self)@, batch@),
    {
        let ghost us = batch@.updates;
        if self.start.is_none() {
            self.start = Some(batch.time);
        }
        let ghost v1 = self@;
        let Batch { time: _, updates } = batch;
        let mut updates = updates;
        let n0 = updates.len();
        proof {
            assert(updates@.map_values(|u: Update| u@) =~= us.skip(0));
            assert(us.take(0) =~= Seq::<UpdateView>::empty());
        }
        let mut k: usize = 0;
        while updates.len() > 0
            invariant
                k as int + updates@.len() == us.len(),
                us.len() <= usize::MAX,
                updates@.map_values(|u: Update| u@) == us.skip(k as int),
                self@ == spec_apply_all(v1, us.take(k as int)),
                self.wf(),
            decreases updates@.len(),
        {
            let ghost prev = updates@;
            let u = updates.remove(0);
            proof {
                assert(prev.map_values(|u2: Update| u2@)[0] == us.skip(k as int)[0]);
                assert(us.skip(k as int)[0] == us[k as int]);
                assert(u@ == us[k as int]);
            }
            let diff = u.diff;
            match u.data {
                Data::Operator(id, info) => self.update_operator(id, info, diff),
                Data::Elapsed(id, worker) => self.update_elapsed(id, worker, diff),
                Data::Size(id, worker) => self.update_size(id, worker, diff),
            }
            proof {
                assert(us.take(k + 1).drop_last() =~= us.take(k as int));
                assert(us.take(k + 1).last() == us[k as int]);
                assert(self@ == spec_apply(spec_apply_all(v1, us.take(k as int)), us[k as int]));
                assert(updates@.map_values(|u2: Update| u2@) =~= us.skip(k + 1)) by {
                    assert forall|q: int|
                        0 <= q < updates@.len() implies updates@.map_values(|u2: Update| u2@)[q]
                        == #[trigger] us.skip(k + 1)[q] by {
                        assert(updates@[q] == prev[q + 1]);
                        assert(prev.map_values(|u2: Update| u2@)[q + 1] == us.skip(k as int)[q
                            + 1]);
                        assert(us.skip(k as int)[q + 1] == us[k + 1 + q]);
                        assert(us.skip(k + 1)[q] == us[k + 1 + q]);
                    }
                }
            }
            k = k + 1;
        }
        proof {
            assert(us.take(k as int) =~= us);
        }
    }

    /// Whether the aggregate state is small enough for every string-table
    /// index of the derived profile to fit in a signed 64-bit integer:
    /// the machine limit [`build_pprof`] asks its callers for.
    pub fn within_build_budget(&self) -> (r: bool)
        ensures
            r == (self@.operators.len() + self@.sized.len() + 3 * self@.elapsed.len() + 3
                * self@.sizes.len() + 6 < 0x7fff_ffff_ffff_ffff),
    {
        let total: u128 = self.operators.len() as u128 + self.sized.len() as u128 + 3
            * (self.elapsed.len() as u128) + 3 * (self.sizes.len() as u128) + 6;
        total < 0x7fff_ffff_ffff_ffffu128
    }

    /// Derives the profile artifact from the aggregate state; see
    /// [`spec_build_result`]. The directory must be complete for the
    /// exclusive-time conversion and call-stack resolution, else the run
    /// fails as a whole.
    pub fn build_pprof(&self) -> (r: Result<Profile, Error>)
        requires
            self.wf(),
            self@.operators.len() + self@.sized.len() + 3 * self@.elapsed.len() + 3
                * self@.sizes.len() + 6 < 0x7fff_ffff_ffff_ffff,
        ensures
            match r {
                Ok(p) => spec_build_result(self@) == Ok::<ProfileView, Error>(p@),
                Err(e) => spec_build_result(self@) == Err::<ProfileView, Error>(e),
            },
    {
        let ghost v = self@;
        let ghost budget = v.operators.len() + v.sized.len() + 3 * v.elapsed.len() + 3
            * v.sizes.len() + 6;
        let mut builder = ProfileBuilder::new();
        match self.start {
            Some(t) => builder.set_time(t),
            None => {
            }
        }
        let ghost b0 = spec_builder_init(v.start);
        proof {
            assert(builder@.strings =~= b0.strings);
            assert(builder@.functions =~= b0.functions);
            assert(builder@.locations =~= b0.locations);
            assert(builder@.sample_types =~= b0.sample_types);
            assert(builder@.samples =~= b0.samples);
            assert(builder@.op_addrs =~= b0.op_addrs);
            assert(builder@.addr_ids =~= b0.addr_ids);
            assert(builder@ == b0);
        }
        let ghost ops = v.operators;
        let nops = self.operators.len();
        proof {
            assert(ops.take(0) =~= Seq::<(u64, OpInfoView)>::empty());
        }
        let mut i: usize = 0;
        while i < nops
            invariant
                i <= nops == self.operators@.len(),
                ops == ops_view(self.operators@),
                budget < 0x7fff_ffff_ffff_ffff,
                nops <= budget,
                builder.wf(),
                builder@ == spec_add_ops(b0, ops.take(i as int)),
                builder@.strings.len() <= 1 + i,
            decreases nops - i,
        {
            let id = self.operators[i].0;
            let ghost bprev = builder@;
            builder.add_operator(id, &self.operators[i].1);
            proof {
                assert(ops.take(i + 1).drop_last() =~= ops.take(i as int));
                assert(ops.take(i + 1).last() == ops[i as int]);
                assert(ops[i as int].0 == id);
                assert(ops[i as int].1.name == self.operators@[i as int].1.name@);
                assert(ops[i as int].1.address == self.operators@[i as int].1.address@);
                crate::pprof::lemma_intern_growth(bprev.strings, ops[i as int].1.name);
            }
            i = i + 1;
        }
        proof {
            assert(ops.take(nops as int) =~= ops);
        }
        let ghost b2 = builder@;
        let nsz = self.sized.len();
        proof {
            assert(v.sized.take(0) =~= Seq::<u64>::empty());
        }
        let mut k: usize = 0;
        while k < nsz
            invariant
                k <= nsz == self.sized@.len(),
                ops == ops_view(self.operators@),
                v.sized == self.sized@,
                budget < 0x7fff_ffff_ffff_ffff,
                nops + nsz <= budget,
                nops == self.operators@.len(),
                b2.strings.len() <= 1 + nops,
                builder.wf(),
                builder@ == spec_add_placeholders(b2, ops, v.sized.take(k as int)),
                builder@.strings.len() <= b2.strings.len() + k,
            decreases nsz - k,
        {
            let id = self.sized[k];
            let known = find_op(&self.operators, id);
            let have = builder.has_location(id);
            let ghost bprev = builder@;
            if known.is_none() && !have {
                builder.add_location(id, "<unknown>");
                proof {
                    crate::pprof::lemma_intern_growth(bprev.strings, placeholder_name());
                }
            }
            proof {
                assert(v.sized.take(k + 1).drop_last() =~= v.sized.take(k as int));
                assert(v.sized.take(k + 1).last() == v.sized[k as int]);
                match known {
                    Some(oi) => {
                        assert(has_key(ops, id));
                    }
                    None => {
                        assert(!has_key(ops, id));
                    }
                }
            }
            k = k + 1;
        }
        proof {
            assert(v.sized.take(nsz as int) =~= v.sized);
        }
        let ghost b3 = builder@;
        if self.elapsed.len() > 0 {
            let conv = match exclusive_times(&self.operators, &self.elapsed) {
                Ok(c) => c,
                Err(e) => {
                    proof {
                        assert(spec_build_result(v) == Err::<ProfileView, Error>(
                            Error::IncompleteDirectory,
                        ));
                    }
                    return Err(e);
                }
            };
            let mut entries: Vec<((u64, u64), i64)> = Vec::new();
            let ne = self.elapsed.len();
            let mut j: usize = 0;
            while j < ne
                invariant
                    j <= ne == conv@.len(),
                    ne == v.elapsed.len(),
                    v.elapsed == self.elapsed@,
                    ops == ops_view(self.operators@),
                    forall|q: int|
                        0 <= q < ne ==> (#[trigger] conv@[q]).0 == v.elapsed[q].0 && conv@[q].1
                            == excl_val(ops, v.elapsed, q),
                    entries@.len() == j,
                    forall|q: int|
                        0 <= q < j ==> (#[trigger] entries@[q]) == (
                        v.elapsed[q].0,
                        to_i64_sat(excl_val(ops, v.elapsed, q)),
                    ),
                decreases ne - j,
            {
                let key = conv[j].0;
                let val = conv[j].1;
                let sval: i64 = if val > 0x7fff_ffff_ffff_ffffu64 {
                    i64::MAX
                } else {
                    val as i64
                };
                entries.push((key, sval));
                j = j + 1;
            }
            proof {
                assert(entries@ =~= spec_excl_entries(ops, v.elapsed));
            }
            let ghost bpre = builder@;
            match builder.add_samples("time", "nanoseconds", &entries) {
                Ok(_) => {
                    proof {
                        lemma_add_samples_growth(
                            bpre,
                            "time"@,
                            "nanoseconds"@,
                            spec_excl_entries(ops, v.elapsed),
                        );
                    }
                }
                Err(e) => {
                    proof {
                        assert(spec_build_result(v) == Err::<ProfileView, Error>(e));
                    }
                    return Err(e);
                }
            }
        }
        if self.sizes.len() > 0 {
            match builder.add_samples("size", "bytes", &self.sizes) {
                Ok(_) => {
                }
                Err(e) => {
                    proof {
                        assert(spec_build_result(v) == Err::<ProfileView, Error>(e));
                    }
                    return Err(e);
                }
            }
        }
        let p = builder.build();
        proof {
            assert(spec_build_result(v) == Ok::<ProfileView, Error>(p@));
        }
        Ok(p)
    }
}

} // verus!
