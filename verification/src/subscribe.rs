//! One change-feed subscription: turning raw rows into typed updates and
//! emitting time-bounded batches according to a collection mode.
//!
//! A subscription is a state machine. The first row of a feed must be a
//! progress marker; its time is the session horizon, from which the mode
//! derives a cutoff. Data rows inside the window are parsed and buffered;
//! each further progress marker emits the buffered updates as one batch;
//! a progress marker past the cutoff finishes the feed.

use vstd::prelude::*;
use vstd::string::StrSliceExecFns;

use crate::collect::{Batch, BatchView, Data, DataView, Update, UpdateView};
use crate::text::{parse_u64_range, spec_parse_u64};
use crate::types::{Address, Error, OpInfo, OpInfoView};

verus! {

/// How long a subscription collects: exactly the state present at
/// subscribe time, or a live window, optionally bounded in milliseconds.
#[derive(Clone, Copy, Debug)]
pub enum Mode {
    Snapshot,
    Continual { duration: Option<u64> },
}

/// The number of leading `{` characters.
pub open spec fn leading_braces(s: Seq<char>) -> int
    decreases s.len(),
{
    if s.len() > 0 && s[0] == '{' {
        1 + leading_braces(s.drop_first())
    } else {
        0
    }
}

/// The number of trailing `}` characters.
pub open spec fn trailing_braces(s: Seq<char>) -> int
    decreases s.len(),
{
    if s.len() > 0 && s.last() == '}' {
        1 + trailing_braces(s.drop_last())
    } else {
        0
    }
}

/// Address text with all leading `{` and then all trailing `}` removed,
/// as two passes of `trim_start_matches` / `trim_end_matches` leave it.
pub open spec fn trim_braces(s: Seq<char>) -> Seq<char> {
    let a = s.skip(leading_braces(s));
    a.take(a.len() - trailing_braces(a))
}

/// The index of the first comma, or the length when there is none.
pub open spec fn first_comma(s: Seq<char>) -> int
    decreases s.len(),
{
    if s.len() == 0 {
        0
    } else if s[0] == ',' {
        0
    } else {
        1 + first_comma(s.drop_first())
    }
}

/// `first_comma` points at the first comma, after none.
pub proof fn lemma_first_comma(s: Seq<char>)
    ensures
        0 <= first_comma(s) <= s.len(),
        forall|j: int| 0 <= j < first_comma(s) ==> s[j] != ',',
        first_comma(s) < s.len() ==> s[first_comma(s)] == ',',
    decreases s.len(),
{
    if s.len() > 0 && s[0] != ',' {
        lemma_first_comma(s.drop_first());
        assert forall|j: int| 0 <= j < first_comma(s) implies s[j] != ',' by {
            if j > 0 {
                assert(s.drop_first()[j - 1] != ',');
            }
        }
        if first_comma(s) < s.len() {
            assert(s[first_comma(s)] == s.drop_first()[first_comma(s.drop_first())]);
        }
    }
}

/// `leading_braces` counts a maximal prefix of `{`.
pub proof fn lemma_leading_braces(s: Seq<char>)
    ensures
        0 <= leading_braces(s) <= s.len(),
        forall|j: int| 0 <= j < leading_braces(s) ==> s[j] == '{',
        leading_braces(s) < s.len() ==> s[leading_braces(s)] != '{',
    decreases s.len(),
{
    if s.len() > 0 && s[0] == '{' {
        lemma_leading_braces(s.drop_first());
        assert forall|j: int| 0 <= j < leading_braces(s) implies s[j] == '{' by {
            if j > 0 {
                assert(s.drop_first()[j - 1] == '{');
            }
        }
        if leading_braces(s) < s.len() {
            assert(s[leading_braces(s)] == s.drop_first()[leading_braces(s.drop_first())]);
        }
    }
}

/// `trailing_braces` counts a maximal suffix of `}`.
pub proof fn lemma_trailing_braces(s: Seq<char>)
    ensures
        0 <= trailing_braces(s) <= s.len(),
        forall|j: int| s.len() - trailing_braces(s) <= j < s.len() ==> s[j] == '}',
        trailing_braces(s) < s.len() ==> s[s.len() - trailing_braces(s) - 1] != '}',
    decreases s.len(),
{
    if s.len() > 0 && s.last() == '}' {
        lemma_trailing_braces(s.drop_last());
        assert(forall|j: int| 0 <= j < s.len() - 1 ==> s.drop_last()[j] == s[j]);
    }
}

/// The comma-separated tokens of trimmed address text, each parsed as a
/// `u64`; `None` as soon as any token is not a valid number.
pub open spec fn parse_addr_list(s: Seq<char>) -> Option<Seq<u64>>
    decreases s.len(),
    via parse_addr_list_decreases
{
    let i = first_comma(s);
    if i == s.len() {
        match spec_parse_u64(s) {
            Some(v) => Some(seq![v]),
            None => None,
        }
    } else {
        match (spec_parse_u64(s.take(i)), parse_addr_list(s.skip(i + 1))) {
            (Some(v), Some(rest)) => Some(seq![v] + rest),
            _ => None,
        }
    }
}

#[via_fn]
proof fn parse_addr_list_decreases(s: Seq<char>) {
    lemma_first_comma(s);
}

/// What parsing one address text column yields: trim the braces, split on
/// commas, parse every token. A valid result is never empty.
pub open spec fn spec_parse_address(s: Seq<char>) -> Option<Seq<u64>> {
    parse_addr_list(trim_braces(s))
}

/// Every successfully parsed address is non-empty.
pub proof fn lemma_parse_addr_list_nonempty(s: Seq<char>)
    ensures
        parse_addr_list(s) matches Some(a) ==> a.len() > 0,
    decreases s.len(),
{
    lemma_first_comma(s);
}

/// Parses one address text column (`{0,1,2}` style) into an address, or
/// `None` where the text is malformed.
pub fn parse_address(s: &str) -> (r: Option<Address>)
    ensures
        match r {
            Some(a) => spec_parse_address(s@) == Some(a@),
            None => spec_parse_address(s@) is None,
        },
{
    let n = s.unicode_len();
    let mut chars: Vec<char> = Vec::new();
    let mut i: usize = 0;
    while i < n
        invariant
            i <= n == s@.len(),
            chars@ == s@.take(i as int),
        decreases n - i,
    {
        let c = s.get_char(i);
        chars.push(c);
        proof {
            assert(chars@ =~= s@.take(i + 1));
        }
        i = i + 1;
    }
    proof {
        assert(s@.take(n as int) =~= s@);
    }
    // Trim all leading `{` characters, then all trailing `}` characters.
    let mut lo: usize = 0;
    while lo < n && chars[lo] == '{'
        invariant
            lo <= n,
            chars@ == s@,
            n == s@.len(),
            forall|j: int| 0 <= j < lo ==> s@[j] == '{',
        decreases n - lo,
    {
        lo = lo + 1;
    }
    proof {
        lemma_leading_braces(s@);
        let cl = leading_braces(s@);
        if cl < lo {
            assert(s@[cl] == '{');
            assert(false);
        }
        if cl > lo {
            assert(s@[lo as int] == '{');
            assert(false);
        }
        assert(cl == lo as int);
    }
    let ghost a = s@.skip(lo as int);
    let mut hi: usize = n;
    while hi > lo && chars[hi - 1] == '}'
        invariant
            lo <= hi <= n,
            chars@ == s@,
            n == s@.len(),
            a == s@.skip(lo as int),
            forall|j: int| hi <= j < n ==> s@[j] == '}',
        decreases hi,
    {
        hi = hi - 1;
    }
    proof {
        lemma_trailing_braces(a);
        let ct = trailing_braces(a);
        let am = a.len();
        assert(forall|j: int| 0 <= j < am ==> a[j] == s@[j + lo]);
        if ct < n - hi {
            // The known all-brace suffix [hi, n) is longer than `ct` says.
            assert(ct < am);
            assert(a[am - ct - 1] != '}');
            assert(am - ct - 1 >= hi - lo);
            assert(s@[am - ct - 1 + lo] == '}');
            assert(false);
        }
        if ct > n - hi {
            // The counted suffix would reach below `hi`, where the scan
            // stopped at a non-brace character.
            if hi > lo {
                assert(s@[hi - 1] != '}');
                assert(a[hi - lo - 1] == s@[hi - 1]);
                assert(am - ct <= hi - lo - 1);
                assert(a[hi - lo - 1] == '}');
                assert(false);
            } else {
                assert(ct > am);
                assert(false);
            }
        }
        assert(ct == n - hi);
        assert(trim_braces(s@) =~= s@.subrange(lo as int, hi as int));
    }
    let ghost body = trim_braces(s@);
    // Split the trimmed body on commas and parse every token.
    let mut vals: Vec<u64> = Vec::new();
    let mut cur: usize = lo;
    proof {
        assert(body.skip(0) =~= body);
        match parse_addr_list(body) {
            Some(rest) => {
                assert(vals@ + rest =~= rest);
            }
            None => {
            }
        }
    }
    loop
        invariant_except_break
            lo <= cur <= hi <= n,
            chars@ == s@,
            n == s@.len(),
            body == trim_braces(s@),
            body == s@.subrange(lo as int, hi as int),
            cur < hi || (cur == hi && hi == lo),
            ({
                let rem = body.skip(cur - lo);
                match parse_addr_list(rem) {
                    Some(rest) => parse_addr_list(body) == Some(vals@ + rest),
                    None => parse_addr_list(body) is None,
                }
            }),
        ensures
            parse_addr_list(body) == Some(vals@),
        decreases hi - cur,
    {
        // Find the end of the current token.
        let mut j: usize = cur;
        while j < hi && chars[j] != ','
            invariant
                cur <= j <= hi <= n,
                chars@ == s@,
                n == s@.len(),
                forall|k: int| cur <= k < j ==> s@[k] != ',',
            decreases hi - j,
        {
            j = j + 1;
        }
        let ghost rem = body.skip(cur - lo);
        proof {
            lemma_first_comma(rem);
            let fc = first_comma(rem);
            assert(forall|k: int| 0 <= k < rem.len() ==> rem[k] == s@[k + cur]);
            if fc < j - cur {
                assert(rem[fc] == ',');
                assert(s@[fc + cur] == ',');
                assert(false);
            }
            if fc > j - cur {
                assert(j < hi);
                assert(s@[j as int] == ',');
                assert(rem[j - cur] == ',');
                assert(false);
            }
            assert(fc == j - cur);
        }
        let v = match parse_u64_range(&chars, cur, j) {
            Some(v) => v,
            None => {
                proof {
                    let fc = first_comma(rem);
                    if fc == rem.len() {
                        assert(rem =~= s@.subrange(cur as int, j as int));
                    } else {
                        assert(rem.take(fc) =~= s@.subrange(cur as int, j as int));
                    }
                }
                return None;
            }
        };
        vals.push(v);
        proof {
            let fc = first_comma(rem);
            let ghost vs = vals@;
            if fc == rem.len() {
                assert(rem =~= s@.subrange(cur as int, j as int));
                assert(parse_addr_list(rem) == Some(seq![v]));
                assert(vs.drop_last() + (seq![v]) =~= vs);
            } else {
                assert(rem.take(fc) =~= s@.subrange(cur as int, j as int));
            }
        }
        if j == hi {
            proof {
                let rem2 = body.skip(j - lo);
                assert(rem2.len() == 0);
                assert(first_comma(rem2) == 0);
                assert(first_comma(rem) == rem.len());
                let old_vs = vals@.drop_last();
                assert(parse_addr_list(body) == Some(old_vs + seq![v]));
                assert(old_vs + seq![v] =~= vals@);
            }
            break ;
        }
        proof {
            let fc = first_comma(rem);
            assert(fc < rem.len());
            let rem2 = body.skip(j + 1 - lo);
            assert(rem2 =~= rem.skip(fc + 1));
            let old_vs = vals@.drop_last();
            match parse_addr_list(rem2) {
                Some(rest) => {
                    assert(parse_addr_list(rem) == Some(seq![v] + rest));
                    assert(parse_addr_list(body) == Some(old_vs + (seq![v] + rest)));
                    assert(old_vs + (seq![v] + rest) =~= vals@ + rest);
                }
                None => {
                    assert(parse_addr_list(rem) is None);
                }
            }
        }
        cur = j + 1;
        proof {
            if cur == hi {
                let rem2 = body.skip(cur - lo);
                assert(rem2.len() == 0);
            }
        }
        if cur == hi {
            // A trailing comma leaves one final empty token, which fails to
            // parse as a number.
            proof {
                let rem2 = body.skip(cur - lo);
                assert(first_comma(rem2) == 0 == rem2.len());
                assert(spec_parse_u64(rem2) is None);
                assert(parse_addr_list(rem2) is None);
                assert(parse_addr_list(body) is None);
            }
            return None;
        }
    }
    Some(Address(vals))
}

/// The operator-directory feed shape: id, name, nesting address.
pub struct Operator;

/// The cumulative elapsed-time feed shape: id, worker id.
pub struct Elapsed;

/// The arrangement-size feed shape: operator id, optional worker id.
pub struct Size;

/// What parsing an operator-directory row yields from its raw columns.
pub open spec fn spec_parse_operator(id: int, name: Seq<char>, address: Seq<char>) -> Result<
    DataView,
    Error,
> {
    if id < 0 || id > u64::MAX {
        Err(Error::InvalidId)
    } else {
        match spec_parse_address(address) {
            Some(a) => Ok(DataView::Operator(id as u64, OpInfoView { name: name, address: a })),
            None => Err(Error::InvalidAddress),
        }
    }
}

/// What parsing an elapsed-time row yields from its raw columns.
pub open spec fn spec_parse_elapsed(id: int, worker: int) -> Result<DataView, Error> {
    if id < 0 || worker < 0 {
        Err(Error::InvalidId)
    } else {
        Ok(DataView::Elapsed(id as u64, worker as u64))
    }
}

/// What parsing a size row yields from its raw columns.
pub open spec fn spec_parse_size(id: int, worker: Option<i64>) -> Result<DataView, Error> {
    if id < 0 {
        Err(Error::InvalidId)
    } else {
        match worker {
            Some(w) => if w < 0 {
                Err(Error::InvalidId)
            } else {
                Ok(DataView::Size(id as u64, Some(w as u64)))
            },
            None => Ok(DataView::Size(id as u64, None)),
        }
    }
}

impl Operator {
    /// Parses the raw columns of one directory row: the engine-side signed
    /// id must be non-negative, and the address text must be a brace-
    /// wrapped, comma-separated list of numbers.
    pub fn parse(id: i64, name: String, address: &str) -> (r: Result<Data, Error>)
        ensures
            match r {
                Ok(d) => spec_parse_operator(id as int, name@, address@) == Ok::<
                    DataView,
                    Error,
                >(d@),
                Err(e) => spec_parse_operator(id as int, name@, address@) == Err::<
                    DataView,
                    Error,
                >(e),
            },
    {
        if id < 0 {
            return Err(Error::InvalidId);
        }
        match parse_address(address) {
            Some(a) => Ok(Data::Operator(id as u64, OpInfo { name, address: a })),
            None => Err(Error::InvalidAddress),
        }
    }
}

impl Elapsed {
    /// Parses the raw columns of one elapsed-time row.
    pub fn parse(id: i64, worker: i64) -> (r: Result<Data, Error>)
        ensures
            match r {
                Ok(d) => spec_parse_elapsed(id as int, worker as int) == Ok::<DataView, Error>(d@),
                Err(e) => spec_parse_elapsed(id as int, worker as int) == Err::<DataView, Error>(
                    e,
                ),
            },
    {
        if id < 0 || worker < 0 {
            return Err(Error::InvalidId);
        }
        Ok(Data::Elapsed(id as u64, worker as u64))
    }
}

impl Size {
    /// Parses the raw columns of one size row; the worker column may be
    /// null for an operator without measurable size.
    pub fn parse(id: i64, worker: Option<i64>) -> (r: Result<Data, Error>)
        ensures
            match r {
                Ok(d) => spec_parse_size(id as int, worker) == Ok::<DataView, Error>(d@),
                Err(e) => spec_parse_size(id as int, worker) == Err::<DataView, Error>(e),
            },
    {
        if id < 0 {
            return Err(Error::InvalidId);
        }
        match worker {
            Some(w) => if w < 0 {
                Err(Error::InvalidId)
            } else {
                Ok(Data::Size(id as u64, Some(w as u64)))
            },
            None => Ok(Data::Size(id as u64, None)),
        }
    }
}

/// Payload columns of one data row, by feed shape, as the transport layer
/// hands them over: identifiers still signed, the address still text.
#[derive(Debug)]
#[allow(inconsistent_fields)]
pub enum Payload {
    Operator { id: i64, name: String, address: String },
    Elapsed { id: i64, worker: i64 },
    Size { id: i64, worker: Option<i64> },
}

/// Mathematical model of a [`Payload`].
#[allow(inconsistent_fields)]
pub ghost enum PayloadView {
    Operator { id: i64, name: Seq<char>, address: Seq<char> },
    Elapsed { id: i64, worker: i64 },
    Size { id: i64, worker: Option<i64> },
}

impl View for Payload {
    type V = PayloadView;

    open spec fn view(&self) -> PayloadView {
        match self {
            Payload::Operator { id, name, address } => PayloadView::Operator {
                id: *id,
                name: name@,
                address: address@,
            },
            Payload::Elapsed { id, worker } => PayloadView::Elapsed { id: *id, worker: *worker },
            Payload::Size { id, worker } => PayloadView::Size { id: *id, worker: *worker },
        }
    }
}

/// One raw row of a feed: either a progress marker, which carries only a
/// logical time and promises that no data row below that time is still
/// outstanding, or a data row.
#[derive(Debug)]
pub enum Row {
    Progress { time: u64 },
    Data { time: u64, diff: i64, payload: Payload },
}

/// Mathematical model of a [`Row`].
pub ghost enum RowView {
    Progress { time: u64 },
    Data { time: u64, diff: i64, payload: PayloadView },
}

impl View for Row {
    type V = RowView;

    open spec fn view(&self) -> RowView {
        match self {
            Row::Progress { time } => RowView::Progress { time: *time },
            Row::Data { time, diff, payload } => RowView::Data {
                time: *time,
                diff: *diff,
                payload: payload@,
            },
        }
    }
}

/// Where a subscription stands in its lifecycle.
#[derive(Clone, Copy, Debug)]
pub enum Phase {
    /// No row seen yet; the first one must be a progress marker.
    AwaitingHorizon,
    /// Collecting rows with time at or below the cutoff; `None` means the
    /// subscription runs until the feed itself closes.
    Streaming { up_to: Option<u64> },
    /// Past the cutoff; no further batches are produced.
    Finished,
}

/// The cutoff a mode derives from the session horizon: the horizon itself
/// for a snapshot, the horizon plus the configured duration (saturating)
/// for a bounded live window, none for an unbounded one.
pub open spec fn spec_up_to(mode: Mode, origin: u64) -> Option<u64> {
    match mode {
        Mode::Snapshot => Some(origin),
        Mode::Continual { duration } => match duration {
            Some(d) => Some(
                if origin + d > u64::MAX {
                    u64::MAX
                } else {
                    (origin + d) as u64
                },
            ),
            None => None,
        },
    }
}

/// Whether time `t` lies at or below the cutoff.
pub open spec fn in_window(up_to: Option<u64>, t: u64) -> bool {
    match up_to {
        None => true,
        Some(u) => t <= u,
    }
}

/// What parsing a data row's payload yields.
pub open spec fn spec_parse_payload(p: PayloadView) -> Result<DataView, Error> {
    match p {
        PayloadView::Operator { id, name, address } => spec_parse_operator(
            id as int,
            name,
            address,
        ),
        PayloadView::Elapsed { id, worker } => spec_parse_elapsed(id as int, worker as int),
        PayloadView::Size { id, worker } => spec_parse_size(id as int, worker),
    }
}

/// The full transition relation of a subscription on one row: the next
/// phase, the next pending-update buffer, and the batch emitted, if any.
pub open spec fn spec_step(
    mode: Mode,
    phase: Phase,
    stash: Seq<UpdateView>,
    row: RowView,
) -> Result<(Phase, Seq<UpdateView>, Option<BatchView>), Error> {
    match phase {
        Phase::Finished => Ok((phase, stash, None)),
        Phase::AwaitingHorizon => match row {
            RowView::Progress { time } => Ok(
                (Phase::Streaming { up_to: spec_up_to(mode, time) }, stash, None),
            ),
            RowView::Data { .. } => Err(Error::FirstRowNotProgress),
        },
        Phase::Streaming { up_to } => match row {
            RowView::Progress { time } => {
                let ph = if in_window(up_to, time) {
                    Phase::Streaming { up_to }
                } else {
                    Phase::Finished
                };
                Ok((ph, Seq::empty(), Some(BatchView { time, updates: stash })))
            }
            RowView::Data { time, diff, payload } => {
                if in_window(up_to, time) {
                    match spec_parse_payload(payload) {
                        Ok(d) => Ok(
                            (phase, stash.push(UpdateView { data: d, time, diff }), None),
                        ),
                        Err(e) => Err(e),
                    }
                } else {
                    Ok((phase, stash, None))
                }
            }
        },
    }
}

/// Drives one change feed: feeds raw rows in, takes time-bounded batches
/// out. Single-use: once finished, a subscription produces nothing more.
pub struct Subscribe {
    mode: Mode,
    phase: Phase,
    stash: Vec<Update>,
}

/// Mathematical model of a [`Subscribe`].
pub ghost struct SubscribeView {
    pub mode: Mode,
    pub phase: Phase,
    pub stash: Seq<UpdateView>,
}

impl View for Subscribe {
    type V = SubscribeView;

    closed spec fn view(&self) -> SubscribeView {
        SubscribeView {
            mode: self.mode,
            phase: self.phase,
            stash: self.stash@.map_values(|u: Update| u@),
        }
    }
}

impl Subscribe {
    /// A fresh subscription that still awaits its first progress marker.
    pub fn new(mode: Mode) -> (r: Subscribe)
        ensures
            r@.mode == mode,
            r@.phase == Phase::AwaitingHorizon,
            r@.stash.len() == 0,
    {
        Subscribe { mode, phase: Phase::AwaitingHorizon, stash: Vec::new() }
    }

    /// Whether the subscription has passed its cutoff: a finished
    /// subscription produces no further batches and its feed connection
    /// may be torn down.
    pub fn is_finished(&self) -> (r: bool)
        ensures
            r == (self@.phase is Finished),
    {
        match self.phase {
            Phase::Finished => true,
            _ => false,
        }
    }

    /// Absorbs one raw row, stepping the state machine exactly as
    /// [`spec_step`] describes: protocol violations and malformed columns
    /// are fatal, in-window data rows are buffered, and each progress
    /// marker past the horizon emits the buffer as one batch.
    pub fn absorb_row(&mut self, row: Row) -> (r: Result<Option<Batch>, Error>)
        ensures
            ({
                let step = spec_step(old(self)@.mode, old(self)@.phase, old(self)@.stash, row@);
                match step {
                    Ok(next) => {
                        &&& final(self)@.mode == old(self)@.mode
                        &&& final(self)@.phase == next.0
                        &&& final(self)@.stash == next.1
                        &&& (match (r, next.2) {
                            (Ok(Some(b)), Some(bv)) => b@ == bv,
                            (Ok(None), None) => true,
                            _ => false,
                        })
                    }
                    Err(e) => {
                        &&& (r matches Err(e2) && e2 == e)
                        &&& final(self)@ == old(self)@
                    }
                }
            }),
    {
        match self.phase {
            Phase::Finished => Ok(None),
            Phase::AwaitingHorizon => match row {
                Row::Progress { time } => {
                    let up_to = match self.mode {
                        Mode::Snapshot => Some(time),
                        Mode::Continual { duration } => match duration {
                            Some(d) => Some(time.saturating_add(d)),
                            None => None,
                        },
                    };
                    self.phase = Phase::Streaming { up_to };
                    Ok(None)
                }
                Row::Data { .. } => Err(Error::FirstRowNotProgress),
            },
            Phase::Streaming { up_to } => match row {
                Row::Progress { time } => {
                    let past = match up_to {
                        None => false,
                        Some(u) => time > u,
                    };
                    if past {
                        self.phase = Phase::Finished;
                    }
                    let updates = self.stash.split_off(0);
                    proof {
                        assert(self.stash@ =~= Seq::<Update>::empty());
                        assert(self@.stash =~= Seq::<UpdateView>::empty());
                        assert(updates@ =~= old(self).stash@);
                    }
                    Ok(Some(Batch { time, updates }))
                }
                Row::Data { time, diff, payload } => {
                    let in_w = match up_to {
                        None => true,
                        Some(u) => time <= u,
                    };
                    if in_w {
                        let parsed = match payload {
                            Payload::Operator { id, name, address } => Operator::parse(
                                id,
                                name,
                                address.as_str(),
                            ),
                            Payload::Elapsed { id, worker } => Elapsed::parse(id, worker),
                            Payload::Size { id, worker } => Size::parse(id, worker),
                        };
                        match parsed {
                            Ok(d) => {
                                let ghost st0 = self@.stash;
                                let ghost dv = d@;
                                self.stash.push(Update { data: d, time, diff });
                                proof {
                                    assert(self@.stash =~= st0.push(
                                        UpdateView { data: dv, time, diff },
                                    ));
                                }
                                Ok(None)
                            }
                            Err(e) => Err(e),
                        }
                    } else {
                        Ok(None)
                    }
                }
            },
        }
    }
}

} // verus!
