//! The call-tree profile artifact: a deduplicated string table, one
//! function and location per operator, and multi-column samples aligned to
//! the list of sample types.

use vstd::prelude::*;

use crate::kv::{has_key, key_index, key_value, keys_unique, lemma_key_index_in_range,
    lemma_key_index_unique, lemma_upsert_unique, upsert};
use crate::text::{spec_dec, u64_to_dec};
use crate::types::{Address, Error, OpInfo};

verus! {

/// One sample-type entry: indices into the string table for the type name
/// and its unit.
#[derive(Clone, Copy, Debug, PartialEq, Eq, Structural)]
pub struct ValueType {
    pub type_: i64,
    pub unit: i64,
}

/// One sample label: string-table indices for key and value.
#[derive(Clone, Copy, Debug, PartialEq, Eq, Structural)]
pub struct Label {
    pub key: i64,
    pub str_: i64,
}

/// One function entry: the operator id and the string-table index of its
/// name.
#[derive(Clone, Copy, Debug, PartialEq, Eq, Structural)]
pub struct Function {
    pub id: u64,
    pub name: i64,
}

/// One line of a location, referencing a function.
#[derive(Clone, Copy, Debug, PartialEq, Eq, Structural)]
pub struct Line {
    pub function_id: u64,
}

/// One location entry; id and address both equal the operator id, and the
/// single line references the operator's function.
#[derive(Debug)]
pub struct Location {
    pub id: u64,
    pub address: u64,
    pub line: Vec<Line>,
}

/// Mathematical model of a [`Location`].
pub ghost struct LocationView {
    pub id: u64,
    pub address: u64,
    pub line: Seq<Line>,
}

impl View for Location {
    type V = LocationView;

    open spec fn view(&self) -> LocationView {
        LocationView { id: self.id, address: self.address, line: self.line@ }
    }
}

/// One weighted sample: a call stack of location ids (the operator first,
/// then its ancestors nearest first), one value per registered sample
/// type, and a `worker` label.
#[derive(Debug)]
pub struct Sample {
    pub location_id: Vec<u64>,
    pub value: Vec<i64>,
    pub label: Vec<Label>,
}

/// Mathematical model of a [`Sample`].
pub ghost struct SampleView {
    pub location_id: Seq<u64>,
    pub value: Seq<i64>,
    pub label: Seq<Label>,
}

impl View for Sample {
    type V = SampleView;

    open spec fn view(&self) -> SampleView {
        SampleView { location_id: self.location_id@, value: self.value@, label: self.label@ }
    }
}

/// The finished profile artifact.
#[derive(Debug)]
pub struct Profile {
    pub sample_type: Vec<ValueType>,
    pub sample: Vec<Sample>,
    pub location: Vec<Location>,
    pub function: Vec<Function>,
    pub string_table: Vec<String>,
    pub time_nanos: i64,
}

/// Mathematical model of a [`Profile`].
pub ghost struct ProfileView {
    pub sample_type: Seq<ValueType>,
    pub sample: Seq<SampleView>,
    pub location: Seq<LocationView>,
    pub function: Seq<Function>,
    pub string_table: Seq<Seq<char>>,
    pub time_nanos: i64,
}

impl View for Profile {
    type V = ProfileView;

    open spec fn view(&self) -> ProfileView {
        ProfileView {
            sample_type: self.sample_type@,
            sample: self.sample@.map_values(|s: Sample| s@),
            location: self.location@.map_values(|l: Location| l@),
            function: self.function@,
            string_table: self.string_table@.map_values(|s: String| s@),
            time_nanos: self.time_nanos,
        }
    }
}

/// Whether the table already holds string `s`.
pub open spec fn str_has(tab: Seq<Seq<char>>, s: Seq<char>) -> bool {
    exists|i: int| 0 <= i < tab.len() && tab[i] == s
}

/// The index of string `s` (the index, when the table is deduplicated).
pub open spec fn str_index(tab: Seq<Seq<char>>, s: Seq<char>) -> int {
    choose|i: int| 0 <= i < tab.len() && tab[i] == s
}

/// Interning a string: an already-present string keeps the table and
/// returns its index; a new one is appended.
pub open spec fn spec_intern(tab: Seq<Seq<char>>, s: Seq<char>) -> (Seq<Seq<char>>, int) {
    if str_has(tab, s) {
        (tab, str_index(tab, s))
    } else {
        (tab.push(s), tab.len() as int)
    }
}

/// A well-formed string table: never empty, index 0 reserved for the empty
/// string, no duplicates, and small enough that indices fit in `i64`.
pub open spec fn table_wf(tab: Seq<Seq<char>>) -> bool {
    &&& tab.len() >= 1
    &&& tab.len() <= 0x7fff_ffff_ffff_ffff
    &&& tab[0] == Seq::<char>::empty()
    &&& forall|i: int, j: int| 0 <= i < j < tab.len() ==> tab[i] != tab[j]
}

/// With a deduplicated table, any index holding `s` is `str_index`.
pub proof fn lemma_str_index_unique(tab: Seq<Seq<char>>, s: Seq<char>, i: int)
    requires
        forall|a: int, b: int| 0 <= a < b < tab.len() ==> tab[a] != tab[b],
        0 <= i < tab.len(),
        tab[i] == s,
    ensures
        str_has(tab, s),
        str_index(tab, s) == i,
{
    assert(str_has(tab, s));
    let j = str_index(tab, s);
    assert(0 <= j < tab.len() && tab[j] == s);
    if i < j {
        assert(tab[i] != tab[j]);
        assert(false);
    }
    if j < i {
        assert(tab[j] != tab[i]);
        assert(false);
    }
}

/// Interning preserves table well-formedness.
pub proof fn lemma_intern_wf(tab: Seq<Seq<char>>, s: Seq<char>)
    requires
        table_wf(tab),
        tab.len() < 0x7fff_ffff_ffff_ffff,
    ensures
        table_wf(spec_intern(tab, s).0),
        0 <= spec_intern(tab, s).1 < spec_intern(tab, s).0.len(),
        spec_intern(tab, s).0[spec_intern(tab, s).1] == s,
{
    if str_has(tab, s) {
        let i = str_index(tab, s);
        assert(0 <= i < tab.len() && tab[i] == s);
    } else {
        let t2 = tab.push(s);
        assert forall|i: int, j: int| 0 <= i < j < t2.len() implies t2[i] != t2[j] by {
            if j == t2.len() - 1 {
                if t2[i] == s {
                    assert(str_has(tab, s));
                }
            }
        }
    }
}

/// Builds a deduplicated string table with index 0 reserved for the empty
/// string: inserting an equal string twice returns the same index.
pub struct StringTable {
    table: Vec<String>,
}

impl View for StringTable {
    type V = Seq<Seq<char>>;

    closed spec fn view(&self) -> Seq<Seq<char>> {
        self.table@.map_values(|s: String| s@)
    }
}

impl StringTable {
    /// Structural invariant; see [`table_wf`].
    pub open spec fn wf(&self) -> bool {
        table_wf(self@)
    }

    /// A table holding only the reserved empty string.
    pub fn new() -> (r: StringTable)
        ensures
            r.wf(),
            r@ =~= seq![Seq::<char>::empty()],
    {
        let mut table: Vec<String> = Vec::new();
        table.push(String::new());
        let r = StringTable { table };
        proof {
            assert(r@ =~= seq![Seq::<char>::empty()]);
        }
        r
    }

    /// Interns `s` and returns its index: the existing index when an equal
    /// string was inserted before, the next free index otherwise.
    pub fn insert(&mut self, s: &str) -> (idx: i64)
        requires
            old(self).wf(),
            old(self)@.len() < 0x7fff_ffff_ffff_ffff,
        ensures
            final(self).wf(),
            final(self)@ == spec_intern(old(self)@, s@).0,
            idx as int == spec_intern(old(self)@, s@).1,
            0 <= idx < final(self)@.len(),
            final(self)@[idx as int] == s@,
    {
        let ghost tab = self@;
        proof {
            lemma_intern_wf(tab, s@);
        }
        let owned: String = s.to_owned();
        let n = self.table.len();
        let mut i: usize = 0;
        while i < n
            invariant
                i <= n == self.table@.len(),
                self@ == tab,
                table_wf(tab),
                tab.len() < 0x7fff_ffff_ffff_ffff,
                owned@ == s@,
                forall|j: int| 0 <= j < i ==> tab[j] != s@,
            decreases n - i,
        {
            if self.table[i] == owned {
                proof {
                    lemma_str_index_unique(tab, s@, i as int);
                    assert(tab.len() <= 0x7fff_ffff_ffff_ffff);
                }
                return i as i64;
            }
            i = i + 1;
        }
        proof {
            assert(!str_has(tab, s@)) by {
                if str_has(tab, s@) {
                    let j = str_index(tab, s@);
                    assert(0 <= j < tab.len() && tab[j] == s@);
                }
            }
        }
        self.table.push(owned);
        proof {
            assert(self@ =~= tab.push(s@));
        }
        n as i64
    }

    /// Hands the table out in index order.
    pub fn finish(self) -> (r: Vec<String>)
        ensures
            r@.map_values(|s: String| s@) == self@,
    {
        self.table
    }
}

/// Mathematical model of a [`ProfileBuilder`]: all keyed collections as
/// insertion-ordered association sequences with unique keys.
pub ghost struct BuilderView {
    pub strings: Seq<Seq<char>>,
    pub functions: Seq<(u64, Function)>,
    pub locations: Seq<(u64, LocationView)>,
    pub sample_types: Seq<ValueType>,
    pub samples: Seq<((u64, u64), SampleView)>,
    pub op_addrs: Seq<(u64, Seq<u64>)>,
    pub addr_ids: Seq<(Seq<u64>, u64)>,
    pub time_ms: Option<u64>,
}

/// A well-formed builder: deduplicated strings, unique keys everywhere,
/// and every sample's value vector aligned to the sample-type list.
pub open spec fn builder_wf(b: BuilderView) -> bool {
    &&& table_wf(b.strings)
    &&& keys_unique(b.functions)
    &&& keys_unique(b.locations)
    &&& keys_unique(b.samples)
    &&& keys_unique(b.op_addrs)
    &&& keys_unique(b.addr_ids)
    &&& forall|i: int|
        0 <= i < b.samples.len() ==> (#[trigger] b.samples[i]).1.value.len()
            == b.sample_types.len()
}

/// The name used for a function synthesized for an operator id that no
/// directory row ever described.
pub open spec fn placeholder_name() -> Seq<char> {
    "<unknown>"@
}

/// Registering one function/location pair for `id`: intern the name, then
/// upsert a function entry and a location entry, both keyed by `id`, the
/// location's single line referencing the function.
pub open spec fn spec_add_location(b: BuilderView, id: u64, name: Seq<char>) -> BuilderView {
    let tab = spec_intern(b.strings, name);
    BuilderView {
        strings: tab.0,
        functions: upsert(b.functions, id, Function { id, name: tab.1 as i64 }),
        locations: upsert(
            b.locations,
            id,
            LocationView { id, address: id, line: seq![Line { function_id: id }] },
        ),
        ..b
    }
}

/// Registering a directory operator: its location plus both directions of
/// the id/address relation.
pub open spec fn spec_add_operator(b: BuilderView, id: u64, name: Seq<char>, addr: Seq<u64>) -> BuilderView {
    let b1 = spec_add_location(b, id, name);
    BuilderView {
        op_addrs: upsert(b1.op_addrs, id, addr),
        addr_ids: upsert(b1.addr_ids, addr, id),
        ..b1
    }
}

/// The operator ids of the proper prefixes of `addr` with lengths `k`
/// down to 1, nearest first; `None` as soon as a prefix has no operator.
pub open spec fn spec_stack_ids(ai: Seq<(Seq<u64>, u64)>, addr: Seq<u64>, k: int) -> Option<
    Seq<u64>,
>
    decreases k,
{
    if k <= 0 {
        Some(Seq::empty())
    } else {
        let p = addr.take(k);
        if has_key(ai, p) {
            match spec_stack_ids(ai, addr, k - 1) {
                Some(rest) => Some(seq![key_value(ai, p)] + rest),
                None => None,
            }
        } else {
            None
        }
    }
}

/// The call stack for operator `id`: `id` itself, then the id of every
/// ancestor address, nearest first. An id with a known address whose
/// ancestor is unknown is a fatal consistency error; an id with no known
/// address gets a single-frame stack, synthesizing a placeholder
/// function/location if it has none yet.
pub open spec fn spec_build_stack(b: BuilderView, id: u64) -> Result<(Seq<u64>, BuilderView), Error> {
    if has_key(b.op_addrs, id) {
        let addr = key_value(b.op_addrs, id);
        match spec_stack_ids(b.addr_ids, addr, addr.len() - 1) {
            Some(anc) => Ok((seq![id] + anc, b)),
            None => Err(Error::IncompleteDirectory),
        }
    } else if has_key(b.locations, id) {
        Ok((seq![id], b))
    } else {
        Ok((seq![id], spec_add_location(b, id, placeholder_name())))
    }
}

/// A value vector of `n` zeros.
pub open spec fn zeros(n: int) -> Seq<i64> {
    Seq::new(n as nat, |i: int| 0i64)
}

/// Guarantees a sample exists under `key`: absent keys get a fresh sample
/// with the stack computed from the operator id, an all-zero value vector,
/// and a single `worker` label holding the worker id in decimal.
pub open spec fn spec_ensure_sample(b: BuilderView, ncols: int, key: (u64, u64)) -> Result<
    BuilderView,
    Error,
> {
    if has_key(b.samples, key) {
        Ok(b)
    } else {
        match spec_build_stack(b, key.0) {
            Err(e) => Err(e),
            Ok(sb) => {
                let b2 = sb.1;
                let t1 = spec_intern(b2.strings, "worker"@);
                let t2 = spec_intern(t1.0, spec_dec(key.1 as int));
                Ok(
                    BuilderView {
                        strings: t2.0,
                        samples: b2.samples.push(
                            (
                                key,
                                SampleView {
                                    location_id: sb.0,
                                    value: zeros(ncols),
                                    label: seq![Label { key: t1.1 as i64, str_: t2.1 as i64 }],
                                },
                            ),
                        ),
                        ..b2
                    },
                )
            }
        }
    }
}

/// Writes `value` into the last value slot of the sample under `key`.
pub open spec fn spec_set_last(b: BuilderView, ncols: int, key: (u64, u64), value: i64) -> BuilderView {
    let i = key_index(b.samples, key);
    let smp = b.samples[i].1;
    BuilderView {
        samples: b.samples.update(i, (key, SampleView { value: smp.value.update(ncols - 1, value), ..smp })),
        ..b
    }
}

/// Records one column entry: create the sample if needed, then set its
/// last value slot.
pub open spec fn spec_add_one(b: BuilderView, ncols: int, key: (u64, u64), value: i64) -> Result<
    BuilderView,
    Error,
> {
    match spec_ensure_sample(b, ncols, key) {
        Err(e) => Err(e),
        Ok(b2) => Ok(spec_set_last(b2, ncols, key, value)),
    }
}

/// Folds a whole column's entries, in order.
pub open spec fn spec_add_entries(
    b: BuilderView,
    ncols: int,
    entries: Seq<((u64, u64), i64)>,
) -> Result<BuilderView, Error>
    decreases entries.len(),
{
    if entries.len() == 0 {
        Ok(b)
    } else {
        match spec_add_entries(b, ncols, entries.drop_last()) {
            Err(e) => Err(e),
            Ok(b2) => spec_add_one(b2, ncols, entries.last().0, entries.last().1),
        }
    }
}

/// Appending a sample-value column: register the (type, unit) strings as a
/// new sample type, pad every existing sample with a zero, then fold the
/// column's entries.
pub open spec fn spec_add_samples(
    b: BuilderView,
    type_: Seq<char>,
    unit: Seq<char>,
    entries: Seq<((u64, u64), i64)>,
) -> Result<BuilderView, Error> {
    let t1 = spec_intern(b.strings, type_);
    let t2 = spec_intern(t1.0, unit);
    let b1 = BuilderView {
        strings: t2.0,
        sample_types: b.sample_types.push(ValueType { type_: t1.1 as i64, unit: t2.1 as i64 }),
        samples: b.samples.map_values(
            |kv: ((u64, u64), SampleView)|
                (kv.0, SampleView { value: kv.1.value.push(0i64), ..kv.1 }),
        ),
        ..b
    };
    spec_add_entries(b1, b1.sample_types.len() as int, entries)
}

/// The finished artifact: every keyed collection in insertion order, and
/// the collection-start watermark in (saturating) nanoseconds.
pub open spec fn spec_build(b: BuilderView) -> ProfileView {
    ProfileView {
        sample_type: b.sample_types,
        sample: b.samples.map_values(|kv: ((u64, u64), SampleView)| kv.1),
        location: b.locations.map_values(|kv: (u64, LocationView)| kv.1),
        function: b.functions.map_values(|kv: (u64, Function)| kv.1),
        string_table: b.strings,
        time_nanos: match b.time_ms {
            None => 0,
            Some(ms) => if ms * 1000000 > i64::MAX {
                i64::MAX
            } else {
                (ms * 1000000) as i64
            },
        },
    }
}

/// Accumulates the pieces of a profile and assembles them; all keyed
/// collections deduplicate by key in insertion order.
pub struct ProfileBuilder {
    strings: StringTable,
    functions: Vec<(u64, Function)>,
    locations: Vec<(u64, Location)>,
    sample_types: Vec<ValueType>,
    samples: Vec<((u64, u64), Sample)>,
    op_addrs: Vec<(u64, Address)>,
    addr_ids: Vec<(Address, u64)>,
    time_ms: Option<u64>,
}

impl View for ProfileBuilder {
    type V = BuilderView;

    closed spec fn view(&self) -> BuilderView {
        BuilderView {
            strings: self.strings@,
            functions: self.functions@,
            locations: self.locations@.map_values(|kv: (u64, Location)| (kv.0, kv.1@)),
            sample_types: self.sample_types@,
            samples: self.samples@.map_values(|kv: ((u64, u64), Sample)| (kv.0, kv.1@)),
            op_addrs: self.op_addrs@.map_values(|kv: (u64, Address)| (kv.0, kv.1@)),
            addr_ids: self.addr_ids@.map_values(|kv: (Address, u64)| (kv.0@, kv.1)),
            time_ms: self.time_ms,
        }
    }
}

impl ProfileBuilder {
    /// Structural invariant; see [`builder_wf`].
    pub open spec fn wf(&self) -> bool {
        builder_wf(self@)
    }

    /// An empty builder: only the reserved empty string, nothing else.
    pub fn new() -> (r: ProfileBuilder)
        ensures
            r.wf(),
            r@.strings =~= seq![Seq::<char>::empty()],
            r@.functions.len() == 0,
            r@.locations.len() == 0,
            r@.sample_types.len() == 0,
            r@.samples.len() == 0,
            r@.op_addrs.len() == 0,
            r@.addr_ids.len() == 0,
            r@.time_ms is None,
    {
        let r = ProfileBuilder {
            strings: StringTable::new(),
            functions: Vec::new(),
            locations: Vec::new(),
            sample_types: Vec::new(),
            samples: Vec::new(),
            op_addrs: Vec::new(),
            addr_ids: Vec::new(),
            time_ms: None,
        };
        proof {
            assert(r@.locations =~= Seq::<(u64, LocationView)>::empty());
            assert(r@.samples =~= Seq::<((u64, u64), SampleView)>::empty());
            assert(r@.op_addrs =~= Seq::<(u64, Seq<u64>)>::empty());
            assert(r@.addr_ids =~= Seq::<(Seq<u64>, u64)>::empty());
        }
        r
    }

    /// Interns one string; see [`StringTable::insert`].
    pub fn add_string(&mut self, s: &str) -> (idx: i64)
        requires
            old(self).wf(),
            old(self)@.strings.len() < 0x7fff_ffff_ffff_ffff,
        ensures
            final(self).wf(),
            final(self)@ == (BuilderView { strings: spec_intern(old(self)@.strings, s@).0, ..old(self)@ }),
            idx as int == spec_intern(old(self)@.strings, s@).1,
    {
        self.strings.insert(s)
    }

    /// Records the collection-start watermark, in milliseconds.
    pub fn set_time(&mut self, time_ms: u64)
        requires
            old(self).wf(),
        ensures
            final(self).wf(),
            final(self)@ == (BuilderView { time_ms: Some(time_ms), ..old(self)@ }),
    {
        self.time_ms = Some(time_ms);
    }

    /// Upserts into the function list, keeping insertion order.
    fn upsert_function(&mut self, id: u64, f: Function)
        requires
            keys_unique(old(self)@.functions),
        ensures
            final(self)@ == (BuilderView {
                functions: upsert(old(self)@.functions, id, f),
                ..old(self)@
            }),
            keys_unique(final(self)@.functions),
    {
        let ghost m = self@.functions;
        proof {
            lemma_upsert_unique(m, id, f);
        }
        let n = self.functions.len();
        let mut i: usize = 0;
        while i < n
            invariant
                i <= n == self.functions@.len(),
                self@ == old(self)@,
                m == self@.functions,
                keys_unique(m),
                forall|j: int| 0 <= j < i ==> (#[trigger] m[j]).0 != id,
            decreases n - i,
        {
            if self.functions[i].0 == id {
                proof {
                    lemma_key_index_unique(m, id, i as int);
                }
                self.functions.set(i, (id, f));
                return ;
            }
            i = i + 1;
        }
        self.functions.push((id, f));
        proof {
            assert(!has_key(m, id)) by {
                if has_key(m, id) {
                    lemma_key_index_in_range(m, id);
                }
            }
        }
    }

    /// Upserts into the location list, keeping insertion order.
    fn upsert_location(&mut self, id: u64, loc: Location)
        requires
            keys_unique(old(self)@.locations),
        ensures
            final(self)@ == (BuilderView {
                locations: upsert(old(self)@.locations, id, loc@),
                ..old(self)@
            }),
            keys_unique(final(self)@.locations),
    {
        let ghost m = self@.locations;
        let ghost lv = loc@;
        proof {
            lemma_upsert_unique(m, id, lv);
        }
        let n = self.locations.len();
        let mut i: usize = 0;
        while i < n
            invariant
                i <= n == self.locations@.len(),
                self@ == old(self)@,
                m == self@.locations,
                keys_unique(m),
                lv == loc@,
                forall|j: int| 0 <= j < i ==> (#[trigger] m[j]).0 != id,
            decreases n - i,
        {
            if self.locations[i].0 == id {
                proof {
                    lemma_key_index_unique(m, id, i as int);
                }
                self.locations.set(i, (id, loc));
                proof {
                    assert(self@.locations =~= m.update(i as int, (id, lv)));
                }
                return ;
            }
            i = i + 1;
        }
        self.locations.push((id, loc));
        proof {
            assert(!has_key(m, id)) by {
                if has_key(m, id) {
                    lemma_key_index_in_range(m, id);
                }
            }
            assert(self@.locations =~= m.push((id, lv)));
        }
    }

    /// Upserts into the id-to-address relation, keeping insertion order.
    fn upsert_op_addr(&mut self, id: u64, addr: Address)
        requires
            keys_unique(old(self)@.op_addrs),
        ensures
            final(self)@ == (BuilderView {
                op_addrs: upsert(old(self)@.op_addrs, id, addr@),
                ..old(self)@
            }),
            keys_unique(final(self)@.op_addrs),
    {
        let ghost m = self@.op_addrs;
        let ghost av = addr@;
        proof {
            lemma_upsert_unique(m, id, av);
        }
        let n = self.op_addrs.len();
        let mut i: usize = 0;
        while i < n
            invariant
                i <= n == self.op_addrs@.len(),
                self@ == old(self)@,
                m == self@.op_addrs,
                keys_unique(m),
                av == addr@,
                forall|j: int| 0 <= j < i ==> (#[trigger] m[j]).0 != id,
            decreases n - i,
        {
            if self.op_addrs[i].0 == id {
                proof {
                    lemma_key_index_unique(m, id, i as int);
                }
                self.op_addrs.set(i, (id, addr));
                proof {
                    assert(self@.op_addrs =~= m.update(i as int, (id, av)));
                }
                return ;
            }
            i = i + 1;
        }
        self.op_addrs.push((id, addr));
        proof {
            assert(!has_key(m, id)) by {
                if has_key(m, id) {
                    lemma_key_index_in_range(m, id);
                }
            }
            assert(self@.op_addrs =~= m.push((id, av)));
        }
    }

    /// Upserts into the address-to-id relation, keeping insertion order.
    fn upsert_addr_id(&mut self, addr: Address, id: u64)
        requires
            keys_unique(old(self)@.addr_ids),
        ensures
            final(self)@ == (BuilderView {
                addr_ids: upsert(old(self)@.addr_ids, addr@, id),
                ..old(self)@
            }),
            keys_unique(final(self)@.addr_ids),
    {
        let ghost m = self@.addr_ids;
        let ghost av = addr@;
        proof {
            lemma_upsert_unique(m, av, id);
        }
        let n = self.addr_ids.len();
        let mut i: usize = 0;
        while i < n
            invariant
                i <= n == self.addr_ids@.len(),
                self@ == old(self)@,
                m == self@.addr_ids,
                keys_unique(m),
                av == addr@,
                forall|j: int| 0 <= j < i ==> (#[trigger] m[j]).0 != av,
            decreases n - i,
        {
            let same = self.addr_ids[i].0.same_as(&addr);
            proof {
                assert(m[i as int].0 == self.addr_ids@[i as int].0@);
            }
            if same {
                proof {
                    lemma_key_index_unique(m, av, i as int);
                }
                self.addr_ids.set(i, (addr, id));
                proof {
                    assert(self@.addr_ids =~= m.update(i as int, (av, id)));
                }
                return ;
            }
            i = i + 1;
        }
        self.addr_ids.push((addr, id));
        proof {
            assert(!has_key(m, av)) by {
                if has_key(m, av) {
                    lemma_key_index_in_range(m, av);
                }
            }
            assert(self@.addr_ids =~= m.push((av, id)));
        }
    }

    /// Registers one function/location pair for `id` under `name`; see
    /// [`spec_add_location`].
    pub fn add_location(&mut self, id: u64, name: &str)
        requires
            old(self).wf(),
            old(self)@.strings.len() < 0x7fff_ffff_ffff_ffff,
        ensures
            final(self).wf(),
            final(self)@ == spec_add_location(old(self)@, id, name@),
    {
        let idx = self.add_string(name);
        let mut line: Vec<Line> = Vec::new();
        line.push(Line { function_id: id });
        let loc = Location { id, address: id, line };
        proof {
            assert(loc@.line =~= seq![Line { function_id: id }]);
        }
        self.upsert_function(id, Function { id, name: idx });
        self.upsert_location(id, loc);
    }

    /// Looks up the operator id registered under an address.
    fn find_addr_id(&self, addr: &Address) -> (r: Option<u64>)
        requires
            keys_unique(self@.addr_ids),
        ensures
            match r {
                Some(id) => has_key(self@.addr_ids, addr@) && key_value(self@.addr_ids, addr@)
                    == id,
                None => !has_key(self@.addr_ids, addr@),
            },
    {
        let ghost m = self@.addr_ids;
        let n = self.addr_ids.len();
        let mut i: usize = 0;
        while i < n
            invariant
                i <= n == self.addr_ids@.len(),
                m == self@.addr_ids,
                keys_unique(m),
                forall|j: int| 0 <= j < i ==> (#[trigger] m[j]).0 != addr@,
            decreases n - i,
        {
            let same = self.addr_ids[i].0.same_as(addr);
            proof {
                assert(m[i as int].0 == self.addr_ids@[i as int].0@);
            }
            if same {
                proof {
                    lemma_key_index_unique(m, addr@, i as int);
                }
                return Some(self.addr_ids[i].1);
            }
            i = i + 1;
        }
        proof {
            assert(!has_key(m, addr@)) by {
                if has_key(m, addr@) {
                    lemma_key_index_in_range(m, addr@);
                }
            }
        }
        None
    }

    /// The position of `id` in the id-to-address relation.
    fn find_op_addr(&self, id: u64) -> (r: Option<usize>)
        ensures
            match r {
                Some(i) => i < self.op_addrs@.len() && self@.op_addrs[i as int].0 == id,
                None => !has_key(self@.op_addrs, id),
            },
    {
        let ghost m = self@.op_addrs;
        let n = self.op_addrs.len();
        let mut i: usize = 0;
        while i < n
            invariant
                i <= n == self.op_addrs@.len(),
                m == self@.op_addrs,
                forall|j: int| 0 <= j < i ==> (#[trigger] m[j]).0 != id,
            decreases n - i,
        {
            if self.op_addrs[i].0 == id {
                return Some(i);
            }
            i = i + 1;
        }
        proof {
            assert(!has_key(m, id)) by {
                if has_key(m, id) {
                    lemma_key_index_in_range(m, id);
                }
            }
        }
        None
    }

    /// Whether a location entry exists for `id`.
    pub fn has_location(&self, id: u64) -> (r: bool)
        ensures
            r == has_key(self@.locations, id),
    {
        let ghost m = self@.locations;
        let n = self.locations.len();
        let mut i: usize = 0;
        while i < n
            invariant
                i <= n == self.locations@.len(),
                m == self@.locations,
                forall|j: int| 0 <= j < i ==> (#[trigger] m[j]).0 != id,
            decreases n - i,
        {
            if self.locations[i].0 == id {
                proof {
                    assert(m[i as int].0 == id);
                    assert(has_key(m, id));
                }
                return true;
            }
            i = i + 1;
        }
        proof {
            assert(!has_key(m, id)) by {
                if has_key(m, id) {
                    lemma_key_index_in_range(m, id);
                }
            }
        }
        false
    }

    /// Computes the call stack for operator `id`; see [`spec_build_stack`].
    pub fn build_operator_stack(&mut self, id: u64) -> (r: Result<Vec<u64>, Error>)
        requires
            old(self).wf(),
            old(self)@.strings.len() < 0x7fff_ffff_ffff_ffff,
        ensures
            final(self).wf(),
            ({
                let step = spec_build_stack(old(self)@, id);
                match step {
                    Ok(sb) => {
                        &&& (r matches Ok(v) && v@ == sb.0)
                        &&& final(self)@ == sb.1
                    }
                    Err(e) => {
                        &&& r == Err::<Vec<u64>, Error>(e)
                        &&& final(self)@ == old(self)@
                    }
                }
            }),
    {
        let ghost b0 = self@;
        match self.find_op_addr(id) {
            Some(idx) => {
                proof {
                    lemma_key_index_unique(b0.op_addrs, id, idx as int);
                    assert(key_value(b0.op_addrs, id) == b0.op_addrs[idx as int].1);
                }
                let addr = self.op_addrs[idx].1.duplicate();
                let ghost av = addr@;
                let mut stack: Vec<u64> = Vec::new();
                stack.push(id);
                if addr.0.len() == 0 {
                    proof {
                        assert(spec_stack_ids(b0.addr_ids, av, av.len() - 1) == Some(
                            Seq::<u64>::empty(),
                        ));
                        assert(seq![id] + Seq::<u64>::empty() =~= stack@);
                    }
                    return Ok(stack);
                }
                proof {
                    assert(av == key_value(b0.op_addrs, id));
                }
                let ghost full = spec_stack_ids(b0.addr_ids, av, av.len() - 1);
                let mut k: usize = addr.0.len() - 1;
                while k > 0
                    invariant_except_break
                        k < av.len(),
                        av == addr@,
                        addr@.len() == addr.0@.len(),
                        b0 == old(self)@,
                        self@ == b0,
                        old(self).wf(),
                        has_key(b0.op_addrs, id),
                        av == key_value(b0.op_addrs, id),
                        full == spec_stack_ids(b0.addr_ids, av, av.len() - 1),
                        stack@.len() >= 1,
                        stack@[0] == id,
                        ({
                            match spec_stack_ids(b0.addr_ids, av, k as int) {
                                Some(rest) => full == Some(stack@.skip(1) + rest),
                                None => full is None,
                            }
                        }),
                    ensures
                        self@ == b0,
                        full == Some(stack@.skip(1)),
                        stack@.len() >= 1,
                        stack@[0] == id,
                    decreases k,
                {
                    let p = addr.prefix(k);
                    proof {
                        assert(p@ == av.take(k as int));
                    }
                    match self.find_addr_id(&p) {
                        None => {
                            proof {
                                assert(spec_stack_ids(b0.addr_ids, av, k as int) is None);
                                assert(full is None);
                            }
                            return Err(Error::IncompleteDirectory);
                        }
                        Some(pid) => {
                            let ghost st0 = stack@;
                            stack.push(pid);
                            proof {
                                assert(has_key(b0.addr_ids, av.take(k as int)));
                                assert(key_value(b0.addr_ids, av.take(k as int)) == pid);
                                match spec_stack_ids(b0.addr_ids, av, k - 1) {
                                    Some(r2) => {
                                        assert(spec_stack_ids(b0.addr_ids, av, k as int)
                                            == Some(seq![pid] + r2));
                                        assert(stack@.skip(1) =~= st0.skip(1) + seq![pid]);
                                        assert(st0.skip(1) + (seq![pid] + r2) =~= (st0.skip(1)
                                            + seq![pid]) + r2);
                                    }
                                    None => {
                                        assert(spec_stack_ids(b0.addr_ids, av, k as int)
                                            is None);
                                        assert(full is None);
                                    }
                                }
                            }
                        }
                    }
                    k = k - 1;
                    proof {
                        if k == 0 {
                            assert(spec_stack_ids(b0.addr_ids, av, 0) == Some(
                                Seq::<u64>::empty(),
                            ));
                            assert(stack@.skip(1) + Seq::<u64>::empty() =~= stack@.skip(1));
                        }
                    }
                }
                proof {
                    assert(seq![id] + stack@.skip(1) =~= stack@);
                }
                Ok(stack)
            }
            None => {
                if self.has_location(id) {
                    let mut v: Vec<u64> = Vec::new();
                    v.push(id);
                    proof {
                        assert(v@ =~= seq![id]);
                    }
                    Ok(v)
                } else {
                    self.add_location(id, "<unknown>");
                    let mut v: Vec<u64> = Vec::new();
                    v.push(id);
                    proof {
                        assert(v@ =~= seq![id]);
                    }
                    Ok(v)
                }
            }
        }
    }

    /// Registers a directory operator; see [`spec_add_operator`].
    pub fn add_operator(&mut self, id: u64, info: &OpInfo)
        requires
            old(self).wf(),
            old(self)@.strings.len() < 0x7fff_ffff_ffff_ffff,
        ensures
            final(self).wf(),
            final(self)@ == spec_add_operator(old(self)@, id, info.name@, info.address@),
    {
        self.add_location(id, info.name.as_str());
        self.upsert_op_addr(id, info.address.duplicate());
        self.upsert_addr_id(info.address.duplicate(), id);
    }
}

impl ProfileBuilder {
    /// The position of `key` in the sample list.
    fn find_sample(&self, key: (u64, u64)) -> (r: Option<usize>)
        ensures
            match r {
                Some(i) => i < self.samples@.len() && self@.samples[i as int].0 == key,
                None => !has_key(self@.samples, key),
            },
    {
        let ghost m = self@.samples;
        let n = self.samples.len();
        let mut i: usize = 0;
        while i < n
            invariant
                i <= n == self.samples@.len(),
                m == self@.samples,
                forall|j: int| 0 <= j < i ==> (#[trigger] m[j]).0 != key,
            decreases n - i,
        {
            if self.samples[i].0.0 == key.0 && self.samples[i].0.1 == key.1 {
                proof {
                    assert(m[i as int].0 == key);
                }
                return Some(i);
            }
            i = i + 1;
        }
        proof {
            assert(!has_key(m, key)) by {
                if has_key(m, key) {
                    lemma_key_index_in_range(m, key);
                }
            }
        }
        None
    }

    /// Appends one sample-value column; see [`spec_add_samples`]. Existing
    /// samples are padded with a zero, missing samples are created with
    /// their call stack and worker label, and each entry lands in the new
    /// column's slot. A missing ancestor operator is a fatal consistency
    /// error.
    pub fn add_samples(&mut self, type_: &str, unit: &str, entries: &Vec<((u64, u64), i64)>) -> (r:
        Result<(), Error>)
        requires
            old(self).wf(),
            old(self)@.strings.len() + 2 + 3 * entries@.len() < 0x7fff_ffff_ffff_ffff,
        ensures
            ({
                let step = spec_add_samples(old(self)@, type_@, unit@, entries@);
                match step {
                    Ok(b2) => {
                        &&& r is Ok
                        &&& final(self).wf()
                        &&& final(self)@ == b2
                    }
                    Err(e) => r == Err::<(), Error>(e),
                }
            }),
    {
        let ghost b0 = self@;
        let t = self.add_string(type_);
        let u = self.add_string(unit);
        self.sample_types.push(ValueType { type_: t, unit: u });
        // Pad every existing sample's value vector with a zero for the new
        // column.
        let ghost m0 = self@.samples;
        let ghost fixed = self@;
        let n0 = self.samples.len();
        let mut i: usize = 0;
        while i < n0
            invariant
                i <= n0 == self.samples@.len(),
                m0.len() == n0,
                self@.strings == fixed.strings,
                self@.functions == fixed.functions,
                self@.locations == fixed.locations,
                self@.sample_types == fixed.sample_types,
                self@.op_addrs == fixed.op_addrs,
                self@.addr_ids == fixed.addr_ids,
                self@.time_ms == fixed.time_ms,
                forall|j: int| i <= j < m0.len() ==> #[trigger] self@.samples[j] == m0[j],
                forall|j: int|
                    0 <= j < i ==> #[trigger] self@.samples[j] == (
                    m0[j].0,
                    SampleView {
                        value: m0[j].1.value.push(0i64),
                        location_id: m0[j].1.location_id,
                        label: m0[j].1.label,
                    },
                ),
            decreases n0 - i,
        {
            let ghost prev = self@.samples;
            let ghost pv = self.samples@;
            let entry = self.samples.remove(i);
            let (k, mut smp) = entry;
            smp.value.push(0);
            let ghost elt = (k, smp);
            self.samples.insert(i, (k, smp));
            proof {
                pv.remove_ensures(i as int);
                pv.remove(i as int).insert_ensures(i as int, elt);
                assert(self.samples@ == pv.remove(i as int).insert(i as int, elt));
                assert(self.samples@.len() == pv.len());
                assert forall|j: int|
                    0 <= j < pv.len() && j != i implies #[trigger] self.samples@[j] == pv[j] by {
                    if j < i {
                        assert(self.samples@[j] == pv.remove(i as int)[j]);
                    } else {
                        assert(self.samples@[j] == pv.remove(i as int)[j - 1]);
                    }
                }
                assert(self.samples@[i as int] == elt);
                assert(elt.0 == prev[i as int].0);
                assert(elt.1@.value =~= prev[i as int].1.value.push(0i64));
                assert(elt.1@.location_id == prev[i as int].1.location_id);
                assert(elt.1@.label == prev[i as int].1.label);
                assert(prev[i as int] == m0[i as int]);
                assert forall|j: int|
                    0 <= j < self@.samples.len() && j != i implies #[trigger] self@.samples[j]
                    == prev[j] by {
                    assert(self.samples@[j] == pv[j]);
                }
                assert(self@.samples[i as int] == (
                m0[i as int].0,
                SampleView {
                    value: m0[i as int].1.value.push(0i64),
                    location_id: m0[i as int].1.location_id,
                    label: m0[i as int].1.label,
                },
                ));
            }
            i = i + 1;
        }
        let ghost b1 = self@;
        proof {
            let t1 = spec_intern(b0.strings, type_@);
            let t2 = spec_intern(t1.0, unit@);
            let b1spec = BuilderView {
                strings: t2.0,
                sample_types: b0.sample_types.push(
                    ValueType { type_: t1.1 as i64, unit: t2.1 as i64 },
                ),
                samples: b0.samples.map_values(
                    |kv: ((u64, u64), SampleView)|
                        (kv.0, SampleView { value: kv.1.value.push(0i64), ..kv.1 }),
                ),
                ..b0
            };
            assert(b1.samples =~= b1spec.samples);
            assert(b1.sample_types =~= b1spec.sample_types);
            assert(b1 == b1spec);
            // Well-formedness of the padded builder.
            assert forall|j: int|
                0 <= j < b1.samples.len() implies (#[trigger] b1.samples[j]).1.value.len()
                == b1.sample_types.len() by {
                assert(b1.samples[j] == (
                m0[j].0,
                SampleView {
                    value: m0[j].1.value.push(0i64),
                    location_id: m0[j].1.location_id,
                    label: m0[j].1.label,
                },
                ));
            }
            assert forall|a: int, b: int|
                0 <= a < b < b1.samples.len() implies (#[trigger] b1.samples[a]).0 != (
            #[trigger] b1.samples[b]).0 by {
                assert(b1.samples[a].0 == m0[a].0);
                assert(b1.samples[b].0 == m0[b].0);
            }
            assert(builder_wf(b1));
        }
        let ncols = self.sample_types.len();
        proof {
            assert(entries@.take(0) =~= Seq::<((u64, u64), i64)>::empty());
        }
        let ne = entries.len();
        let mut j: usize = 0;
        while j < ne
            invariant
                j <= ne == entries@.len(),
                ncols == b1.sample_types.len(),
                ncols >= 1,
                self@.sample_types == b1.sample_types,
                self.wf(),
                b1.strings.len() + 3 * ne < 0x7fff_ffff_ffff_ffff,
                self@.strings.len() <= b1.strings.len() + 3 * j,
                spec_add_samples(old(self)@, type_@, unit@, entries@) == spec_add_entries(
                    b1,
                    ncols as int,
                    entries@,
                ),
                spec_add_entries(b1, ncols as int, entries@.take(j as int)) == Ok::<
                    BuilderView,
                    Error,
                >(self@),
            decreases ne - j,
        {
            let ghost bj = self@;
            let key = entries[j].0;
            let value = entries[j].1;
            let found = self.find_sample(key);
            let ghost bmid = self@;
            let idx = match found {
                None => {
                    let stack = match self.build_operator_stack(key.0) {
                        Ok(s) => s,
                        Err(e) => {
                            proof {
                                assert(spec_build_stack(bj, key.0) == Err::<
                                    (Seq<u64>, BuilderView),
                                    Error,
                                >(e));
                                assert(spec_ensure_sample(bj, ncols as int, key) == Err::<
                                    BuilderView,
                                    Error,
                                >(e));
                                assert(spec_add_one(bj, ncols as int, key, value) == Err::<
                                    BuilderView,
                                    Error,
                                >(e));
                                assert(entries@.take(j + 1).drop_last() =~= entries@.take(
                                    j as int,
                                ));
                                assert(entries@.take(j + 1).last() == entries@[j as int]);
                                assert(spec_add_entries(b1, ncols as int, entries@.take(j + 1))
                                    == Err::<BuilderView, Error>(e));
                                lemma_entries_fold_err(b1, ncols as int, entries@, j + 1, e);
                            }
                            return Err(e);
                        }
                    };
                    let kw = self.add_string("worker");
                    let ws = u64_to_dec(key.1);
                    let wsi = self.add_string(ws.as_str());
                    let mut value_vec: Vec<i64> = Vec::new();
                    let mut z: usize = 0;
                    while z < ncols
                        invariant
                            z <= ncols,
                            value_vec@ =~= zeros(z as int),
                        decreases ncols - z,
                    {
                        value_vec.push(0);
                        proof {
                            assert(value_vec@ =~= zeros(z + 1));
                        }
                        z = z + 1;
                    }
                    let mut labels: Vec<Label> = Vec::new();
                    labels.push(Label { key: kw, str_: wsi });
                    let smp = Sample { location_id: stack, value: value_vec, label: labels };
                    let ghost sv = smp@;
                    let ghost bpre = self@;
                    self.samples.push((key, smp));
                    proof {
                        assert(self@.samples =~= bpre.samples.push((key, sv)));
                        assert(sv.label =~= seq![
                            Label {
                                key: spec_intern(
                                    spec_build_stack(bj, key.0)->Ok_0.1.strings,
                                    "worker"@,
                                ).1 as i64,
                                str_: spec_intern(
                                    spec_intern(
                                        spec_build_stack(bj, key.0)->Ok_0.1.strings,
                                        "worker"@,
                                    ).0,
                                    spec_dec(key.1 as int),
                                ).1 as i64,
                            },
                        ]);
                        assert(sv.value =~= zeros(ncols as int));
                        assert(spec_ensure_sample(bj, ncols as int, key) == Ok::<
                            BuilderView,
                            Error,
                        >(self@));
                    }
                    self.samples.len() - 1
                }
                Some(i2) => {
                    proof {
                        assert(spec_ensure_sample(bj, ncols as int, key) == Ok::<
                            BuilderView,
                            Error,
                        >(self@));
                    }
                    i2
                }
            };
            // Write the value into the new column's slot.
            proof {
                assert(idx < self@.samples.len() && self@.samples[idx as int].0 == key);
            }
            let ghost be = self@;
            proof {
                assert(keys_unique(be.samples));
                lemma_key_index_unique(be.samples, key, idx as int);
            }
            let ghost pv = self.samples@;
            let entry = self.samples.remove(idx);
            let (k2, mut smp) = entry;
            proof {
                assert(pv[idx as int].1@ == be.samples[idx as int].1);
                assert(smp@.value.len() == ncols);
            }
            smp.value.set(ncols - 1, value);
            let ghost elt = (k2, smp);
            self.samples.insert(idx, (k2, smp));
            proof {
                pv.remove_ensures(idx as int);
                pv.remove(idx as int).insert_ensures(idx as int, elt);
                assert(self.samples@ == pv.remove(idx as int).insert(idx as int, elt));
                assert(self.samples@.len() == pv.len());
                assert forall|q: int|
                    0 <= q < pv.len() && q != idx implies #[trigger] self.samples@[q] == pv[q] by {
                    if q < idx {
                        assert(self.samples@[q] == pv.remove(idx as int)[q]);
                    } else {
                        assert(self.samples@[q] == pv.remove(idx as int)[q - 1]);
                    }
                }
                assert(self.samples@[idx as int] == elt);
                let target = spec_set_last(be, ncols as int, key, value);
                assert(elt.1@.value =~= be.samples[idx as int].1.value.update(
                    ncols - 1,
                    value,
                ));
                assert forall|q: int|
                    0 <= q < self@.samples.len() implies #[trigger] self@.samples[q]
                    == target.samples[q] by {
                    if q != idx {
                        assert(self@.samples[q] == be.samples[q]);
                    }
                }
                assert(self@.samples =~= target.samples);
                assert(self@ == target);
                assert(spec_add_one(bj, ncols as int, key, value) == Ok::<BuilderView, Error>(
                    self@,
                ));
                assert(entries@.take(j + 1).drop_last() =~= entries@.take(j as int));
                assert(entries@.take(j + 1).last() == entries@[j as int]);
                // Well-formedness is preserved: keys unchanged, lengths kept.
                assert forall|q: int|
                    0 <= q < self@.samples.len() implies (#[trigger] self@.samples[q]).1.value.len()
                    == self@.sample_types.len() by {
                    if q != idx {
                        assert(self@.samples[q] == be.samples[q]);
                    }
                }
                assert forall|a: int, b: int|
                    0 <= a < b < self@.samples.len() implies (#[trigger] self@.samples[a]).0 != (
                #[trigger] self@.samples[b]).0 by {
                    assert(self@.samples[a].0 == be.samples[a].0);
                    assert(self@.samples[b].0 == be.samples[b].0);
                }
            }
            j = j + 1;
        }
        proof {
            assert(entries@.take(ne as int) =~= entries@);
        }
        Ok(())
    }

    /// Assembles the finished artifact; see [`spec_build`].
    pub fn build(self) -> (r: Profile)
        ensures
            r@ == spec_build(self@),
    {
        let ghost b = self@;
        let ProfileBuilder {
            strings,
            functions,
            locations,
            sample_types,
            samples,
            op_addrs: _,
            addr_ids: _,
            time_ms,
        } = self;
        let time_nanos: i64 = match time_ms {
            None => 0,
            Some(ms) => {
                if ms > 9223372036854u64 {
                    i64::MAX
                } else {
                    (ms * 1000000) as i64
                }
            }
        };
        let mut function: Vec<Function> = Vec::new();
        let mut src_f = functions;
        while src_f.len() > 0
            invariant
                function@ + src_f@.map_values(|kv: (u64, Function)| kv.1) =~= b.functions.map_values(
                    |kv: (u64, Function)| kv.1,
                ),
            decreases src_f@.len(),
        {
            let ghost pf = src_f@;
            let kv = src_f.remove(0);
            function.push(kv.1);
            proof {
                assert(src_f@ =~= pf.drop_first());
                assert(function@ + src_f@.map_values(|kv2: (u64, Function)| kv2.1) =~= b.functions.map_values(
                    |kv2: (u64, Function)| kv2.1,
                ));
            }
        }
        let mut location: Vec<Location> = Vec::new();
        let mut src_l = locations;
        while src_l.len() > 0
            invariant
                location@.map_values(|l: Location| l@) + src_l@.map_values(
                    |kv: (u64, Location)| kv.1@,
                ) =~= b.locations.map_values(|kv: (u64, LocationView)| kv.1),
            decreases src_l@.len(),
        {
            let ghost pl = src_l@;
            let kv = src_l.remove(0);
            location.push(kv.1);
            proof {
                assert(src_l@ =~= pl.drop_first());
                assert(location@.map_values(|l: Location| l@) + src_l@.map_values(
                    |kv2: (u64, Location)| kv2.1@,
                ) =~= b.locations.map_values(|kv2: (u64, LocationView)| kv2.1));
            }
        }
        let mut sample: Vec<Sample> = Vec::new();
        let mut src_s = samples;
        while src_s.len() > 0
            invariant
                sample@.map_values(|s: Sample| s@) + src_s@.map_values(
                    |kv: ((u64, u64), Sample)| kv.1@,
                ) =~= b.samples.map_values(|kv: ((u64, u64), SampleView)| kv.1),
            decreases src_s@.len(),
        {
            let ghost ps = src_s@;
            let kv = src_s.remove(0);
            sample.push(kv.1);
            proof {
                assert(src_s@ =~= ps.drop_first());
                assert(sample@.map_values(|s: Sample| s@) + src_s@.map_values(
                    |kv2: ((u64, u64), Sample)| kv2.1@,
                ) =~= b.samples.map_values(|kv2: ((u64, u64), SampleView)| kv2.1));
            }
        }
        let string_table = strings.finish();
        let r = Profile { sample_type: sample_types, sample, location, function, string_table, time_nanos };
        proof {
            assert(r@.sample =~= spec_build(b).sample);
            assert(r@.location =~= spec_build(b).location);
            assert(r@.function =~= spec_build(b).function);
            assert(r@.string_table == spec_build(b).string_table);
            assert(r@ == spec_build(b));
        }
        r
    }
}

/// Unknown-operator placeholder: recording a sample for an operator id
/// that the directory never described (no address, no location, no
/// function, no prior sample) still yields exactly one new function
/// entry, one new location entry and one new sample, the sample carrying
/// a single-frame stack and the function carrying the placeholder name.
pub proof fn lemma_unknown_operator_placeholder(b: BuilderView, ncols: int, key: (u64, u64))
    requires
        builder_wf(b),
        !has_key(b.op_addrs, key.0),
        !has_key(b.locations, key.0),
        !has_key(b.functions, key.0),
        !has_key(b.samples, key),
    ensures
        spec_ensure_sample(b, ncols, key) matches Ok(b2) ==> {
            &&& b2.samples.len() == b.samples.len() + 1
            &&& b2.samples.last().0 == key
            &&& b2.samples.last().1.location_id == seq![key.0]
            &&& b2.functions.len() == b.functions.len() + 1
            &&& b2.functions.last().1.id == key.0
            &&& b2.locations.len() == b.locations.len() + 1
            &&& b2.locations.last().1.id == key.0
            &&& 0 <= b2.functions.last().1.name < b2.strings.len()
            &&& b2.strings[b2.functions.last().1.name as int] == placeholder_name()
        },
{
    let sb = spec_build_stack(b, key.0);
    assert(sb == Ok::<(Seq<u64>, BuilderView), Error>(
        (seq![key.0], spec_add_location(b, key.0, placeholder_name())),
    ));
    let bl = spec_add_location(b, key.0, placeholder_name());
    let t0 = spec_intern(b.strings, placeholder_name());
    lemma_intern_wf_weak(b.strings, placeholder_name());
    let t1 = spec_intern(bl.strings, "worker"@);
    let t2 = spec_intern(t1.0, spec_dec(key.1 as int));
    assert(t1.0 == bl.strings || t1.0 == bl.strings.push("worker"@));
    assert(t2.0 == t1.0 || t2.0 == t1.0.push(spec_dec(key.1 as int)));
    match spec_ensure_sample(b, ncols, key) {
        Ok(b2) => {
            assert(b2.samples == bl.samples.push(
                (
                    key,
                    SampleView {
                        location_id: seq![key.0],
                        value: zeros(ncols),
                        label: seq![Label { key: t1.1 as i64, str_: t2.1 as i64 }],
                    },
                ),
            ));
            assert(b2.functions == upsert(
                b.functions,
                key.0,
                Function { id: key.0, name: t0.1 as i64 },
            ));
            assert(b2.functions == b.functions.push(
                (key.0, Function { id: key.0, name: t0.1 as i64 }),
            ));
            assert(b2.locations.len() == b.locations.len() + 1);
            assert(b2.strings[t0.1] == placeholder_name());
        }
        Err(_) => {
        }
    }
}

/// A weaker interning fact that needs no room in the table: the interned
/// string sits at the returned index, and earlier entries keep their
/// places.
proof fn lemma_intern_wf_weak(tab: Seq<Seq<char>>, s: Seq<char>)
    ensures
        ({
            let t = spec_intern(tab, s);
            &&& tab.len() <= t.0.len() <= tab.len() + 1
            &&& forall|i: int| 0 <= i < tab.len() ==> t.0[i] == tab[i]
            &&& 0 <= t.1 < t.0.len()
            &&& t.0[t.1] == s
        }),
{
    if str_has(tab, s) {
        let i = str_index(tab, s);
        assert(0 <= i < tab.len() && tab[i] == s);
    }
}

/// Interning grows the table by at most one string.
pub proof fn lemma_intern_growth(tab: Seq<Seq<char>>, s: Seq<char>)
    ensures
        spec_intern(tab, s).0.len() <= tab.len() + 1,
{
}

/// Creating a missing sample interns at most three strings (a possible
/// placeholder name, the label key, and the worker id).
pub proof fn lemma_add_one_growth(b: BuilderView, ncols: int, key: (u64, u64), value: i64)
    ensures
        spec_add_one(b, ncols, key, value) matches Ok(b2) ==> b2.strings.len() <= b.strings.len()
            + 3,
{
    match spec_ensure_sample(b, ncols, key) {
        Err(_) => {
        }
        Ok(b2) => {
            if !has_key(b.samples, key) {
                match spec_build_stack(b, key.0) {
                    Err(_) => {
                    }
                    Ok(sb) => {
                        lemma_intern_growth(b.strings, placeholder_name());
                        lemma_intern_growth(sb.1.strings, "worker"@);
                        lemma_intern_growth(
                            spec_intern(sb.1.strings, "worker"@).0,
                            spec_dec(key.1 as int),
                        );
                    }
                }
            }
        }
    }
}

/// A whole column fold interns at most three strings per entry.
pub proof fn lemma_entries_growth(b: BuilderView, ncols: int, entries: Seq<((u64, u64), i64)>)
    ensures
        spec_add_entries(b, ncols, entries) matches Ok(b2) ==> b2.strings.len() <= b.strings.len()
            + 3 * entries.len(),
    decreases entries.len(),
{
    if entries.len() > 0 {
        lemma_entries_growth(b, ncols, entries.drop_last());
        match spec_add_entries(b, ncols, entries.drop_last()) {
            Err(_) => {
            }
            Ok(b2) => {
                lemma_add_one_growth(b2, ncols, entries.last().0, entries.last().1);
            }
        }
    }
}

/// Adding a column interns at most two strings plus three per entry.
pub proof fn lemma_add_samples_growth(
    b: BuilderView,
    type_: Seq<char>,
    unit: Seq<char>,
    entries: Seq<((u64, u64), i64)>,
)
    ensures
        spec_add_samples(b, type_, unit, entries) matches Ok(b2) ==> b2.strings.len()
            <= b.strings.len() + 2 + 3 * entries.len(),
{
    let t1 = spec_intern(b.strings, type_);
    let t2 = spec_intern(t1.0, unit);
    lemma_intern_growth(b.strings, type_);
    lemma_intern_growth(t1.0, unit);
    let b1 = BuilderView {
        strings: t2.0,
        sample_types: b.sample_types.push(ValueType { type_: t1.1 as i64, unit: t2.1 as i64 }),
        samples: b.samples.map_values(
            |kv: ((u64, u64), SampleView)|
                (kv.0, SampleView { value: kv.1.value.push(0i64), ..kv.1 }),
        ),
        ..b
    };
    lemma_entries_growth(b1, b1.sample_types.len() as int, entries);
}

/// An error in a fold of column entries persists however the sequence
/// grows.
pub proof fn lemma_entries_fold_err(
    b: BuilderView,
    ncols: int,
    entries: Seq<((u64, u64), i64)>,
    j: int,
    e: Error,
)
    requires
        0 <= j <= entries.len(),
        spec_add_entries(b, ncols, entries.take(j)) == Err::<BuilderView, Error>(e),
    ensures
        spec_add_entries(b, ncols, entries) == Err::<BuilderView, Error>(e),
    decreases entries.len() - j,
{
    if j < entries.len() {
        assert(entries.take(j + 1).drop_last() =~= entries.take(j));
        lemma_entries_fold_err(b, ncols, entries, j + 1, e);
    } else {
        assert(entries.take(j) =~= entries);
    }
}

} // verus!
