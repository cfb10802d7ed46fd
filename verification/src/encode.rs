//! The on-wire form of the profile artifact: standard length-delimited
//! message encoding with varint scalars, packed repeated scalars, and
//! UTF-8 strings, followed by gzip compression of the whole message.

use vstd::prelude::*;
use vstd::string::{StrSliceExecFns, StringSliceAdditionalSpecFns};
use vstd::utf8::encode_utf8;
use std::io::Write;

use crate::pprof::{Function, Label, Line, Location, LocationView, Profile, ProfileView, Sample,
    SampleView, ValueType};

verus! {

/// The LEB128 varint encoding of an unsigned 64-bit value: seven data
/// bits per byte, least significant group first, high bit set on every
/// byte but the last.
pub open spec fn spec_varint(n: u64) -> Seq<u8>
    decreases n,
{
    if n < 128 {
        seq![n as u8]
    } else {
        seq![((n % 128) + 128) as u8] + spec_varint(n / 128)
    }
}

/// The key of a field: field number and wire type packed into one varint.
pub open spec fn spec_tag(field: u64, wire: u64) -> Seq<u8> {
    spec_varint((field * 8 + wire) as u64)
}

/// A length-delimited field: tag, payload length, payload.
pub open spec fn spec_len_delim(field: u64, payload: Seq<u8>) -> Seq<u8> {
    spec_tag(field, 2) + spec_varint(payload.len() as u64) + payload
}

/// A varint field holding an unsigned value; zero is omitted.
pub open spec fn spec_u64_field(field: u64, v: u64) -> Seq<u8> {
    if v == 0 {
        Seq::empty()
    } else {
        spec_tag(field, 0) + spec_varint(v)
    }
}

/// A varint field holding a signed value in two's complement; zero is
/// omitted.
pub open spec fn spec_i64_field(field: u64, v: i64) -> Seq<u8> {
    if v == 0 {
        Seq::empty()
    } else {
        spec_tag(field, 0) + spec_varint(v as u64)
    }
}

/// The concatenation of encoded parts, in order.
pub open spec fn cat_bytes(parts: Seq<Seq<u8>>) -> Seq<u8>
    decreases parts.len(),
{
    if parts.len() == 0 {
        Seq::empty()
    } else {
        cat_bytes(parts.drop_last()) + parts.last()
    }
}

/// The packed encoding of repeated unsigned values: their varints
/// back to back.
pub open spec fn spec_packed_u64(ns: Seq<u64>) -> Seq<u8> {
    cat_bytes(ns.map_values(|n: u64| spec_varint(n)))
}

/// The packed encoding of repeated signed values.
pub open spec fn spec_packed_i64(ns: Seq<i64>) -> Seq<u8> {
    cat_bytes(ns.map_values(|n: i64| spec_varint(n as u64)))
}

/// A packed repeated scalar field; an empty list is omitted.
pub open spec fn spec_packed_u64_field(field: u64, ns: Seq<u64>) -> Seq<u8> {
    if ns.len() == 0 {
        Seq::empty()
    } else {
        spec_len_delim(field, spec_packed_u64(ns))
    }
}

/// A packed repeated signed scalar field; an empty list is omitted.
pub open spec fn spec_packed_i64_field(field: u64, ns: Seq<i64>) -> Seq<u8> {
    if ns.len() == 0 {
        Seq::empty()
    } else {
        spec_len_delim(field, spec_packed_i64(ns))
    }
}

/// One sample-type entry: type and unit string indices.
pub open spec fn spec_value_type(v: ValueType) -> Seq<u8> {
    spec_i64_field(1, v.type_) + spec_i64_field(2, v.unit)
}

/// One label: key and value string indices.
pub open spec fn spec_label(l: Label) -> Seq<u8> {
    spec_i64_field(1, l.key) + spec_i64_field(2, l.str_)
}

/// One line: the referenced function.
pub open spec fn spec_line(l: Line) -> Seq<u8> {
    spec_u64_field(1, l.function_id)
}

/// One function entry: id and name index.
pub open spec fn spec_function(f: Function) -> Seq<u8> {
    spec_u64_field(1, f.id) + spec_i64_field(2, f.name)
}

/// One location entry: id, address, and its lines.
pub open spec fn spec_location(l: LocationView) -> Seq<u8> {
    spec_u64_field(1, l.id) + spec_u64_field(3, l.address) + cat_bytes(
        l.line.map_values(|x: Line| spec_len_delim(4, spec_line(x))),
    )
}

/// One sample: packed stack and values, then the labels.
pub open spec fn spec_sample(s: SampleView) -> Seq<u8> {
    spec_packed_u64_field(1, s.location_id) + spec_packed_i64_field(2, s.value) + cat_bytes(
        s.label.map_values(|x: Label| spec_len_delim(3, spec_label(x))),
    )
}

/// The whole profile message: sample types, samples, locations,
/// functions, the string table in UTF-8, and the collection-start
/// timestamp.
pub open spec fn spec_profile_bytes(p: ProfileView) -> Seq<u8> {
    cat_bytes(p.sample_type.map_values(|v: ValueType| spec_len_delim(1, spec_value_type(v))))
        + cat_bytes(p.sample.map_values(|s: SampleView| spec_len_delim(2, spec_sample(s))))
        + cat_bytes(p.location.map_values(|l: LocationView| spec_len_delim(4, spec_location(l))))
        + cat_bytes(p.function.map_values(|f: Function| spec_len_delim(5, spec_function(f))))
        + cat_bytes(p.string_table.map_values(|s: Seq<char>| spec_len_delim(6, encode_utf8(s))))
        + spec_i64_field(9, p.time_nanos)
}

/// Appends the varint of `n`.
fn push_varint(out: &mut Vec<u8>, n: u64)
    ensures
        final(out)@ == old(out)@ + spec_varint(n),
{
    let ghost base = old(out)@;
    let mut m = n;
    loop
        invariant_except_break
            base + spec_varint(n) =~= out@ + spec_varint(m),
        ensures
            out@ =~= base + spec_varint(n),
        decreases m,
    {
        if m < 128 {
            out.push(m as u8);
            proof {
                assert(out@ =~= base + spec_varint(n)) by {
                    assert(spec_varint(m) == seq![m as u8]);
                }
            }
            break ;
        }
        let b = (m % 128 + 128) as u8;
        let ghost prev = out@;
        out.push(b);
        proof {
            assert(spec_varint(m) == seq![b] + spec_varint(m / 128));
            assert(prev + spec_varint(m) =~= out@ + spec_varint(m / 128));
        }
        m = m / 128;
    }
}

/// Appends a field tag.
fn push_tag(out: &mut Vec<u8>, field: u64, wire: u64)
    requires
        field <= 100,
        wire <= 5,
    ensures
        final(out)@ == old(out)@ + spec_tag(field, wire),
{
    push_varint(out, field * 8 + wire);
}

/// Appends an unsigned varint field, omitting a zero value.
fn push_u64_field(out: &mut Vec<u8>, field: u64, v: u64)
    requires
        field <= 100,
    ensures
        final(out)@ == old(out)@ + spec_u64_field(field, v),
{
    if v == 0 {
        proof {
            assert(old(out)@ + Seq::<u8>::empty() =~= old(out)@);
        }
        return ;
    }
    let ghost base = out@;
    push_tag(out, field, 0);
    push_varint(out, v);
    proof {
        assert(base + spec_tag(field, 0) + spec_varint(v) =~= base + spec_u64_field(field, v));
    }
}

/// Appends a signed varint field in two's complement, omitting zero.
fn push_i64_field(out: &mut Vec<u8>, field: u64, v: i64)
    requires
        field <= 100,
    ensures
        final(out)@ == old(out)@ + spec_i64_field(field, v),
{
    if v == 0 {
        proof {
            assert(old(out)@ + Seq::<u8>::empty() =~= old(out)@);
        }
        return ;
    }
    let ghost base = out@;
    push_tag(out, field, 0);
    #[verifier::truncate]
    let bits = v as u64;
    push_varint(out, bits);
    proof {
        assert(base + spec_tag(field, 0) + spec_varint(v as u64) =~= base + spec_i64_field(
            field,
            v,
        ));
    }
}

/// Appends a length-delimited field, consuming the payload.
fn push_len_delim(out: &mut Vec<u8>, field: u64, payload: Vec<u8>)
    requires
        field <= 100,
    ensures
        final(out)@ == old(out)@ + spec_len_delim(field, payload@),
{
    let ghost base = out@;
    push_tag(out, field, 2);
    push_varint(out, payload.len() as u64);
    let mut p = payload;
    out.append(&mut p);
    proof {
        assert(base + spec_tag(field, 2) + spec_varint(payload@.len() as u64) + payload@
            =~= base + spec_len_delim(field, payload@));
    }
}

/// Encodes repeated unsigned values back to back.
fn encode_packed_u64(ns: &Vec<u64>) -> (r: Vec<u8>)
    ensures
        r@ == spec_packed_u64(ns@),
{
    let ghost parts = ns@.map_values(|n: u64| spec_varint(n));
    let mut out: Vec<u8> = Vec::new();
    let n = ns.len();
    let mut i: usize = 0;
    proof {
        assert(parts.take(0) =~= Seq::<Seq<u8>>::empty());
        assert(out@ =~= cat_bytes(parts.take(0)));
    }
    while i < n
        invariant
            i <= n == ns@.len(),
            parts == ns@.map_values(|x: u64| spec_varint(x)),
            out@ == cat_bytes(parts.take(i as int)),
        decreases n - i,
    {
        push_varint(&mut out, ns[i]);
        proof {
            assert(parts.take(i + 1).drop_last() =~= parts.take(i as int));
            assert(parts.take(i + 1).last() == parts[i as int]);
        }
        i = i + 1;
    }
    proof {
        assert(parts.take(n as int) =~= parts);
    }
    out
}

/// Encodes repeated signed values back to back.
fn encode_packed_i64(ns: &Vec<i64>) -> (r: Vec<u8>)
    ensures
        r@ == spec_packed_i64(ns@),
{
    let ghost parts = ns@.map_values(|n: i64| spec_varint(n as u64));
    let mut out: Vec<u8> = Vec::new();
    let n = ns.len();
    let mut i: usize = 0;
    proof {
        assert(parts.take(0) =~= Seq::<Seq<u8>>::empty());
        assert(out@ =~= cat_bytes(parts.take(0)));
    }
    while i < n
        invariant
            i <= n == ns@.len(),
            parts == ns@.map_values(|x: i64| spec_varint(x as u64)),
            out@ == cat_bytes(parts.take(i as int)),
        decreases n - i,
    {
        #[verifier::truncate]
        let bits = ns[i] as u64;
        push_varint(&mut out, bits);
        proof {
            assert(parts.take(i + 1).drop_last() =~= parts.take(i as int));
            assert(parts.take(i + 1).last() == parts[i as int]);
        }
        i = i + 1;
    }
    proof {
        assert(parts.take(n as int) =~= parts);
    }
    out
}

/// Encodes one sample message.
fn encode_sample(s: &Sample) -> (r: Vec<u8>)
    ensures
        r@ == spec_sample(s@),
{
    let mut out: Vec<u8> = Vec::new();
    if s.location_id.len() > 0 {
        let packed = encode_packed_u64(&s.location_id);
        push_len_delim(&mut out, 1, packed);
    }
    let ghost after1 = out@;
    proof {
        assert(after1 =~= spec_packed_u64_field(1, s@.location_id));
    }
    if s.value.len() > 0 {
        let packed = encode_packed_i64(&s.value);
        push_len_delim(&mut out, 2, packed);
    }
    let ghost after2 = out@;
    proof {
        assert(after2 =~= spec_packed_u64_field(1, s@.location_id) + spec_packed_i64_field(
            2,
            s@.value,
        ));
    }
    let ghost parts = s@.label.map_values(|x: Label| spec_len_delim(3, spec_label(x)));
    let n = s.label.len();
    let mut i: usize = 0;
    proof {
        assert(parts.take(0) =~= Seq::<Seq<u8>>::empty());
        assert(out@ =~= after2 + cat_bytes(parts.take(0)));
    }
    while i < n
        invariant
            i <= n == s.label@.len(),
            parts == s@.label.map_values(|x: Label| spec_len_delim(3, spec_label(x))),
            s@.label == s.label@,
            out@ == after2 + cat_bytes(parts.take(i as int)),
        decreases n - i,
    {
        let l = s.label[i];
        let mut lb: Vec<u8> = Vec::new();
        push_i64_field(&mut lb, 1, l.key);
        push_i64_field(&mut lb, 2, l.str_);
        proof {
            assert(lb@ =~= spec_label(l));
        }
        push_len_delim(&mut out, 3, lb);
        proof {
            assert(parts.take(i + 1).drop_last() =~= parts.take(i as int));
            assert(parts.take(i + 1).last() == parts[i as int]);
            assert(out@ =~= after2 + cat_bytes(parts.take(i + 1)));
        }
        i = i + 1;
    }
    proof {
        assert(parts.take(n as int) =~= parts);
        assert(out@ =~= spec_sample(s@));
    }
    out
}

/// Encodes one location message.
fn encode_location(l: &Location) -> (r: Vec<u8>)
    ensures
        r@ == spec_location(l@),
{
    let mut out: Vec<u8> = Vec::new();
    push_u64_field(&mut out, 1, l.id);
    push_u64_field(&mut out, 3, l.address);
    let ghost after = out@;
    let ghost parts = l@.line.map_values(|x: Line| spec_len_delim(4, spec_line(x)));
    let n = l.line.len();
    let mut i: usize = 0;
    proof {
        assert(parts.take(0) =~= Seq::<Seq<u8>>::empty());
        assert(out@ =~= after + cat_bytes(parts.take(0)));
    }
    while i < n
        invariant
            i <= n == l.line@.len(),
            parts == l@.line.map_values(|x: Line| spec_len_delim(4, spec_line(x))),
            l@.line == l.line@,
            out@ == after + cat_bytes(parts.take(i as int)),
        decreases n - i,
    {
        let ln = l.line[i];
        let mut lb: Vec<u8> = Vec::new();
        push_u64_field(&mut lb, 1, ln.function_id);
        proof {
            assert(lb@ =~= spec_line(ln));
        }
        push_len_delim(&mut out, 4, lb);
        proof {
            assert(parts.take(i + 1).drop_last() =~= parts.take(i as int));
            assert(parts.take(i + 1).last() == parts[i as int]);
            assert(out@ =~= after + cat_bytes(parts.take(i + 1)));
        }
        i = i + 1;
    }
    proof {
        assert(parts.take(n as int) =~= parts);
        assert(out@ =~= spec_location(l@));
    }
    out
}

/// Encodes the whole profile message; see [`spec_profile_bytes`].
pub fn encode_profile(p: &Profile) -> (r: Vec<u8>)
    ensures
        r@ == spec_profile_bytes(p@),
{
    let mut out: Vec<u8> = Vec::new();

    let ghost parts1 = p@.sample_type.map_values(
        |v: ValueType| spec_len_delim(1, spec_value_type(v)),
    );
    let n1 = p.sample_type.len();
    let mut i: usize = 0;
    proof {
        assert(parts1.take(0) =~= Seq::<Seq<u8>>::empty());
        assert(out@ =~= cat_bytes(parts1.take(0)));
    }
    while i < n1
        invariant
            i <= n1 == p.sample_type@.len(),
            parts1 == p@.sample_type.map_values(
                |v: ValueType| spec_len_delim(1, spec_value_type(v)),
            ),
            p@.sample_type == p.sample_type@,
            out@ == cat_bytes(parts1.take(i as int)),
        decreases n1 - i,
    {
        let v = p.sample_type[i];
        let mut vb: Vec<u8> = Vec::new();
        push_i64_field(&mut vb, 1, v.type_);
        push_i64_field(&mut vb, 2, v.unit);
        proof {
            assert(vb@ =~= spec_value_type(v));
        }
        push_len_delim(&mut out, 1, vb);
        proof {
            assert(parts1.take(i + 1).drop_last() =~= parts1.take(i as int));
            assert(parts1.take(i + 1).last() == parts1[i as int]);
            assert(out@ =~= cat_bytes(parts1.take(i + 1)));
        }
        i = i + 1;
    }
    let ghost seg1 = cat_bytes(parts1);
    proof {
        assert(parts1.take(n1 as int) =~= parts1);
    }

    let ghost parts2 = p@.sample.map_values(|s: SampleView| spec_len_delim(2, spec_sample(s)));
    let n2 = p.sample.len();
    let mut i2: usize = 0;
    proof {
        assert(parts2.take(0) =~= Seq::<Seq<u8>>::empty());
        assert(out@ =~= seg1 + cat_bytes(parts2.take(0)));
    }
    while i2 < n2
        invariant
            i2 <= n2 == p.sample@.len(),
            parts2 == p@.sample.map_values(|s: SampleView| spec_len_delim(2, spec_sample(s))),
            p@.sample == p.sample@.map_values(|s: Sample| s@),
            out@ == seg1 + cat_bytes(parts2.take(i2 as int)),
        decreases n2 - i2,
    {
        let sb = encode_sample(&p.sample[i2]);
        push_len_delim(&mut out, 2, sb);
        proof {
            assert(p.sample@[i2 as int]@ == p@.sample[i2 as int]);
            assert(parts2.take(i2 + 1).drop_last() =~= parts2.take(i2 as int));
            assert(parts2.take(i2 + 1).last() == parts2[i2 as int]);
            assert(out@ =~= seg1 + cat_bytes(parts2.take(i2 + 1)));
        }
        i2 = i2 + 1;
    }
    let ghost seg2 = seg1 + cat_bytes(parts2);
    proof {
        assert(parts2.take(n2 as int) =~= parts2);
    }

    let ghost parts3 = p@.location.map_values(
        |l: LocationView| spec_len_delim(4, spec_location(l)),
    );
    let n3 = p.location.len();
    let mut i3: usize = 0;
    proof {
        assert(parts3.take(0) =~= Seq::<Seq<u8>>::empty());
        assert(out@ =~= seg2 + cat_bytes(parts3.take(0)));
    }
    while i3 < n3
        invariant
            i3 <= n3 == p.location@.len(),
            parts3 == p@.location.map_values(
                |l: LocationView| spec_len_delim(4, spec_location(l)),
            ),
            p@.location == p.location@.map_values(|l: Location| l@),
            out@ == seg2 + cat_bytes(parts3.take(i3 as int)),
        decreases n3 - i3,
    {
        let lb = encode_location(&p.location[i3]);
        push_len_delim(&mut out, 4, lb);
        proof {
            assert(p.location@[i3 as int]@ == p@.location[i3 as int]);
            assert(parts3.take(i3 + 1).drop_last() =~= parts3.take(i3 as int));
            assert(parts3.take(i3 + 1).last() == parts3[i3 as int]);
            assert(out@ =~= seg2 + cat_bytes(parts3.take(i3 + 1)));
        }
        i3 = i3 + 1;
    }
    let ghost seg3 = seg2 + cat_bytes(parts3);
    proof {
        assert(parts3.take(n3 as int) =~= parts3);
    }

    let ghost parts4 = p@.function.map_values(|f: Function| spec_len_delim(5, spec_function(f)));
    let n4 = p.function.len();
    let mut i4: usize = 0;
    proof {
        assert(parts4.take(0) =~= Seq::<Seq<u8>>::empty());
        assert(out@ =~= seg3 + cat_bytes(parts4.take(0)));
    }
    while i4 < n4
        invariant
            i4 <= n4 == p.function@.len(),
            parts4 == p@.function.map_values(|f: Function| spec_len_delim(5, spec_function(f))),
            p@.function == p.function@,
            out@ == seg3 + cat_bytes(parts4.take(i4 as int)),
        decreases n4 - i4,
    {
        let f = p.function[i4];
        let mut fb: Vec<u8> = Vec::new();
        push_u64_field(&mut fb, 1, f.id);
        push_i64_field(&mut fb, 2, f.name);
        proof {
            assert(fb@ =~= spec_function(f));
        }
        push_len_delim(&mut out, 5, fb);
        proof {
            assert(parts4.take(i4 + 1).drop_last() =~= parts4.take(i4 as int));
            assert(parts4.take(i4 + 1).last() == parts4[i4 as int]);
            assert(out@ =~= seg3 + cat_bytes(parts4.take(i4 + 1)));
        }
        i4 = i4 + 1;
    }
    let ghost seg4 = seg3 + cat_bytes(parts4);
    proof {
        assert(parts4.take(n4 as int) =~= parts4);
    }

    let ghost parts5 = p@.string_table.map_values(
        |s: Seq<char>| spec_len_delim(6, encode_utf8(s)),
    );
    let n5 = p.string_table.len();
    let mut i5: usize = 0;
    proof {
        assert(parts5.take(0) =~= Seq::<Seq<u8>>::empty());
        assert(out@ =~= seg4 + cat_bytes(parts5.take(0)));
    }
    while i5 < n5
        invariant
            i5 <= n5 == p.string_table@.len(),
            parts5 == p@.string_table.map_values(
                |s: Seq<char>| spec_len_delim(6, encode_utf8(s)),
            ),
            p@.string_table == p.string_table@.map_values(|s: String| s@),
            out@ == seg4 + cat_bytes(parts5.take(i5 as int)),
        decreases n5 - i5,
    {
        let sb = p.string_table[i5].as_str().as_bytes_vec();
        proof {
            assert(sb@ == encode_utf8(p@.string_table[i5 as int]));
        }
        push_len_delim(&mut out, 6, sb);
        proof {
            assert(parts5.take(i5 + 1).drop_last() =~= parts5.take(i5 as int));
            assert(parts5.take(i5 + 1).last() == parts5[i5 as int]);
            assert(out@ =~= seg4 + cat_bytes(parts5.take(i5 + 1)));
        }
        i5 = i5 + 1;
    }
    let ghost seg5 = seg4 + cat_bytes(parts5);
    proof {
        assert(parts5.take(n5 as int) =~= parts5);
    }

    push_i64_field(&mut out, 9, p.time_nanos);
    proof {
        assert(out@ =~= spec_profile_bytes(p@));
    }
    out
}

/// What gzip compression of a byte sequence yields. The default encoder
/// writes a fixed header (zero timestamp, unknown operating system), so
/// the result is a function of the input bytes alone for the compression
/// crate in use.
pub uninterp spec fn gzip_of(bytes: Seq<u8>) -> Seq<u8>;

/// Relies on flate2's `write::GzEncoder` at the default compression
/// level: compressing an in-memory byte buffer, with a fixed header and
/// the pure-Rust backend, depends on the input bytes alone; writing into
/// a `Vec` sink cannot fail.
#[verifier::external_body]
fn gzip(bytes: &Vec<u8>) -> (r: Vec<u8>)
    ensures
        r@ == gzip_of(bytes@),
{
    let mut enc = flate2::write::GzEncoder::new(Vec::new(), flate2::Compression::default());
    enc.write_all(bytes.as_slice()).expect("writing to a Vec cannot fail");
    enc.finish().expect("finishing a Vec-backed encoder cannot fail")
}

/// The complete serialized artifact: the profile message, gzip-compressed.
pub fn serialize_profile(p: &Profile) -> (r: Vec<u8>)
    ensures
        r@ == gzip_of(spec_profile_bytes(p@)),
{
    let bytes = encode_profile(p);
    gzip(&bytes)
}

} // verus!
