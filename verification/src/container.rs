use vstd::prelude::*;

use crate::record::{PatchRecord, PatchSet, RecordModel};

verus! {

/// A malformed or truncated patch container: a field or payload runs past the
/// end of the input, or a record would not fit in memory.
#[derive(Clone, Copy, PartialEq, Eq, Structural, Debug)]
pub struct FormatError;

/// The unsigned value of the four little-endian bytes at `pos`.
pub open spec fn u32_le_at(bytes: Seq<u8>, pos: int) -> int
    recommends
        0 <= pos,
        pos + 4 <= bytes.len(),
{
    bytes[pos] + bytes[pos + 1] * 0x100 + bytes[pos + 2] * 0x1_0000 + bytes[pos + 3] * 0x100_0000
}

/// The smallest multiple of 16 that is at least `x`.
pub open spec fn align16(x: int) -> int {
    if x % 16 == 0 {
        x
    } else {
        x + (16 - x % 16)
    }
}

/// The record count `N`: the container's first four bytes, little-endian.
pub open spec fn spec_record_count(bytes: Seq<u8>) -> int {
    u32_le_at(bytes, 0)
}

/// Where the payload region starts for a container of `n` records: the
/// count field and header table padded up to the next multiple of 16.
pub open spec fn spec_payload_start(n: int) -> int {
    align16((n + 1) * 8)
}

/// The destination offset declared in header entry `i`.
pub open spec fn spec_header_offset(bytes: Seq<u8>, i: int) -> int {
    u32_le_at(bytes, 4 + 8 * i)
}

/// The payload length declared in header entry `i`.
pub open spec fn spec_header_length(bytes: Seq<u8>, i: int) -> int {
    u32_le_at(bytes, 8 + 8 * i)
}

/// Where payload blob `i` starts: blobs are packed contiguously from the
/// payload region start, in header order.
pub open spec fn spec_blob_start(bytes: Seq<u8>, i: int) -> int
    decreases i,
{
    if i <= 0 {
        spec_payload_start(spec_record_count(bytes))
    } else {
        spec_blob_start(bytes, i - 1) + spec_header_length(bytes, i - 1)
    }
}

/// A container is well formed when the count field, the whole header table
/// and every declared payload blob lie within the input.
pub open spec fn container_well_formed(bytes: Seq<u8>) -> bool {
    &&& bytes.len() >= 4
    &&& 4 + 8 * spec_record_count(bytes) <= bytes.len()
    &&& (spec_record_count(bytes) == 0 || spec_blob_start(
        bytes,
        spec_record_count(bytes),
    ) <= bytes.len())
}

/// The record that entry `i` of a well-formed container describes.
pub open spec fn spec_record(bytes: Seq<u8>, i: int) -> RecordModel {
    RecordModel {
        offset: spec_header_offset(bytes, i) as u64,
        data: Seq::new(
            spec_header_length(bytes, i) as nat,
            |k: int| bytes[spec_blob_start(bytes, i) + k],
        ),
    }
}

/// What parsing a container yields: its records in header order, or nothing
/// when the container is malformed.
pub open spec fn spec_parse(bytes: Seq<u8>) -> Option<Seq<RecordModel>> {
    if container_well_formed(bytes) {
        Some(Seq::new(spec_record_count(bytes) as nat, |i: int| spec_record(bytes, i)))
    } else {
        None
    }
}

/// The four little-endian bytes of a value below `2^32`.
pub open spec fn le4(x: int) -> Seq<u8> {
    seq![
        (x % 0x100) as u8,
        ((x / 0x100) % 0x100) as u8,
        ((x / 0x1_0000) % 0x100) as u8,
        ((x / 0x100_0000) % 0x100) as u8,
    ]
}

/// The eight header-table bytes of one record: its offset, then the length
/// of its payload, both little-endian 32-bit fields.
pub open spec fn spec_header_bytes(r: RecordModel) -> Seq<u8> {
    le4(r.offset as int) + le4(r.data.len() as int)
}

/// The header table of the first `i` records, concatenated in order.
pub open spec fn spec_headers(rs: Seq<RecordModel>, i: int) -> Seq<u8>
    decreases i,
{
    if i <= 0 {
        Seq::empty()
    } else {
        spec_headers(rs, i - 1) + spec_header_bytes(rs[i - 1])
    }
}

/// The total payload length of the first `i` records.
pub open spec fn spec_prefix_len(rs: Seq<RecordModel>, i: int) -> int
    decreases i,
{
    if i <= 0 {
        0
    } else {
        spec_prefix_len(rs, i - 1) + rs[i - 1].data.len()
    }
}

/// The payloads of the first `i` records, packed contiguously in order.
pub open spec fn spec_payloads(rs: Seq<RecordModel>, i: int) -> Seq<u8>
    decreases i,
{
    if i <= 0 {
        Seq::empty()
    } else {
        spec_payloads(rs, i - 1) + rs[i - 1].data
    }
}

/// `n` zero bytes: the fixed padding between the header table and the
/// payload region.
pub open spec fn zero_bytes(n: int) -> Seq<u8> {
    Seq::new(n as nat, |j: int| 0u8)
}

/// Whether a record sequence fits the container format: the count and every
/// offset and length must fit their 32-bit fields.
pub open spec fn encodable(rs: Seq<RecordModel>) -> bool {
    &&& rs.len() <= 0xFFFF_FFFF
    &&& forall|i: int|
        0 <= i < rs.len() ==> (#[trigger] rs[i]).offset <= 0xFFFF_FFFF && rs[i].data.len()
            <= 0xFFFF_FFFF
}

/// The container that encodes `rs`: the record count, the header table, zero
/// padding up to the payload region start, then the packed payloads.
pub open spec fn spec_encode(rs: Seq<RecordModel>) -> Seq<u8> {
    let n = rs.len() as int;
    le4(n) + spec_headers(rs, n) + zero_bytes(spec_payload_start(n) - (4 + 8 * n))
        + spec_payloads(rs, n)
}

/// Little-endian field values are bounded by the four-byte range.
pub proof fn lemma_u32_le_at_bounds(bytes: Seq<u8>, pos: int)
    ensures
        0 <= u32_le_at(bytes, pos) <= 0xFFFF_FFFF,
{
    assert(bytes[pos] <= 0xFF);
    assert(bytes[pos + 1] <= 0xFF);
    assert(bytes[pos + 2] <= 0xFF);
    assert(bytes[pos + 3] <= 0xFF);
}

/// `align16(x)` is the least multiple of 16 that is at least `x`.
pub proof fn lemma_align16_least(x: int)
    requires
        x >= 0,
    ensures
        align16(x) % 16 == 0,
        align16(x) >= x,
        forall|m: int| #[trigger] (m % 16) == 0 && m >= x ==> m >= align16(x),
{
    if x % 16 == 0 {
    } else {
        assert(align16(x) % 16 == 0) by {
            assert(x == 16 * (x / 16) + x % 16);
            assert(align16(x) == 16 * (x / 16 + 1));
            assert((16 * (x / 16 + 1)) % 16 == 0) by (nonlinear_arith);
        }
        assert forall|m: int| #[trigger] (m % 16) == 0 && m >= x implies m >= align16(x) by {
            assert(m == 16 * (m / 16)) by {
                assert(m == 16 * (m / 16) + m % 16);
            }
            assert(x == 16 * (x / 16) + x % 16);
            assert(16 * (m / 16) > 16 * (x / 16) ==> m / 16 >= x / 16 + 1) by (nonlinear_arith);
            assert(m / 16 >= x / 16 ==> 16 * (m / 16) >= 16 * (x / 16)) by (nonlinear_arith);
            assert(m / 16 >= x / 16 + 1 ==> 16 * (m / 16) >= 16 * (x / 16 + 1))
                by (nonlinear_arith);
        }
    }
}

/// The payload region start is the least multiple of 16 holding the count
/// field and the header table of `n` entries.
pub proof fn lemma_payload_start_least(n: int)
    requires
        n >= 0,
    ensures
        spec_payload_start(n) % 16 == 0,
        spec_payload_start(n) >= (n + 1) * 8,
        forall|m: int| #[trigger] (m % 16) == 0 && m >= (n + 1) * 8 ==> m >= spec_payload_start(n),
{
    lemma_align16_least((n + 1) * 8);
}

/// Blob starts never decrease along the header table.
pub proof fn lemma_blob_start_monotonic(bytes: Seq<u8>, i: int, j: int)
    requires
        0 <= i <= j,
    ensures
        spec_blob_start(bytes, i) <= spec_blob_start(bytes, j),
    decreases j - i,
{
    if i < j {
        lemma_blob_start_monotonic(bytes, i, j - 1);
        lemma_u32_le_at_bounds(bytes, 8 + 8 * (j - 1));
    }
}

/// Consecutive payload blobs have no gap: blob `i + 1` starts exactly where
/// blob `i` ends.
pub proof fn lemma_payload_contiguous(bytes: Seq<u8>, i: int)
    requires
        container_well_formed(bytes),
        0 <= i,
        i + 1 < spec_record_count(bytes),
    ensures
        spec_blob_start(bytes, i + 1) == spec_blob_start(bytes, i) + spec_record(
            bytes,
            i,
        ).data.len(),
{
    lemma_u32_le_at_bounds(bytes, 8 + 8 * i);
}

/// The four bytes of `le4(x)` recombine to `x` for any 32-bit value.
pub proof fn lemma_le4_value(x: int)
    requires
        0 <= x < 0x1_0000_0000,
    ensures
        le4(x)[0] + le4(x)[1] * 0x100 + le4(x)[2] * 0x1_0000 + le4(x)[3] * 0x100_0000 == x,
{
    vstd::arithmetic::div_mod::lemma_fundamental_div_mod(x, 0x100);
    vstd::arithmetic::div_mod::lemma_fundamental_div_mod(x / 0x100, 0x100);
    vstd::arithmetic::div_mod::lemma_fundamental_div_mod(x / 0x1_0000, 0x100);
    vstd::arithmetic::div_mod::lemma_div_denominator(x, 0x100, 0x100);
    vstd::arithmetic::div_mod::lemma_div_denominator(x, 0x1_0000, 0x100);
    assert(0 <= x / 0x100_0000 < 0x100) by (nonlinear_arith)
        requires
            0 <= x < 0x1_0000_0000,
    ;
}

/// The header table of `i` records is `8 * i` bytes long.
pub proof fn lemma_headers_len(rs: Seq<RecordModel>, i: int)
    requires
        0 <= i,
    ensures
        spec_headers(rs, i).len() == 8 * i,
    decreases i,
{
    if i > 0 {
        lemma_headers_len(rs, i - 1);
    }
}

/// Where record `i`'s eight header bytes sit inside the header table.
pub proof fn lemma_headers_index(rs: Seq<RecordModel>, m: int, i: int, t: int)
    requires
        0 <= i < m,
        0 <= t < 8,
    ensures
        spec_headers(rs, m)[8 * i + t] == spec_header_bytes(rs[i])[t],
    decreases m,
{
    lemma_headers_len(rs, m - 1);
    if i == m - 1 {
    } else {
        lemma_headers_index(rs, m - 1, i, t);
    }
}

/// Prefix payload lengths are nonnegative and never decrease.
pub proof fn lemma_prefix_len_monotonic(rs: Seq<RecordModel>, i: int, j: int)
    requires
        0 <= i <= j,
    ensures
        0 <= spec_prefix_len(rs, i) <= spec_prefix_len(rs, j),
    decreases i + j,
{
    if i > 0 {
        lemma_prefix_len_monotonic(rs, i - 1, i - 1);
    }
    if i < j {
        lemma_prefix_len_monotonic(rs, i, j - 1);
    }
}

/// The packed payloads of `i` records occupy exactly their total length.
pub proof fn lemma_payloads_len(rs: Seq<RecordModel>, i: int)
    requires
        0 <= i,
    ensures
        spec_payloads(rs, i).len() == spec_prefix_len(rs, i),
    decreases i,
{
    if i > 0 {
        lemma_payloads_len(rs, i - 1);
    }
}

/// Where byte `k` of record `i`'s payload sits inside the packed payloads.
pub proof fn lemma_payloads_index(rs: Seq<RecordModel>, m: int, i: int, k: int)
    requires
        0 <= i < m,
        0 <= k < rs[i].data.len(),
    ensures
        spec_payloads(rs, m)[spec_prefix_len(rs, i) + k] == rs[i].data[k],
    decreases m,
{
    lemma_payloads_len(rs, m - 1);
    lemma_prefix_len_monotonic(rs, i, m - 1);
    if i == m - 1 {
    } else {
        lemma_prefix_len_monotonic(rs, i + 1, m - 1);
        lemma_payloads_index(rs, m - 1, i, k);
    }
}

/// In a container whose header table declares the lengths of `rs`, blob `i`
/// starts at the payload region start plus the length of the payloads
/// before it.
pub proof fn lemma_blob_start_encoded(bytes: Seq<u8>, rs: Seq<RecordModel>, i: int)
    requires
        spec_record_count(bytes) == rs.len(),
        0 <= i <= rs.len(),
        forall|j: int| 0 <= j < i ==> spec_header_length(bytes, j) == (#[trigger] rs[j]).data.len(),
    ensures
        spec_blob_start(bytes, i) == spec_payload_start(rs.len() as int) + spec_prefix_len(rs, i),
    decreases i,
{
    if i > 0 {
        lemma_blob_start_encoded(bytes, rs, i - 1);
    }
}

/// Round trip: every record sequence that fits the format parses back,
/// order and content intact, from the container that encodes it.
pub proof fn lemma_encode_parse_round_trip(rs: Seq<RecordModel>)
    requires
        encodable(rs),
    ensures
        spec_parse(spec_encode(rs)) == Some(rs),
{
    let n = rs.len() as int;
    let bytes = spec_encode(rs);
    let headers = spec_headers(rs, n);
    let pad = zero_bytes(spec_payload_start(n) - (4 + 8 * n));
    let payloads = spec_payloads(rs, n);
    lemma_le4_value(n);
    lemma_headers_len(rs, n);
    lemma_payloads_len(rs, n);
    lemma_prefix_len_monotonic(rs, 0, n);
    lemma_payload_start_least(n);
    assert(pad.len() == spec_payload_start(n) - (4 + 8 * n));
    assert(bytes.len() == spec_payload_start(n) + spec_prefix_len(rs, n));
    assert(spec_record_count(bytes) == n);
    assert forall|i: int| 0 <= i < n implies spec_header_offset(bytes, i) == (#[trigger] rs[i]).offset
        && spec_header_length(bytes, i) == rs[i].data.len() by {
        let hb = spec_header_bytes(rs[i]);
        lemma_headers_index(rs, n, i, 0);
        lemma_headers_index(rs, n, i, 1);
        lemma_headers_index(rs, n, i, 2);
        lemma_headers_index(rs, n, i, 3);
        lemma_headers_index(rs, n, i, 4);
        lemma_headers_index(rs, n, i, 5);
        lemma_headers_index(rs, n, i, 6);
        lemma_headers_index(rs, n, i, 7);
        assert(bytes[4 + 8 * i] == headers[8 * i + 0]);
        assert(bytes[4 + 8 * i + 1] == headers[8 * i + 1]);
        assert(bytes[4 + 8 * i + 2] == headers[8 * i + 2]);
        assert(bytes[4 + 8 * i + 3] == headers[8 * i + 3]);
        assert(bytes[8 + 8 * i] == headers[8 * i + 4]);
        assert(bytes[8 + 8 * i + 1] == headers[8 * i + 5]);
        assert(bytes[8 + 8 * i + 2] == headers[8 * i + 6]);
        assert(bytes[8 + 8 * i + 3] == headers[8 * i + 7]);
        assert(hb[0] == le4(rs[i].offset as int)[0]);
        assert(hb[1] == le4(rs[i].offset as int)[1]);
        assert(hb[2] == le4(rs[i].offset as int)[2]);
        assert(hb[3] == le4(rs[i].offset as int)[3]);
        lemma_le4_value(rs[i].offset as int);
        lemma_le4_value(rs[i].data.len() as int);
        assert(spec_header_bytes(rs[i])[4] == le4(rs[i].data.len() as int)[0]);
        assert(spec_header_bytes(rs[i])[5] == le4(rs[i].data.len() as int)[1]);
        assert(spec_header_bytes(rs[i])[6] == le4(rs[i].data.len() as int)[2]);
        assert(spec_header_bytes(rs[i])[7] == le4(rs[i].data.len() as int)[3]);
    }
    lemma_blob_start_encoded(bytes, rs, n);
    assert(container_well_formed(bytes));
    assert forall|i: int| 0 <= i < n implies spec_record(bytes, i) == #[trigger] rs[i] by {
        lemma_blob_start_encoded(bytes, rs, i);
        lemma_prefix_len_monotonic(rs, 0, i);
        assert forall|k: int| 0 <= k < rs[i].data.len() implies bytes[spec_blob_start(bytes, i) + k]
            == rs[i].data[k] by {
            lemma_payloads_index(rs, n, i, k);
            lemma_prefix_len_monotonic(rs, i + 1, n);
            assert(bytes[spec_payload_start(n) + spec_prefix_len(rs, i) + k] == payloads[
                spec_prefix_len(rs, i) + k]);
        }
        assert(spec_record(bytes, i).data =~= rs[i].data);
    }
    assert(spec_parse(bytes).unwrap() =~= rs);
}

/// Reads the little-endian 32-bit field at `pos`.
pub fn read_u32_le(bytes: &Vec<u8>, pos: usize) -> (r: u32)
    requires
        pos + 4 <= bytes@.len(),
        bytes@.len() <= usize::MAX,
    ensures
        r == u32_le_at(bytes@, pos as int),
{
    let b0 = bytes[pos] as u32;
    let b1 = bytes[pos + 1] as u32;
    let b2 = bytes[pos + 2] as u32;
    let b3 = bytes[pos + 3] as u32;
    b0 + b1 * 0x100 + b2 * 0x1_0000 + b3 * 0x100_0000
}

/// Computes where the payload region starts for a container of `n` records.
pub fn payload_region_start(n: u64) -> (r: u64)
    requires
        n <= 0xFFFF_FFFF,
    ensures
        r == spec_payload_start(n as int),
{
    let table_end: u64 = (n + 1) * 8;
    if table_end % 16 == 0 {
        table_end
    } else {
        table_end + (16 - table_end % 16)
    }
}

/// Appends the four little-endian bytes of a 32-bit value.
fn push_u32_le(out: &mut Vec<u8>, x: u64)
    requires
        x <= 0xFFFF_FFFF,
    ensures
        final(out)@ == old(out)@ + le4(x as int),
{
    out.push((x % 0x100) as u8);
    out.push(((x / 0x100) % 0x100) as u8);
    out.push(((x / 0x1_0000) % 0x100) as u8);
    out.push(((x / 0x100_0000) % 0x100) as u8);
    proof {
        assert(out@ =~= old(out)@ + le4(x as int));
    }
}

/// Builds the container that encodes `ps`, laid out as the parser expects
/// it: count, header table, padding, packed payloads.
///
/// Fails exactly when some count, offset or length does not fit its 32-bit
/// container field.
pub fn build_container(ps: &PatchSet) -> (r: Result<Vec<u8>, FormatError>)
    ensures
        match r {
            Ok(v) => encodable(ps@) && v@ == spec_encode(ps@),
            Err(_) => !encodable(ps@),
        },
{
    let ghost rsg = ps@;
    let n: usize = ps.records.len();
    if (n as u64) > 0xFFFF_FFFF {
        return Err(FormatError);
    }
    let mut i: usize = 0;
    while i < n
        invariant
            n == rsg.len(),
            rsg == ps@,
            0 <= i <= n,
            forall|j: int|
                0 <= j < i ==> (#[trigger] rsg[j]).offset <= 0xFFFF_FFFF && rsg[j].data.len()
                    <= 0xFFFF_FFFF,
        decreases n - i,
    {
        let r = &ps.records[i];
        if r.offset > 0xFFFF_FFFF || (r.data.len() as u64) > 0xFFFF_FFFF {
            proof {
                assert(rsg[i as int] == ps.records@[i as int]@);
            }
            return Err(FormatError);
        }
        i = i + 1;
    }
    let mut out: Vec<u8> = Vec::new();
    push_u32_le(&mut out, n as u64);
    let mut i: usize = 0;
    while i < n
        invariant
            n == rsg.len(),
            rsg == ps@,
            encodable(rsg),
            0 <= i <= n,
            out@ == le4(n as int) + spec_headers(rsg, i as int),
        decreases n - i,
    {
        let r = &ps.records[i];
        proof {
            assert(rsg[i as int] == ps.records@[i as int]@);
        }
        push_u32_le(&mut out, r.offset);
        push_u32_le(&mut out, r.data.len() as u64);
        proof {
            assert(out@ =~= le4(n as int) + spec_headers(rsg, i as int + 1));
        }
        i = i + 1;
    }
    let target: u64 = payload_region_start(n as u64);
    proof {
        lemma_headers_len(rsg, n as int);
        lemma_payload_start_least(n as int);
        assert(out@ =~= le4(n as int) + spec_headers(rsg, n as int) + zero_bytes(0));
    }
    while (out.len() as u64) < target
        invariant
            n == rsg.len(),
            n <= 0xFFFF_FFFF,
            target == spec_payload_start(n as int),
            spec_headers(rsg, n as int).len() == 8 * n,
            out@.len() >= 4 + 8 * n,
            out@.len() <= target,
            out@ == le4(n as int) + spec_headers(rsg, n as int) + zero_bytes(
                out@.len() - (4 + 8 * n),
            ),
        decreases target - out@.len(),
    {
        out.push(0u8);
        proof {
            assert(out@ =~= le4(n as int) + spec_headers(rsg, n as int) + zero_bytes(
                out@.len() - (4 + 8 * n),
            ));
        }
    }
    let ghost front = le4(n as int) + spec_headers(rsg, n as int) + zero_bytes(
        spec_payload_start(n as int) - (4 + 8 * n),
    );
    let mut i: usize = 0;
    while i < n
        invariant
            n == rsg.len(),
            rsg == ps@,
            encodable(rsg),
            0 <= i <= n,
            out@ == front + spec_payloads(rsg, i as int),
        decreases n - i,
    {
        let r = &ps.records[i];
        proof {
            assert(rsg[i as int] == ps.records@[i as int]@);
        }
        let length: usize = r.data.len();
        let mut k: usize = 0;
        while k < length
            invariant
                length == r.data@.len(),
                0 <= k <= length,
                out@ == front + spec_payloads(rsg, i as int) + r.data@.take(k as int),
            decreases length - k,
        {
            let b = r.data[k];
            out.push(b);
            proof {
                assert(out@ =~= front + spec_payloads(rsg, i as int) + r.data@.take(k as int + 1));
            }
            k = k + 1;
        }
        proof {
            assert(r.data@.take(length as int) =~= r.data@);
            assert(out@ =~= front + spec_payloads(rsg, i as int + 1));
        }
        i = i + 1;
    }
    proof {
        assert(out@ =~= spec_encode(rsg));
    }
    Ok(out)
}

/// Parses a patch container into its ordered record sequence.
///
/// Succeeds exactly on well-formed containers, yielding the records the
/// header table declares, each payload copied from the packed payload
/// region; any truncated field or payload is a `FormatError`, never a
/// silently shortened record.
pub fn parse_patch_set(bytes: &Vec<u8>) -> (r: Result<PatchSet, FormatError>)
    ensures
        match r {
            Ok(ps) => spec_parse(bytes@) == Some(ps@),
            Err(_) => spec_parse(bytes@) is None,
        },
{
    let ghost gbytes = bytes@;
    let len_u64: u64 = bytes.len() as u64;
    if len_u64 < 4 {
        return Err(FormatError);
    }
    let n: u64 = read_u32_le(bytes, 0) as u64;
    proof {
        lemma_u32_le_at_bounds(gbytes, 0);
    }
    if 4 + 8 * n > len_u64 {
        return Err(FormatError);
    }
    let mut cursor: u64 = payload_region_start(n);
    let mut records: Vec<PatchRecord> = Vec::new();
    let mut i: u64 = 0;
    while i < n
        invariant
            gbytes == bytes@,
            gbytes.len() <= usize::MAX,
            len_u64 == gbytes.len(),
            n == spec_record_count(gbytes),
            n <= 0xFFFF_FFFF,
            4 + 8 * n <= len_u64,
            0 <= i <= n,
            cursor == spec_blob_start(gbytes, i as int),
            i > 0 ==> cursor <= len_u64,
            records@.len() == i,
            forall|j: int| 0 <= j < i ==> records@[j]@ == spec_record(gbytes, j),
        decreases n - i,
    {
        let hpos: u64 = 4 + 8 * i;
        let offset: u64 = read_u32_le(bytes, hpos as usize) as u64;
        let length: u64 = read_u32_le(bytes, hpos as usize + 4) as u64;
        proof {
            lemma_u32_le_at_bounds(gbytes, hpos as int);
            lemma_u32_le_at_bounds(gbytes, hpos as int + 4);
        }
        if cursor > len_u64 || length > len_u64 - cursor {
            proof {
                lemma_blob_start_monotonic(gbytes, i as int + 1, n as int);
            }
            return Err(FormatError);
        }
        let mut data: Vec<u8> = Vec::new();
        let mut k: u64 = 0;
        while k < length
            invariant
                gbytes == bytes@,
                gbytes.len() <= usize::MAX,
                cursor + length <= gbytes.len(),
                0 <= k <= length,
                data@.len() == k,
                forall|t: int| 0 <= t < k ==> data@[t] == gbytes[cursor + t],
            decreases length - k,
        {
            let b = bytes[(cursor + k) as usize];
            data.push(b);
            k = k + 1;
        }
        proof {
            assert(data@ =~= spec_record(gbytes, i as int).data);
        }
        records.push(PatchRecord { offset, data });
        cursor = cursor + length;
        i = i + 1;
    }
    let ps = PatchSet { records };
    proof {
        assert(container_well_formed(gbytes));
        assert(ps@ =~= Seq::new(spec_record_count(gbytes) as nat, |j: int| spec_record(gbytes, j)));
    }
    Ok(ps)
}

} // verus!
