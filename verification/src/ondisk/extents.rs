//! Mapping pairs of non-resident attributes, decoded to runs.

use vstd::prelude::*;
use vstd::arithmetic::power2::*;
use vstd::slice::slice_subrange;
use crate::bytes::{is_power_of_two, read_u64, u16_at, u32_at, u64_at};
use super::attribute_list::{
    physical_ranges_are_disjoint, physically_disjoint, StreamRun, MAX_LIST_BYTES,
};
use super::ntfs::{nonresident_of, NtfsAttribute, NtfsAttributeType, NtfsNonResidentAttributeHeader};
use super::record::NONRESIDENT_HEADER_BYTES;

verus! {

/// The number of values that `n` bytes can hold.
pub open spec fn byte_limit(n: nat) -> int
    decreases n,
{
    if n == 0 {
        1
    } else {
        0x100 * byte_limit((n - 1) as nat)
    }
}

/// The unsigned little-endian value of the bytes.
pub open spec fn unsigned_value(s: Seq<u8>) -> int
    decreases s.len(),
{
    if s.len() == 0 {
        0
    } else {
        s[0] + 0x100 * unsigned_value(s.skip(1))
    }
}

/// The two's complement little-endian value of the bytes.
pub open spec fn signed_value(s: Seq<u8>) -> int {
    if s.len() > 0 && s.last() >= 0x80 {
        unsigned_value(s) - byte_limit(s.len())
    } else {
        unsigned_value(s)
    }
}

proof fn lemma_unsigned_bound(s: Seq<u8>)
    ensures
        0 <= unsigned_value(s) < byte_limit(s.len()),
    decreases s.len(),
{
    if s.len() > 0 {
        lemma_unsigned_bound(s.skip(1));
    }
}

proof fn lemma_byte_limit_8(n: nat)
    requires
        n <= 8,
    ensures
        0 < byte_limit(n) <= 0x1_0000_0000_0000_0000,
    decreases 8 - n,
{
    reveal_with_fuel(byte_limit, 9);
}

/// Read up to eight bytes as an unsigned value.
fn unsigned_le(data: &[u8]) -> (r: u64)
    requires
        data@.len() <= 8,
    ensures
        r == unsigned_value(data@),
{
    let ghost s = data@;
    let mut value: u64 = 0;
    let mut i: usize = data.len();
    assert(s.skip(i as int) =~= Seq::empty());
    while i > 0
        invariant
            s == data@,
            i <= s.len() <= 8,
            value == unsigned_value(s.skip(i as int)),
        decreases i,
    {
        i = i - 1;
        proof {
            assert(s.skip(i as int).skip(1) =~= s.skip(i + 1));
            assert(s.skip(i as int)[0] == s[i as int]);
            lemma_unsigned_bound(s.skip(i as int));
            lemma_byte_limit_8((s.len() - i) as nat);
        }
        value = data[i] as u64 + 0x100 * value;
    }
    assert(s.skip(0) =~= s);
    value
}

/// Read up to eight bytes as a two's complement value.
fn signed_le(data: &[u8]) -> (r: i128)
    requires
        0 < data@.len() <= 8,
    ensures
        r == signed_value(data@),
        -0x1_0000_0000_0000_0000 <= r <= 0x1_0000_0000_0000_0000,
{
    let value: u64 = unsigned_le(data);
    proof {
        lemma_unsigned_bound(data@);
        lemma_byte_limit_8(data@.len());
    }
    if data[data.len() - 1] < 0x80 {
        return value as i128;
    }
    let mut limit: i128 = 1;
    let mut i: usize = 0;
    while i < data.len()
        invariant
            i <= data@.len() <= 8,
            limit == byte_limit(i as nat),
        decreases data@.len() - i,
    {
        proof {
            lemma_byte_limit_8((i + 1) as nat);
        }
        limit = 0x100 * limit;
        i = i + 1;
    }
    value as i128 - limit
}

/// The pairs of cluster count and first volume cluster that the mapping bytes
/// hold from `at` on, up to their end mark; each first cluster is stored
/// relative to the one before it, here `lcn`. `None` when a pair has no count
/// or no cluster, is wider than eight bytes, or is not whole.
pub open spec fn mapping_pairs(m: Seq<u8>, at: int, lcn: int) -> Option<Seq<(int, int)>>
    decreases m.len() - at,
{
    if at < 0 || at >= m.len() {
        None
    } else if m[at] == 0 {
        Some(Seq::empty())
    } else {
        let count_bytes = m[at] as int % 16;
        let offset_bytes = m[at] as int / 16;
        let split = at + 1 + count_bytes;
        let next = split + offset_bytes;
        if !(1 <= count_bytes <= 8 && 1 <= offset_bytes <= 8 && next <= m.len()) {
            None
        } else {
            let count = unsigned_value(m.subrange(at + 1, split));
            let first = lcn + signed_value(m.subrange(split, next));
            match mapping_pairs(m, next, first) {
                Some(rest) => Some(seq![(count, first)] + rest),
                None => None,
            }
        }
    }
}

/// The number of clusters that the pairs map.
pub open spec fn clusters(pairs: Seq<(int, int)>) -> int
    decreases pairs.len(),
{
    if pairs.len() == 0 {
        0
    } else {
        clusters(pairs.drop_last()) + pairs.last().0
    }
}

/// Every pair maps at least one cluster, none of them the first of the
/// volume, and stays inside the volume.
pub open spec fn pairs_fit(pairs: Seq<(int, int)>, cluster_size: int, volume_size: int) -> bool {
    forall|i: int|
        0 <= i < pairs.len() ==> (#[trigger] pairs[i]).0 > 0 && pairs[i].1 > 0 && pairs[i].1
            * cluster_size + pairs[i].0 * cluster_size <= volume_size
}

/// The pairs as byte ranges of a stream whose extent starts at cluster
/// `lowest`.
pub open spec fn runs_of(pairs: Seq<(int, int)>, lowest: int, cluster_size: int) -> Seq<StreamRun> {
    Seq::new(
        pairs.len(),
        |i: int|
            StreamRun {
                logical: ((lowest + clusters(pairs.take(i))) * cluster_size) as u64,
                physical: Some((pairs[i].1 * cluster_size) as u64),
                len: (pairs[i].0 * cluster_size) as u64,
            },
    )
}

/// The bytes `a..b` are all zero.
pub open spec fn zero_bytes(s: Seq<u8>, a: int, b: int) -> bool {
    forall|i: int| a <= i < b ==> s[i] == 0
}

/// The sizes that only the first extent of a stream declares agree with each
/// other and with the volume.
pub open spec fn extent_sizes_valid(
    s: Seq<u8>,
    header: NtfsNonResidentAttributeHeader,
    cluster_size: int,
    volume_size: int,
) -> bool {
    let allocated = u64_at(s, 40) as int;
    &&& 0 < allocated <= volume_size
    &&& allocated % cluster_size == 0
    &&& 0 < header.data_size <= allocated
    &&& u32_at(s, 0) == NtfsAttributeType::AttributeList.spec_code() ==> header.data_size
        <= MAX_LIST_BYTES
    &&& u64_at(s, 56) <= header.data_size
    &&& (header.highest_vcn + 1) * cluster_size <= allocated
}

/// The attribute is a plain unnamed list or data extent with a cluster range
/// inside the volume, and its mapping pairs start right behind its header.
pub open spec fn extent_header_valid(s: Seq<u8>, cluster_size: int, volume_size: int) -> bool {
    &&& is_pow2(cluster_size)
    &&& volume_size > 0
    &&& s[9] == 0
    &&& u16_at(s, 12) == 0
    &&& u32_at(s, 0) == NtfsAttributeType::AttributeList.spec_code() || u32_at(s, 0)
        == NtfsAttributeType::Data.spec_code()
    &&& s.len() % 8 == 0
    &&& match nonresident_of(s) {
        Some(header) => {
            &&& 0 <= header.lowest_vcn <= header.highest_vcn
            &&& (header.highest_vcn + 1) * cluster_size <= volume_size
            &&& zero_bytes(s, 34, 40)
            &&& header.lowest_vcn == 0 ==> extent_sizes_valid(s, header, cluster_size, volume_size)
            &&& header.data_runs_offset == NONRESIDENT_HEADER_BYTES
            &&& NONRESIDENT_HEADER_BYTES < s.len()
        },
        None => false,
    }
}

/// The pairs map exactly the cluster range of the extent, onto disjoint parts
/// of the volume.
pub open spec fn extent_pairs_valid(
    pairs: Seq<(int, int)>,
    header: NtfsNonResidentAttributeHeader,
    cluster_size: int,
    volume_size: int,
) -> bool {
    &&& pairs_fit(pairs, cluster_size, volume_size)
    &&& clusters(pairs) == header.highest_vcn - header.lowest_vcn + 1
    &&& physically_disjoint(runs_of(pairs, header.lowest_vcn as int, cluster_size))
}

/// What decoding an extent gives: the size of the whole stream and the runs.
pub open spec fn decoded_extent(s: Seq<u8>, cluster_size: int, volume_size: int) -> Option<
    (u64, Seq<StreamRun>),
> {
    if !extent_header_valid(s, cluster_size, volume_size) {
        None
    } else {
        let header = nonresident_of(s)->0;
        match mapping_pairs(s.skip(NONRESIDENT_HEADER_BYTES as int), 0, 0) {
            Some(pairs) => if extent_pairs_valid(pairs, header, cluster_size, volume_size) {
                Some((header.data_size, runs_of(pairs, header.lowest_vcn as int, cluster_size)))
            } else {
                None
            },
            None => None,
        }
    }
}

proof fn lemma_clusters_joined(a: Seq<(int, int)>, b: Seq<(int, int)>)
    requires
        forall|i: int| 0 <= i < b.len() ==> (#[trigger] b[i]).0 >= 0,
    ensures
        clusters(a + b) >= clusters(a),
    decreases b.len(),
{
    if b.len() == 0 {
        assert(a + b =~= a);
    } else {
        assert((a + b).drop_last() =~= a + b.drop_last());
        lemma_clusters_joined(a, b.drop_last());
    }
}

proof fn lemma_counts_nonnegative(m: Seq<u8>, at: int, lcn: int)
    ensures
        mapping_pairs(m, at, lcn) matches Some(pairs) ==> forall|i: int|
            0 <= i < pairs.len() ==> (#[trigger] pairs[i]).0 >= 0,
    decreases m.len() - at,
{
    if 0 <= at < m.len() && m[at] != 0 {
        let count_bytes = m[at] as int % 16;
        let offset_bytes = m[at] as int / 16;
        let split = at + 1 + count_bytes;
        let next = split + offset_bytes;
        if 1 <= count_bytes <= 8 && 1 <= offset_bytes <= 8 && next <= m.len() {
            lemma_unsigned_bound(m.subrange(at + 1, split));
            lemma_counts_nonnegative(
                m,
                next,
                lcn + signed_value(m.subrange(split, next)),
            );
        }
    }
}

/// `rest`, when there is one, with `done` in front of it.
spec fn joined(done: Seq<(int, int)>, rest: Option<Seq<(int, int)>>) -> Option<Seq<(int, int)>> {
    match rest {
        Some(tail) => Some(done + tail),
        None => None,
    }
}

/// Whether the attribute is an extent whose pairs can be decoded; gives its
/// header.
fn checked_extent_header(
    attr: &NtfsAttribute<'_>,
    cluster_size: u64,
    volume_size: u64,
) -> (r: Option<NtfsNonResidentAttributeHeader>)
    requires
        attr.wf(),
    ensures
        r is Some <==> extent_header_valid(attr.bytes(), cluster_size as int, volume_size as int),
        r is Some ==> r == nonresident_of(attr.bytes()),
{
    let ghost s = attr.bytes();
    reveal(is_pow2);
    if volume_size == 0 || !is_power_of_two(cluster_size) || attr.header.name_length != 0
        || attr.header.flags != 0 || !(attr.header.type_id
        == NtfsAttributeType::AttributeList.code() || attr.header.type_id
        == NtfsAttributeType::Data.code()) || attr.len() % 8 != 0 {
        return None;
    }
    let header: NtfsNonResidentAttributeHeader = match attr.nonresident_header() {
        Some(header) => header,
        None => {
            return None;
        },
    };
    if header.lowest_vcn < 0 || header.highest_vcn < header.lowest_vcn {
        return None;
    }
    let extent_end: u64 = match (header.highest_vcn as u64 + 1).checked_mul(cluster_size) {
        Some(end) => end,
        None => {
            return None;
        },
    };
    if extent_end > volume_size {
        return None;
    }
    let bytes: &[u8] = attr.data();
    let mut i: usize = 34;
    while i < 40
        invariant
            34 <= i <= 40,
            bytes@ == s,
            s == attr.bytes(),
            s.len() >= NONRESIDENT_HEADER_BYTES,
            nonresident_of(s) == Some(header),
            zero_bytes(s, 34, i as int),
        decreases 40 - i,
    {
        if bytes[i] != 0 {
            assert(s[i as int] != 0);
            return None;
        }
        i = i + 1;
    }
    if header.lowest_vcn == 0 {
        let allocated: u64 = read_u64(bytes, 40);
        let initialized: u64 = read_u64(bytes, 56);
        if allocated == 0 || header.data_size == 0 || (attr.header.type_id
            == NtfsAttributeType::AttributeList.code() && header.data_size > MAX_LIST_BYTES)
            || allocated % cluster_size != 0 || allocated > volume_size || header.data_size
            > allocated || initialized > header.data_size || extent_end > allocated {
            return None;
        }
    }
    if header.data_runs_offset as usize != NONRESIDENT_HEADER_BYTES || NONRESIDENT_HEADER_BYTES
        >= bytes.len() {
        return None;
    }
    Some(header)
}

/// Products of cluster numbers up to the end of an extent stay in range.
proof fn lemma_cluster_products(a: int, b: int, end: int, cluster_size: int, limit: int)
    requires
        0 <= a,
        0 <= b,
        a + b <= end,
        cluster_size > 0,
        end * cluster_size <= limit,
    ensures
        0 <= a * cluster_size <= limit,
        0 <= b * cluster_size <= limit,
        (a + b) * cluster_size == a * cluster_size + b * cluster_size <= limit,
{
    assert((a + b) * cluster_size == a * cluster_size + b * cluster_size) by (nonlinear_arith);
    assert((a + b) * cluster_size <= end * cluster_size) by (nonlinear_arith)
        requires
            a + b <= end,
            cluster_size > 0,
    ;
    assert(0 <= a * cluster_size && 0 <= b * cluster_size) by (nonlinear_arith)
        requires
            0 <= a,
            0 <= b,
            cluster_size > 0,
    ;
}

/// Decode one non-resident extent's mapping pairs into absolute byte ranges.
///
/// All logical/physical arithmetic and volume bounds are checked before I/O.
pub fn decode_extent_runs(attr: &NtfsAttribute<'_>, cluster_size: u64, volume_size: u64) -> (r:
    Option<(u64, Vec<StreamRun>)>)
    requires
        attr.wf(),
    ensures
        r matches Some(x) ==> decoded_extent(attr.bytes(), cluster_size as int, volume_size as int)
            == Some((x.0, x.1@)),
        r is None ==> decoded_extent(attr.bytes(), cluster_size as int, volume_size as int) is None,
{
    let ghost s = attr.bytes();
    let ghost cs = cluster_size as int;
    let ghost vs = volume_size as int;
    let header: NtfsNonResidentAttributeHeader = match checked_extent_header(
        attr,
        cluster_size,
        volume_size,
    ) {
        Some(header) => header,
        None => {
            return None;
        },
    };
    let ghost lowest = header.lowest_vcn as int;
    let ghost extent = header.highest_vcn - header.lowest_vcn + 1;
    let mut remaining: u64 = (header.highest_vcn - header.lowest_vcn) as u64 + 1;
    let mut vcn: u64 = header.lowest_vcn as u64;
    let bytes: &[u8] = attr.data();
    let mapping: &[u8] = slice_subrange(bytes, NONRESIDENT_HEADER_BYTES, bytes.len());
    let ghost m = mapping@;
    assert(m =~= s.skip(NONRESIDENT_HEADER_BYTES as int));
    let mut cursor: usize = 0;
    let mut lcn: u64 = 0;
    let mut runs: Vec<StreamRun> = Vec::new();
    let ghost mut done: Seq<(int, int)> = Seq::empty();
    proof {
        match mapping_pairs(m, 0, 0) {
            Some(tail) => {
                assert(done + tail =~= tail);
            },
            None => {},
        }
        reveal(is_pow2);
    }
    loop
        invariant
            m == mapping@,
            s == attr.bytes(),
            cs == cluster_size,
            vs == volume_size,
            cs > 0,
            extent_header_valid(s, cs, vs),
            nonresident_of(s) == Some(header),
            m == s.skip(NONRESIDENT_HEADER_BYTES as int),
            lowest == header.lowest_vcn,
            extent == header.highest_vcn - header.lowest_vcn + 1,
            lowest >= 0,
            (header.highest_vcn + 1) * cs <= vs,
            cursor <= m.len(),
            mapping_pairs(m, 0, 0) == joined(done, mapping_pairs(m, cursor as int, lcn as int)),
            pairs_fit(done, cs, vs),
            clusters(done) + remaining == extent,
            vcn == lowest + clusters(done),
            runs@ == runs_of(done, lowest, cs),
        decreases m.len() - cursor,
    {
        if cursor >= mapping.len() {
            return None;
        }
        let descriptor: u8 = mapping[cursor];
        let ghost at = cursor as int;
        if descriptor == 0 {
            proof {
                assert(done + Seq::<(int, int)>::empty() =~= done);
            }
            if remaining != 0 {
                return None;
            }
            return if physical_ranges_are_disjoint(runs.as_slice()) {
                Some((header.data_size, runs))
            } else {
                None
            };
        }
        let count_bytes: usize = (descriptor % 16) as usize;
        let offset_bytes: usize = (descriptor / 16) as usize;
        if count_bytes == 0 || count_bytes > 8 || offset_bytes == 0 || offset_bytes > 8 {
            return None;
        }
        if mapping.len() - cursor - 1 < count_bytes + offset_bytes {
            return None;
        }
        let split: usize = cursor + 1 + count_bytes;
        let next: usize = split + offset_bytes;
        let count: u64 = unsigned_le(slice_subrange(mapping, cursor + 1, split));
        let delta: i128 = signed_le(slice_subrange(mapping, split, next));
        let first: i128 = lcn as i128 + delta;
        let ghost pair: (int, int) = (count as int, first as int);
        let ghost all = mapping_pairs(m, 0, 0);
        let ghost rest = mapping_pairs(m, next as int, first as int);
        proof {
            match rest {
                Some(tail) => {
                    assert(done + (seq![pair] + tail) =~= done.push(pair) + tail);
                    assert((done + (seq![pair] + tail))[done.len() as int] == pair);
                    lemma_counts_nonnegative(m, next as int, first as int);
                    lemma_clusters_joined(done.push(pair), tail);
                },
                None => {},
            }
            assert(all == joined(done.push(pair), rest));
            assert(done.push(pair).drop_last() =~= done);
            assert(clusters(done.push(pair)) == clusters(done) + count);
        }
        if count == 0 || count > remaining {
            return None;
        }
        if first <= 0 || first > u64::MAX as i128 {
            proof {
                if first > u64::MAX {
                    assert(first * cs + count * cs > vs) by (nonlinear_arith)
                        requires
                            first > 0xFFFF_FFFF_FFFF_FFFF,
                            cs >= 1,
                            count >= 1,
                            vs <= 0xFFFF_FFFF_FFFF_FFFF,
                    ;
                }
            }
            return None;
        }
        proof {
            lemma_cluster_products(
                vcn as int,
                count as int,
                header.highest_vcn + 1,
                cs,
                vs,
            );
            assert(count * cs >= 0 && first * cs >= 0) by (nonlinear_arith)
                requires
                    count > 0,
                    first > 0,
                    cs > 0,
            ;
        }
        let run_len: u64 = count * cluster_size;
        let physical: u64 = match (first as u64).checked_mul(cluster_size) {
            Some(physical) => physical,
            None => {
                return None;
            },
        };
        if physical > volume_size || run_len > volume_size - physical {
            return None;
        }
        let logical: u64 = vcn * cluster_size;
        runs.push(StreamRun { logical, physical: Some(physical), len: run_len });
        proof {
            let grown = done.push(pair);
            assert forall|i: int| 0 <= i < grown.len() implies runs@[i] == #[trigger] runs_of(
                grown,
                lowest,
                cs,
            )[i] by {
                if i < done.len() {
                    assert(grown.take(i) =~= done.take(i));
                    assert(runs@[i] == runs_of(done, lowest, cs)[i]);
                } else {
                    assert(grown.take(i) =~= done);
                }
            }
            assert(runs@ =~= runs_of(grown, lowest, cs));
            done = grown;
        }
        remaining = remaining - count;
        vcn = vcn + count;
        lcn = first as u64;
        cursor = next;
    }
}

} // verus!
