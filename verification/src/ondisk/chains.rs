//! How what is stored in sectors, records and lists hangs together.

use vstd::prelude::*;
use crate::bytes::{
    i64_at, lemma_u16_is_spelled, lemma_u32_is_spelled, lemma_u64_is_spelled, spelled, spelled_at,
    u16_at, u32_at,
};
use crate::mft::{holds_searchable, names_acceptable, searchable_names};
use super::attribute_list::{
    entry_length, entry_of, file_name_count, parsed_list, sequence_valid, split_list, ListTail,
    NamedEntry,
};
use super::extents::{
    byte_limit, clusters, decoded_extent, mapping_pairs, runs_of, signed_value, unsigned_value,
};
use super::fixup::{layout_valid, restored, sentinels_match};
use super::ntfs::{attribute_bytes, attribute_decodes, attribute_offsets, file_name_of, first_of_type};
use super::record::{attributes_valid, chain, record_complete};

verus! {

/// The last two bytes of every sector are the ones that the update sequence
/// array keeps for that sector; no other byte changes.
pub proof fn lemma_fixup_restores(s: Seq<u8>, sector_size: int, k: int, b: int)
    requires
        layout_valid(s, sector_size),
        0 <= k < s.len() as int / sector_size,
        b == 0 || b == 1,
    ensures
        restored(s, sector_size).len() == s.len(),
        restored(s, sector_size)[(k + 1) * sector_size - 2 + b] == s[spelled_at(s, 4, 6) + 2 * (k
            + 1) + b],
        forall|i: int|
            k * sector_size <= i < (k + 1) * sector_size - 2 ==> #[trigger] restored(
                s,
                sector_size,
            )[i] == s[i],
{
    lemma_u16_is_spelled(s, 4);
    lemma_sector(s.len() as int, sector_size, k, sector_size - 2 + b);
    assert forall|i: int| k * sector_size <= i < (k + 1) * sector_size - 2 implies #[trigger] restored(
        s,
        sector_size,
    )[i] == s[i] by {
        assert((k + 1) * sector_size == k * sector_size + sector_size) by (nonlinear_arith);
        lemma_sector(s.len() as int, sector_size, k, i - k * sector_size);
    }
}

proof fn lemma_sector(len: int, sector_size: int, k: int, r: int)
    requires
        0 < sector_size,
        0 <= k < len / sector_size,
        0 <= r < sector_size,
    ensures
        (k + 1) * sector_size - sector_size + r == k * sector_size + r,
        (k * sector_size + r) / sector_size == k,
        (k * sector_size + r) % sector_size == r,
        0 <= k * sector_size + r < len,
{
    vstd::arithmetic::div_mod::lemma_fundamental_div_mod_converse(
        k * sector_size + r,
        sector_size,
        k,
        r,
    );
    vstd::arithmetic::div_mod::lemma_fundamental_div_mod(len, sector_size);
    assert(k * sector_size + r < len) by (nonlinear_arith)
        requires
            k + 1 <= len / sector_size,
            0 <= r < sector_size,
            len == sector_size * (len / sector_size) + len % sector_size,
            0 <= len % sector_size,
    ;
    assert((k + 1) * sector_size - sector_size + r == k * sector_size + r) by (nonlinear_arith);
    assert(0 <= k * sector_size) by (nonlinear_arith)
        requires
            0 <= k,
            0 < sector_size,
    ;
}

/// A record is whole where every sector ends in the two bytes that begin the
/// update sequence array.
pub proof fn lemma_sentinels(s: Seq<u8>, sector_size: int, k: int, b: int)
    requires
        layout_valid(s, sector_size),
        sentinels_match(s, sector_size),
        0 <= k < s.len() as int / sector_size,
        b == 0 || b == 1,
    ensures
        s[(k + 1) * sector_size - 2 + b] == s[spelled_at(s, 4, 6) + b],
{
    lemma_u16_is_spelled(s, 4);
    lemma_sector(s.len() as int, sector_size, k, sector_size - 2 + b);
    assert(s[(k + 1) * sector_size - 2 + b] == super::fixup::sentinel(
        s,
        sector_size,
        (k + 1) * sector_size - 2 + b,
    ));
}

/// The array holds one entry per sector and the one they are checked by, and
/// lies behind the header and before the attributes.
pub proof fn lemma_fixup_layout(s: Seq<u8>, sector_size: int)
    requires
        layout_valid(s, sector_size),
    ensures
        512 <= sector_size <= 4096,
        s.len() as int % sector_size == 0,
        spelled_at(s, 6, 8) == s.len() as int / sector_size + 1,
        42 <= spelled_at(s, 4, 6),
        spelled_at(s, 4, 6) % 2 == 0,
        spelled_at(s, 4, 6) + 2 * spelled_at(s, 6, 8) <= spelled_at(s, 20, 22) < s.len(),
{
    lemma_u16_is_spelled(s, 4);
    lemma_u16_is_spelled(s, 6);
    lemma_u16_is_spelled(s, 20);
}

/// The attributes of a record follow each other: each begins where the one
/// before it ends by its own length, none of them is the end mark, and behind
/// the last stands the end mark.
pub proof fn lemma_chain_follows(r: Seq<u8>, used: int, off: int)
    requires
        0 <= off,
        used <= r.len(),
        chain(r, used, off) is Some,
    ensures
        ({
            let offs = chain(r, used, off)->0;
            &&& offs.len() > 0 ==> offs[0] == off
            &&& offs.len() == 0 ==> spelled_at(r, off, off + 4) == 0xFFFF_FFFF
            &&& forall|i: int|
                0 <= i < offs.len() ==> {
                    let at = #[trigger] offs[i];
                    let len = spelled_at(r, at + 4, at + 8);
                    let next = if i + 1 < offs.len() {
                        offs[i + 1]
                    } else {
                        at + len
                    };
                    &&& off <= at
                    &&& next == at + len
                    &&& 16 <= len
                    &&& at + len <= used
                    &&& spelled_at(r, at, at + 4) != 0xFFFF_FFFF
                    &&& i + 1 == offs.len() ==> spelled_at(r, at + len, at + len + 4) == 0xFFFF_FFFF
                }
        }),
    decreases used - off,
{
    lemma_u32_is_spelled(r, off);
    lemma_u32_is_spelled(r, off + 4);
    if u32_at(r, off) != 0xFFFF_FFFF {
        let len = u32_at(r, off + 4) as int;
        lemma_chain_follows(r, used, off + len);
        let offs = chain(r, used, off)->0;
        let rest = chain(r, used, off + len)->0;
        assert(offs == seq![off] + rest);
        assert forall|i: int| 0 <= i < offs.len() implies {
            let at = #[trigger] offs[i];
            let n = spelled_at(r, at + 4, at + 8);
            let next = if i + 1 < offs.len() {
                offs[i + 1]
            } else {
                at + n
            };
            &&& off <= at
            &&& next == at + n
            &&& 16 <= n
            &&& at + n <= used
            &&& spelled_at(r, at, at + 4) != 0xFFFF_FFFF
            &&& i + 1 == offs.len() ==> spelled_at(r, at + n, at + n + 4) == 0xFFFF_FFFF
        } by {
            if i > 0 {
                assert(offs[i] == rest[i - 1]);
                if i + 1 < offs.len() {
                    assert(offs[i + 1] == rest[i]);
                }
            } else {
                if offs.len() > 1 {
                    assert(offs[1] == rest[0]);
                }
            }
        }
    }
}

/// In a record that is whole the types of the attributes never fall, no two
/// attributes share a number, and each type is a multiple of sixteen up to 256.
pub proof fn lemma_whole_record(r: Seq<u8>, i: int, j: int)
    requires
        record_complete(r),
        chain(r, spelled_at(r, 24, 28), spelled_at(r, 20, 22)) matches Some(offs) && 0 <= i < j
            < offs.len(),
    ensures
        ({
            let offs = chain(r, spelled_at(r, 24, 28), spelled_at(r, 20, 22))->0;
            let a = offs[i];
            let b = offs[j];
            &&& spelled_at(r, a, a + 4) <= spelled_at(r, b, b + 4)
            &&& spelled_at(r, a + 14, a + 16) != spelled_at(r, b + 14, b + 16)
            &&& 0 < spelled_at(r, a, a + 4) <= 256
            &&& spelled_at(r, a, a + 4) % 16 == 0
            &&& spelled_at(r, a + 4, a + 8) % 8 == 0
            &&& r[a + 8] <= 1
        }),
        spelled_at(r, 28, 32) == r.len(),
        spelled_at(r, 24, 28) <= r.len(),
        spelled_at(r, 20, 22) % 8 == 0,
        42 <= spelled_at(r, 20, 22) < spelled_at(r, 24, 28),
{
    lemma_u32_is_spelled(r, 24);
    lemma_u32_is_spelled(r, 28);
    lemma_u16_is_spelled(r, 20);
    let used = u32_at(r, 24) as int;
    let start = u16_at(r, 20) as int;
    let offs = chain(r, used, start)->0;
    let a = offs[i];
    let b = offs[j];
    assert(0 <= a && a + 16 <= used && 0 <= b && b + 16 <= used) by {
        lemma_chain_follows(r, used, start);
        assert(start <= offs[i] && start <= offs[j]);
    }
    lemma_pair_of_attributes(r, offs, i, j);
}

/// Of two attributes that come one after the other in a valid chain.
proof fn lemma_pair_of_attributes(r: Seq<u8>, offs: Seq<int>, i: int, j: int)
    requires
        attributes_valid(r, offs),
        0 <= i < j < offs.len(),
        0 <= offs[i],
        offs[i] + 16 <= r.len(),
        0 <= offs[j],
        offs[j] + 16 <= r.len(),
    ensures
        ({
            let a = offs[i];
            let b = offs[j];
            &&& spelled_at(r, a, a + 4) <= spelled_at(r, b, b + 4)
            &&& spelled_at(r, a + 14, a + 16) != spelled_at(r, b + 14, b + 16)
            &&& 0 < spelled_at(r, a, a + 4) <= 256
            &&& spelled_at(r, a, a + 4) % 16 == 0
            &&& spelled_at(r, a + 4, a + 8) % 8 == 0
            &&& r[a + 8] <= 1
        }),
{
    let a = offs[i];
    let b = offs[j];
    lemma_u32_is_spelled(r, a);
    lemma_u32_is_spelled(r, b);
    lemma_u32_is_spelled(r, a + 4);
    lemma_u16_is_spelled(r, a + 14);
    lemma_u16_is_spelled(r, b + 14);
    assert(super::record::attribute_valid(r, offs[i]));
}

/// A type above 256, one that sixteen does not divide, or a length that eight
/// does not divide makes an attribute invalid; so does a resident value that
/// leaves the attribute, and a standard information or a file name that is not
/// resident, is named or is marked.
pub proof fn lemma_attribute_refused(r: Seq<u8>, off: int)
    requires
        0 <= off,
        off + 64 <= r.len(),
        super::record::attribute_valid(r, off),
    ensures
        ({
            let t = spelled_at(r, off, off + 4);
            let len = spelled_at(r, off + 4, off + 8);
            &&& 0 < t <= 256 && t % 16 == 0
            &&& len % 8 == 0
            &&& r[off + 8] == 0 ==> 24 <= spelled_at(r, off + 20, off + 22) && spelled_at(
                r,
                off + 20,
                off + 22,
            ) + spelled_at(r, off + 16, off + 20) <= len
            &&& r[off + 8] != 0 ==> r[off + 8] == 1 && 64 <= spelled_at(r, off + 32, off + 34)
                < len && spelled_at(r, off + 32, off + 34) % 8 == 0
            &&& t == 0x10 || t == 0x30 ==> r[off + 8] == 0
            &&& t == 0x10 || t == 0x20 || t == 0x30 ==> r[off + 9] == 0 && spelled_at(
                r,
                off + 12,
                off + 14,
            ) == 0
            &&& r[off + 9] > 0 ==> spelled_at(r, off + 10, off + 12) + 2 * r[off + 9] <= len
        }),
{
    lemma_u32_is_spelled(r, off);
    lemma_u32_is_spelled(r, off + 4);
    lemma_u16_is_spelled(r, off + 10);
    lemma_u16_is_spelled(r, off + 12);
    lemma_u32_is_spelled(r, off + 16);
    lemma_u16_is_spelled(r, off + 20);
    lemma_u16_is_spelled(r, off + 32);
}

/// The attributes that are read follow each other, each where the one before
/// it ends by its own length, as long as there is one.
pub proof fn lemma_attributes_follow(s: Seq<u8>, off: int)
    requires
        0 <= off,
    ensures
        ({
            let offs = attribute_offsets(s, off);
            &&& offs.len() > 0 ==> offs[0] == off
            &&& forall|i: int|
                0 <= i < offs.len() ==> {
                    let at = #[trigger] offs[i];
                    &&& off <= at
                    &&& at + 16 <= s.len()
                    &&& attribute_decodes(s.skip(at))
                    &&& i + 1 < offs.len() ==> offs[i + 1] == at + spelled_at(s, at + 4, at + 8)
                }
            &&& off + 16 <= s.len() && attribute_decodes(s.skip(off)) ==> offs.len() > 0
        }),
    decreases s.len() - off,
{
    let offs = attribute_offsets(s, off);
    if off + 4 <= s.len() && attribute_decodes(s.skip(off)) {
        let next = off + u32_at(s, off + 4) as int;
        lemma_u32_is_spelled(s, off + 4);
        assert(u32_at(s.skip(off), 4) == u32_at(s, off + 4));
        lemma_attributes_follow(s, next);
        let rest = attribute_offsets(s, next);
        assert(offs == seq![off] + rest);
        assert forall|i: int| 0 <= i < offs.len() implies {
            let at = #[trigger] offs[i];
            &&& off <= at
            &&& at + 16 <= s.len()
            &&& attribute_decodes(s.skip(at))
            &&& i + 1 < offs.len() ==> offs[i + 1] == at + spelled_at(s, at + 4, at + 8)
        } by {
            if i > 0 {
                assert(offs[i] == rest[i - 1]);
                if i + 1 < offs.len() {
                    assert(offs[i + 1] == rest[i]);
                }
            } else if offs.len() > 1 {
                assert(offs[1] == rest[0]);
            }
        }
    }
}

/// The attribute looked for is the first of its type among those that are
/// read, and none is found only where none of them is of that type.
pub proof fn lemma_first_of_type(s: Seq<u8>, off: int, code: u32)
    requires
        0 <= off,
    ensures
        ({
            let offs = attribute_offsets(s, off);
            match first_of_type(s, off, code) {
                Some(at) => exists|k: int|
                    {
                        &&& 0 <= k < offs.len()
                        &&& #[trigger] offs[k] == at
                        &&& spelled_at(s, at, at + 4) == code
                        &&& forall|j: int|
                            0 <= j < k ==> spelled_at(s, #[trigger] offs[j], offs[j] + 4) != code
                    },
                None => forall|j: int|
                    0 <= j < offs.len() ==> spelled_at(s, #[trigger] offs[j], offs[j] + 4) != code,
            }
        }),
    decreases s.len() - off,
{
    let offs = attribute_offsets(s, off);
    if off + 4 <= s.len() && attribute_decodes(s.skip(off)) {
        lemma_u32_is_spelled(s, off);
        let next = off + u32_at(s, off + 4) as int;
        assert(u32_at(s.skip(off), 4) == u32_at(s, off + 4));
        let rest = attribute_offsets(s, next);
        assert(offs == seq![off] + rest);
        assert(offs[0] == off);
        if u32_at(s, off) != code {
            lemma_first_of_type(s, next, code);
            match first_of_type(s, off, code) {
                Some(at) => {
                    let k = choose|k: int|
                        {
                            &&& 0 <= k < rest.len()
                            &&& #[trigger] rest[k] == at
                            &&& spelled_at(s, at, at + 4) == code
                            &&& forall|j: int|
                                0 <= j < k ==> spelled_at(s, #[trigger] rest[j], rest[j] + 4)
                                    != code
                        };
                    assert(offs[k + 1] == at);
                    assert forall|j: int| 0 <= j < k + 1 implies spelled_at(
                        s,
                        #[trigger] offs[j],
                        offs[j] + 4,
                    ) != code by {
                        if j > 0 {
                            assert(offs[j] == rest[j - 1]);
                        }
                    }
                },
                None => {
                    assert forall|j: int| 0 <= j < offs.len() implies spelled_at(
                        s,
                        #[trigger] offs[j],
                        offs[j] + 4,
                    ) != code by {
                        if j > 0 {
                            assert(offs[j] == rest[j - 1]);
                        }
                    }
                },
            }
        }
    }
}

/// The searchable names of a record are those of its attributes that hold
/// one, in their order: an attribute more adds its name, or nothing.
pub proof fn lemma_searchable_names_follow(record: Seq<u8>, offs: Seq<int>, at: int)
    ensures
        ({
            let attribute = attribute_bytes(record, at);
            let before = searchable_names(record, offs);
            let after = searchable_names(record, offs.push(at));
            &&& holds_searchable(attribute) ==> after.len() == before.len() + 1 && after.last()
                == file_name_of(attribute)->0
            &&& !holds_searchable(attribute) ==> after.len() == before.len()
            &&& forall|i: int| 0 <= i < before.len() ==> #[trigger] after[i] == before[i]
        }),
        searchable_names(record, Seq::empty()).len() == 0,
{
    assert(offs.push(at).drop_last() =~= offs);
}

/// The value of bytes without a sign is the number that they spell.
pub proof fn lemma_unsigned_is_spelled(s: Seq<u8>)
    ensures
        unsigned_value(s) == spelled(s),
        0 <= spelled(s) < byte_limit(s.len()),
    decreases s.len(),
{
    if s.len() > 0 {
        lemma_unsigned_is_spelled(s.skip(1));
    }
}

/// The value of bytes with a sign is the number that they spell, with those
/// whose highest bit is set that much below zero.
pub proof fn lemma_signed_is_spelled(s: Seq<u8>)
    requires
        s.len() > 0,
    ensures
        s[s.len() - 1] < 0x80 ==> signed_value(s) == spelled(s) && signed_value(s) >= 0,
        s[s.len() - 1] >= 0x80 ==> signed_value(s) == spelled(s) - byte_limit(s.len())
            && signed_value(s) < 0,
        byte_limit(0) == 1,
        byte_limit(s.len()) == 0x100 * byte_limit((s.len() - 1) as nat),
{
    lemma_unsigned_is_spelled(s);
}

/// A mapping pair is a byte of two lengths, a count and a distance: the count
/// of as many bytes as the low half of the first says, the distance of as many
/// as the high half. The distance leads from the cluster before; the pairs that
/// follow are read on from there, up to a zero.
pub proof fn lemma_mapping_pair(m: Seq<u8>, at: int, lcn: int)
    requires
        0 <= at < m.len(),
    ensures
        m[at] == 0 ==> mapping_pairs(m, at, lcn) == Some(Seq::<(int, int)>::empty()),
        m[at] != 0 ==> {
            let low = m[at] % 16;
            let high = m[at] / 16;
            let next = at + 1 + low + high;
            let first = lcn + signed_value(m.subrange(at + 1 + low, next));
            &&& low < 1 || low > 8 || high < 1 || high > 8 || next > m.len() ==> mapping_pairs(
                m,
                at,
                lcn,
            ) is None
            &&& mapping_pairs(m, at, lcn) matches Some(pairs) ==> {
                &&& pairs.len() > 0
                &&& pairs[0].0 == spelled_at(m, at + 1, at + 1 + low)
                &&& pairs[0].1 == first
                &&& mapping_pairs(m, next, first) == Some(pairs.skip(1))
            }
        },
{
    if m[at] != 0 {
        let low = m[at] as int % 16;
        let high = m[at] as int / 16;
        let split = at + 1 + low;
        let next = split + high;
        let first = lcn + signed_value(m.subrange(split, next));
        lemma_unsigned_is_spelled(m.subrange(at + 1, split));
        match mapping_pairs(m, next, first) {
            Some(rest) => {
                let count = unsigned_value(m.subrange(at + 1, split));
                assert((seq![(count, first)] + rest).skip(1) =~= rest);
            },
            None => {},
        }
    }
}

/// The runs of an extent lie one behind the other in the stream: the first at
/// the extent's own place, each next where the one before it ends; each lies on
/// the volume where its pair says and is as long.
pub proof fn lemma_runs_follow(pairs: Seq<(int, int)>, lowest: int, cluster_size: int, i: int)
    requires
        0 <= i < pairs.len(),
        0 < cluster_size,
        0 <= lowest,
        0 <= pairs[i].0,
        0 <= pairs[i].1,
        0 <= clusters(pairs.take(i)),
        (lowest + clusters(pairs.take(i)) + pairs[i].0) * cluster_size <= u64::MAX,
        (pairs[i].1 + pairs[i].0) * cluster_size <= u64::MAX,
    ensures
        ({
            let runs = runs_of(pairs, lowest, cluster_size);
            &&& runs.len() == pairs.len()
            &&& runs[i].physical is Some
            &&& runs[i].physical->0 == pairs[i].1 * cluster_size
            &&& runs[i].len == pairs[i].0 * cluster_size
            &&& i == 0 ==> runs[i].logical == lowest * cluster_size
            &&& i + 1 < pairs.len() ==> runs[i + 1].logical == runs[i].logical + runs[i].len
        }),
{
    let before = clusters(pairs.take(i));
    assert((lowest + before + pairs[i].0) * cluster_size == (lowest + before) * cluster_size
        + pairs[i].0 * cluster_size) by (nonlinear_arith);
    assert((pairs[i].1 + pairs[i].0) * cluster_size == pairs[i].1 * cluster_size + pairs[i].0
        * cluster_size) by (nonlinear_arith);
    assert(0 <= (lowest + before) * cluster_size) by (nonlinear_arith)
        requires
            0 <= lowest + before,
            0 < cluster_size,
    ;
    assert(0 <= pairs[i].0 * cluster_size) by (nonlinear_arith)
        requires
            0 <= pairs[i].0,
            0 < cluster_size,
    ;
    assert(0 <= pairs[i].1 * cluster_size) by (nonlinear_arith)
        requires
            0 <= pairs[i].1,
            0 < cluster_size,
    ;
    if i == 0 {
        assert(pairs.take(0).len() == 0);
        assert(before == 0);
    }
    if i + 1 < pairs.len() {
        assert(pairs.take(i + 1).drop_last() =~= pairs.take(i));
        assert(pairs.take(i + 1).last() == pairs[i]);
        assert(clusters(pairs.take(i + 1)) == before + pairs[i].0);
    }
}

/// An extent that is decoded declares the size at byte 48, and each of its runs
/// lies on the volume, is not empty and shares nothing with another.
pub proof fn lemma_extent_on_volume(s: Seq<u8>, cluster_size: int, volume_size: int, i: int, j: int)
    requires
        s.len() >= 64,
        0 < cluster_size <= u64::MAX,
        volume_size <= u64::MAX,
        decoded_extent(s, cluster_size, volume_size) matches Some(x) && 0 <= i < x.1.len() && 0 <= j
            < x.1.len() && i != j,
    ensures
        ({
            let (size, runs) = decoded_extent(s, cluster_size, volume_size)->0;
            &&& size == spelled_at(s, 48, 56)
            &&& runs[i].len > 0
            &&& runs[i].physical is Some
            &&& runs[i].physical->0 + runs[i].len <= volume_size
            &&& runs[i].physical->0 + runs[i].len <= runs[j].physical->0 || runs[j].physical->0
                + runs[j].len <= runs[i].physical->0
        }),
{
    lemma_u64_is_spelled(s, 48);
    let header = super::ntfs::nonresident_of(s)->0;
    let pairs = mapping_pairs(s.skip(64), 0, 0)->0;
    let runs = runs_of(pairs, header.lowest_vcn as int, cluster_size);
    assert(super::attribute_list::run_allocated(runs[i]));
    assert(super::attribute_list::run_allocated(runs[j]));
    if i < j {
        assert(super::attribute_list::physically_apart(runs[i], runs[j]));
    } else {
        assert(super::attribute_list::physically_apart(runs[j], runs[i]));
    }
    assert(pairs[i].0 > 0);
    assert(0 <= pairs[i].0 * cluster_size) by (nonlinear_arith)
        requires
            0 < pairs[i].0,
            0 < cluster_size,
    ;
    assert(0 <= pairs[i].1 * cluster_size) by (nonlinear_arith)
        requires
            0 < pairs[i].1,
            0 < cluster_size,
    ;
}

/// The entries of a list follow each other, each where the one before it ends
/// by its own length; a list is complete where they fill it.
pub proof fn lemma_list_follows(s: Seq<u8>, off: int)
    requires
        0 <= off,
        off + 26 <= s.len(),
    ensures
        ({
            let (d, tail) = split_list(s, off);
            let len = spelled_at(s, off + 4, off + 6);
            &&& d.len() > 0 ==> {
                &&& d[0] == entry_of(s.skip(off))
                &&& 26 <= len
                &&& off + len <= s.len()
                &&& d.skip(1) == split_list(s, off + len).0
                &&& tail == split_list(s, off + len).1
            }
            &&& d.len() == 0 ==> tail != ListTail::Complete
        }),
        split_list(s, s.len() as int).0.len() == 0,
        split_list(s, s.len() as int).1 == ListTail::Complete,
{
    let rest = s.skip(off);
    lemma_u16_is_spelled(s, off + 4);
    assert(entry_length(rest) == u16_at(s, off + 4));
    let (d, tail) = split_list(s, off);
    if d.len() > 0 {
        let next = off + entry_length(rest);
        assert(d == seq![entry_of(rest)] + split_list(s, next).0);
        assert(d.skip(1) =~= split_list(s, next).0);
    }
}

proof fn lemma_name_count(d: Seq<NamedEntry>)
    ensures
        file_name_count(d) <= d.len(),
    decreases d.len(),
{
    if d.len() > 0 {
        lemma_name_count(d.drop_last());
    }
}

/// A list that is accepted gives every entry in its order, holds at most
/// 262144 entries and 16 MiB, and is complete unless a part of one was asked
/// for.
pub proof fn lemma_list_accepted(s: Seq<u8>, prefix: bool, i: int, j: int)
    requires
        parsed_list(s, prefix) matches Some(entries) && 0 <= i < j < entries.len(),
    ensures
        ({
            let (d, tail) = split_list(s, 0);
            let entries = parsed_list(s, prefix)->0;
            &&& entries.len() == d.len() <= 262_144
            &&& s.len() <= 0x100_0000
            &&& entries[i] == d[i].entry
            &&& entries[i].type_id <= entries[j].type_id
            &&& entries[i].target_reference != entries[j].target_reference || entries[i].id
                != entries[j].id
            &&& d[i].entry.type_id == d[j].entry.type_id && d[i].name == d[j].name
                && d[j].entry.type_id != 0x30 ==> d[i].entry.starting_vcn < d[j].entry.starting_vcn
            &&& file_name_count(d) <= 4096
            &&& tail != ListTail::Malformed
            &&& !prefix ==> tail == ListTail::Complete
        }),
{
    let (d, tail) = split_list(s, 0);
    assert(sequence_valid(d));
    assert(super::attribute_list::entries_ordered(d[i], d[j]));
    lemma_name_count(d);
}

/// An extent is decoded only of an unnamed, unmarked attribute of a list or of
/// data whose clusters lie on the volume; the first one declares what is
/// allocated for the whole, at byte 40, and no less than is used.
pub proof fn lemma_extent_accepted(s: Seq<u8>, cluster_size: int, volume_size: int)
    requires
        s.len() >= 64,
        decoded_extent(s, cluster_size, volume_size) is Some,
    ensures
        spelled_at(s, 0, 4) == 0x20 || spelled_at(s, 0, 4) == 0x80,
        s[8] == 1,
        s[9] == 0,
        spelled_at(s, 12, 14) == 0,
        s.len() % 8 == 0,
        spelled_at(s, 32, 34) == 64,
        s[34] == 0 && s[35] == 0 && s[36] == 0 && s[37] == 0 && s[38] == 0 && s[39] == 0,
        ({
            let low = i64_at(s, 16);
            let high = i64_at(s, 24);
            let allocated = spelled_at(s, 40, 48);
            let size = spelled_at(s, 48, 56);
            &&& 0 <= low <= high
            &&& (high + 1) * cluster_size <= volume_size
            &&& low == 0 ==> {
                &&& 0 < allocated <= volume_size
                &&& allocated % cluster_size == 0
                &&& 0 < size <= allocated
                &&& spelled_at(s, 56, 64) <= size
                &&& (high + 1) * cluster_size <= allocated
                &&& spelled_at(s, 0, 4) == 0x20 ==> size <= 0x100_0000
            }
        }),
{
    lemma_u32_is_spelled(s, 0);
    lemma_u16_is_spelled(s, 12);
    lemma_u16_is_spelled(s, 32);
    lemma_u64_is_spelled(s, 40);
    lemma_u64_is_spelled(s, 48);
    lemma_u64_is_spelled(s, 56);
    assert(super::extents::zero_bytes(s, 34, 40));
}

/// A record's names are acceptable only where each attribute that holds one is
/// unnamed and unmarked and decodes to a name that is searched or a short one.
pub proof fn lemma_names_accepted(record: Seq<u8>, offs: Seq<int>, i: int)
    requires
        names_acceptable(record, offs),
        0 <= i < offs.len(),
        attribute_bytes(record, offs[i]).len() >= 16,
        spelled_at(attribute_bytes(record, offs[i]), 0, 4) == 0x30,
    ensures
        ({
            let a = attribute_bytes(record, offs[i]);
            &&& a[9] == 0
            &&& spelled_at(a, 12, 14) == 0
            &&& file_name_of(a) is Some
            &&& (file_name_of(a)->0).0.name_length > 0
            &&& (file_name_of(a)->0).0.namespace <= 3
            &&& holds_searchable(a) <==> (file_name_of(a)->0).0.namespace != 2
        }),
{
    let a = attribute_bytes(record, offs[i]);
    lemma_u32_is_spelled(a, 0);
    lemma_u16_is_spelled(a, 12);
    assert(crate::mft::name_acceptable(attribute_bytes(record, offs[i])));
}

/// A list ends as truncated where what is left is too short for an entry or
/// for the one that stands there, and as malformed where what stands there is
/// none.
pub proof fn lemma_list_ends(s: Seq<u8>, off: int)
    requires
        0 <= off < s.len(),
    ensures
        off + 26 > s.len() ==> split_list(s, off).0.len() == 0 && split_list(s, off).1
            == ListTail::Truncated,
        off + 26 <= s.len() && !super::attribute_list::entry_header_valid(s.skip(off)) ==> split_list(
            s,
            off,
        ).0.len() == 0 && split_list(s, off).1 == ListTail::Malformed,
        off + 26 <= s.len() && super::attribute_list::entry_header_valid(s.skip(off)) && off
            + spelled_at(s, off + 4, off + 6) > s.len() ==> split_list(s, off).0.len() == 0
            && split_list(s, off).1 == ListTail::Truncated,
        off + 26 <= s.len() && super::attribute_list::entry_header_valid(s.skip(off)) && off
            + spelled_at(s, off + 4, off + 6) <= s.len() ==> split_list(s, off).0.len() > 0,
{
    if off + 26 <= s.len() {
        lemma_u16_is_spelled(s, off + 4);
        assert(entry_length(s.skip(off)) == u16_at(s, off + 4));
    }
}

/// A part of a list is accepted wherever a whole one is, and gives the same.
pub proof fn lemma_whole_list_is_a_part(s: Seq<u8>)
    ensures
        parsed_list(s, false) is Some ==> parsed_list(s, true) == parsed_list(s, false),
        parsed_list(s, false) is Some ==> parsed_list(s, false)->0.len() > 0,
{
}

/// A list that is whole and in order is accepted, and a part of one wherever
/// it is in order and nothing in it is malformed.
pub proof fn lemma_list_owed(s: Seq<u8>)
    requires
        s.len() <= 0x100_0000,
        sequence_valid(split_list(s, 0).0),
    ensures
        split_list(s, 0).1 == ListTail::Complete && split_list(s, 0).0.len() > 0 ==> parsed_list(
            s,
            false,
        ) is Some,
        split_list(s, 0).1 != ListTail::Malformed ==> parsed_list(s, true) is Some,
{
}

/// Which entries follow each other in order: the kinds never fall, no target
/// comes twice, and the extents of one attribute go on.
pub proof fn lemma_entries_in_order(d: Seq<NamedEntry>)
    ensures
        sequence_valid(d) <==> d.len() <= 262_144 && file_name_count(d) <= 4096 && forall|
            i: int,
            j: int,
        |
            0 <= i < j < d.len() ==> {
                let a = #[trigger] d[i];
                let b = #[trigger] d[j];
                &&& a.entry.type_id <= b.entry.type_id
                &&& a.entry.target_reference != b.entry.target_reference || a.entry.id != b.entry.id
                &&& a.entry.type_id == b.entry.type_id && a.name == b.name && b.entry.type_id
                    != 0x30 ==> a.entry.starting_vcn < b.entry.starting_vcn
            },
{
    if sequence_valid(d) {
        assert forall|i: int, j: int| 0 <= i < j < d.len() implies {
            let a = #[trigger] d[i];
            let b = #[trigger] d[j];
            &&& a.entry.type_id <= b.entry.type_id
            &&& a.entry.target_reference != b.entry.target_reference || a.entry.id != b.entry.id
            &&& a.entry.type_id == b.entry.type_id && a.name == b.name && b.entry.type_id != 0x30
                ==> a.entry.starting_vcn < b.entry.starting_vcn
        } by {
            assert(super::attribute_list::entries_ordered(d[i], d[j]));
        }
    }
}

} // verus!
