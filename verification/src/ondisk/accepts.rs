//! Exactly which bytes of a volume are accepted.

use vstd::prelude::*;
use vstd::arithmetic::power2::{is_pow2, pow2};
use crate::bytes::{
    i64_at, lemma_u16_is_spelled, lemma_u32_is_spelled, lemma_u64_is_spelled, spelled_at,
};
use super::attribute_list::{
    logically_apart, physically_apart, run_allocated, runs_partial, StreamRun,
};
use super::extents::extent_header_valid;
use super::fixup::layout_valid;
use super::ntfs::{boot_valid, file_valid};
use super::record::{attribute_valid, chain, header_valid, record_complete};

verus! {

/// A file record is accepted exactly where it begins with `FILE`, fills its
/// buffer of whole sectors, keeps a pair of bytes for each of them and one more
/// behind its header and before its attributes, and is no used record without a
/// generation.
pub proof fn lemma_record_accepted(s: Seq<u8>, sector_size: int)
    requires
        s.len() >= 42,
        512 <= sector_size <= 4096,
    ensures
        file_valid(s, sector_size) <==> {
            let usa = spelled_at(s, 4, 6);
            let count = spelled_at(s, 6, 8);
            let first = spelled_at(s, 20, 22);
            let used = spelled_at(s, 24, 28);
            let base = spelled_at(s, 32, 40);
            &&& s[0] == 0x46 && s[1] == 0x49 && s[2] == 0x4C && s[3] == 0x45
            &&& is_pow2(sector_size)
            &&& s.len() as int % sector_size == 0
            &&& count == s.len() as int / sector_size + 1
            &&& usa >= 42 && usa % 2 == 0
            &&& usa + 2 * count <= first
            &&& spelled_at(s, 28, 32) == s.len()
            &&& s[22] % 2 == 1 ==> spelled_at(s, 16, 18) != 0
            &&& base == 0 || base >= 0x1_0000_0000_0000
            &&& 42 <= first < used <= s.len()
            &&& first % 8 == 0
        },
{
    super::layout::lemma_record_header_layout(s);
    super::layout::lemma_record_flags(s);
    lemma_u16_is_spelled(s, 4);
    lemma_u16_is_spelled(s, 6);
}

/// A buffer can be fixed up exactly where its array has one pair of bytes for
/// each sector and one more, behind the header and before the attributes.
pub proof fn lemma_fixup_accepted(s: Seq<u8>, sector_size: int)
    requires
        s.len() >= 42,
        512 <= sector_size <= 4096,
    ensures
        layout_valid(s, sector_size) <==> {
            let usa = spelled_at(s, 4, 6);
            let count = spelled_at(s, 6, 8);
            let first = spelled_at(s, 20, 22);
            &&& is_pow2(sector_size)
            &&& s.len() >= sector_size
            &&& s.len() as int % sector_size == 0
            &&& usa >= 42 && usa % 2 == 0
            &&& count == s.len() as int / sector_size + 1
            &&& usa + 2 * count <= first < s.len()
        },
{
    lemma_u16_is_spelled(s, 4);
    lemma_u16_is_spelled(s, 6);
    lemma_u16_is_spelled(s, 20);
}

/// Which attributes of a record are valid: of a known kind and even length,
/// plain where it is one of the three that are read, with name and value, or
/// name and runs, behind its header, in this order and inside it.
pub proof fn lemma_attribute_accepted(r: Seq<u8>, off: int)
    requires
        0 <= off,
        off + 64 <= r.len(),
    ensures
        attribute_valid(r, off) <==> {
            let kind = spelled_at(r, off, off + 4);
            let len = spelled_at(r, off + 4, off + 8);
            let units = r[off + 9] as int;
            let name = spelled_at(r, off + 10, off + 12);
            let value_len = spelled_at(r, off + 16, off + 20);
            let value = spelled_at(r, off + 20, off + 22);
            let runs = spelled_at(r, off + 32, off + 34);
            let read = kind == 0x10 || kind == 0x20 || kind == 0x30;
            &&& 0 < kind <= 0x100 && kind % 0x10 == 0
            &&& len % 8 == 0
            &&& read ==> units == 0 && spelled_at(r, off + 12, off + 14) == 0
            &&& units > 0 ==> name + 2 * units <= len
            &&& r[off + 8] == 0 || r[off + 8] == 1
            &&& r[off + 8] == 0 ==> {
                &&& 24 <= len && 24 <= value && value + value_len <= len
                &&& units > 0 ==> 24 <= name && name + 2 * units <= value
            }
            &&& r[off + 8] == 1 ==> {
                &&& kind != 0x10 && kind != 0x30
                &&& 64 <= len && 64 <= runs < len && runs % 8 == 0
                &&& units > 0 ==> 64 <= name && name + 2 * units <= runs
            }
        },
{
    lemma_u32_is_spelled(r, off);
    lemma_u32_is_spelled(r, off + 4);
    lemma_u16_is_spelled(r, off + 10);
    lemma_u16_is_spelled(r, off + 12);
    lemma_u32_is_spelled(r, off + 16);
    lemma_u16_is_spelled(r, off + 20);
    lemma_u16_is_spelled(r, off + 32);
}

/// A record is complete exactly where its header is sound, its chain of
/// attributes ends, each of them is valid, their kinds never fall and no two
/// share a number.
pub proof fn lemma_complete_accepted(r: Seq<u8>)
    requires
        r.len() >= 42,
    ensures
        header_valid(r) <==> {
            let first = spelled_at(r, 20, 22);
            let used = spelled_at(r, 24, 28);
            &&& spelled_at(r, 28, 32) == r.len()
            &&& 42 <= first < used <= r.len()
            &&& first % 8 == 0
        },
        record_complete(r) <==> header_valid(r) && (chain(
            r,
            spelled_at(r, 24, 28),
            spelled_at(r, 20, 22),
        ) matches Some(offs) && (forall|i: int|
            0 <= i < offs.len() ==> attribute_valid(r, #[trigger] offs[i])) && (forall|i: int, j: int|
            0 <= i < j < offs.len() ==> spelled_at(r, #[trigger] offs[i], offs[i] + 4) <= spelled_at(
                r,
                #[trigger] offs[j],
                offs[j] + 4,
            ) && spelled_at(r, offs[i] + 14, offs[i] + 16) != spelled_at(
                r,
                offs[j] + 14,
                offs[j] + 16,
            ))),
{
    lemma_u16_is_spelled(r, 20);
    lemma_u32_is_spelled(r, 24);
    lemma_u32_is_spelled(r, 28);
    if header_valid(r) {
        let used = spelled_at(r, 24, 28);
        let first = spelled_at(r, 20, 22);
        if chain(r, used, first) is Some {
            let offs = chain(r, used, first)->0;
            super::chains::lemma_chain_follows(r, used, first);
            assert forall|i: int| 0 <= i < offs.len() implies super::record::type_at(
                r,
                #[trigger] offs[i],
            ) == spelled_at(r, offs[i], offs[i] + 4) && super::record::id_at(r, offs[i])
                == spelled_at(r, offs[i] + 14, offs[i] + 16) by {
                lemma_u32_is_spelled(r, offs[i]);
                lemma_u16_is_spelled(r, offs[i] + 14);
            }
        }
    }
}

/// Which boot sectors are accepted: marked as NTFS and as a boot sector, of
/// sound sector, cluster and record sizes, on a volume that holds at least the
/// first record of its file table.
pub proof fn lemma_boot_accepted(s: Seq<u8>)
    requires
        s.len() >= 512,
    ensures
        boot_valid(s) <==> {
            let sector = spelled_at(s, 11, 13);
            let cluster = sector * s[13];
            let volume = spelled_at(s, 40, 48) * sector;
            let mft = spelled_at(s, 48, 56) * cluster;
            let record = if s[64] == 0 {
                1
            } else if s[64] < 0x80 {
                s[64] * cluster
            } else {
                pow2((0x100 - s[64]) as nat) as int
            };
            &&& s[3] == 0x4E && s[4] == 0x54 && s[5] == 0x46 && s[6] == 0x53
            &&& s[7] == 0x20 && s[8] == 0x20 && s[9] == 0x20 && s[10] == 0x20
            &&& s[510] == 0x55 && s[511] == 0xAA
            &&& 512 <= sector <= 4096 && is_pow2(sector)
            &&& is_pow2(s[13] as int)
            &&& cluster <= 0x20_0000
            &&& 0 < volume <= u64::MAX
            &&& sector <= record <= 0x1_0000 && is_pow2(record) && record % sector == 0
            &&& mft + record <= volume
        },
{
    lemma_u16_is_spelled(s, 11);
    lemma_u64_is_spelled(s, 40);
    lemma_u64_is_spelled(s, 48);
}

/// Which extents are read: unnamed, unmarked parts of a list or of data, whose
/// clusters lie on the volume and whose runs follow the header at once; the
/// first of them declares sound sizes for the whole.
pub proof fn lemma_extent_accepted(s: Seq<u8>, cluster_size: int, volume_size: int)
    requires
        s.len() >= 64,
    ensures
        extent_header_valid(s, cluster_size, volume_size) <==> {
            let kind = spelled_at(s, 0, 4);
            let low = i64_at(s, 16);
            let high = i64_at(s, 24);
            let allocated = spelled_at(s, 40, 48);
            let size = spelled_at(s, 48, 56);
            &&& is_pow2(cluster_size)
            &&& volume_size > 0
            &&& s[8] == 1 && s[9] == 0 && spelled_at(s, 12, 14) == 0
            &&& kind == 0x20 || kind == 0x80
            &&& s.len() % 8 == 0
            &&& s.len() > 64
            &&& spelled_at(s, 32, 34) == 64
            &&& forall|i: int| 34 <= i < 40 ==> #[trigger] s[i] == 0
            &&& 0 <= low <= high
            &&& (high + 1) * cluster_size <= volume_size
            &&& low == 0 ==> {
                &&& 0 < allocated <= volume_size
                &&& allocated % cluster_size == 0
                &&& 0 < size <= allocated
                &&& kind == 0x20 ==> size <= 0x100_0000
                &&& spelled_at(s, 56, 64) <= size
                &&& (high + 1) * cluster_size <= allocated
            }
        },
{
    lemma_u32_is_spelled(s, 0);
    lemma_u16_is_spelled(s, 12);
    lemma_u16_is_spelled(s, 32);
    lemma_u64_is_spelled(s, 40);
    lemma_u64_is_spelled(s, 48);
    lemma_u64_is_spelled(s, 56);
    if super::extents::zero_bytes(s, 34, 40) {
        assert forall|i: int| 34 <= i < 40 implies #[trigger] s[i] == 0 by {}
    }
}

/// Runs of a list may be what is known so far exactly where there are some and
/// not too many, each is allocated, and no two share a byte of the stream or of
/// the volume, and one begins the stream.
pub proof fn lemma_runs_accepted(runs: Seq<StreamRun>, data_size: int)
    ensures
        runs_partial(runs, data_size) <==> {
            &&& 0 < data_size <= 0x100_0000
            &&& 0 < runs.len() <= 16_384
            &&& forall|i: int|
                0 <= i < runs.len() ==> {
                    let run = #[trigger] runs[i];
                    &&& run.len > 0
                    &&& run.physical matches Some(at) && at + run.len <= u64::MAX
                    &&& run.logical + run.len <= u64::MAX
                }
            &&& forall|i: int, j: int|
                0 <= i < j < runs.len() ==> {
                    let a = #[trigger] runs[i];
                    let b = #[trigger] runs[j];
                    &&& a.physical->0 + a.len <= b.physical->0 || b.physical->0 + b.len
                        <= a.physical->0
                    &&& a.logical + a.len <= b.logical || b.logical + b.len <= a.logical
                }
            &&& exists|i: int| 0 <= i < runs.len() && (#[trigger] runs[i]).logical == 0
        },
{
    if runs_partial(runs, data_size) {
        assert forall|i: int| 0 <= i < runs.len() implies {
            let run = #[trigger] runs[i];
            &&& run.len > 0
            &&& run.physical matches Some(at) && at + run.len <= u64::MAX
            &&& run.logical + run.len <= u64::MAX
        } by {
            assert(run_allocated(runs[i]));
            assert(runs[i].end() <= u64::MAX);
        }
        assert forall|i: int, j: int| 0 <= i < j < runs.len() implies {
            let a = #[trigger] runs[i];
            let b = #[trigger] runs[j];
            &&& a.physical->0 + a.len <= b.physical->0 || b.physical->0 + b.len <= a.physical->0
            &&& a.logical + a.len <= b.logical || b.logical + b.len <= a.logical
        } by {
            assert(physically_apart(runs[i], runs[j]));
            assert(logically_apart(runs[i], runs[j]));
        }
    }
}

} // verus!
