//! How a snapshot lies in its file.

use vstd::prelude::*;
use crate::bytes::{
    i64_at, lemma_i64_is_spelled, lemma_u32_is_spelled, lemma_u32s, lemma_u64_is_spelled,
    lemma_u64s, spelled_at, u32s_bytes, u32s_of, u64_at, u64s_bytes, u64s_of,
};
use super::columns::VolumeIndex;
use super::snapshot::{
    columns_in, digest_of, lemma_sections, lemma_snapshot_round_trip, magic, marked_sizes, misfit, section_bytes,
    section_end, sections_fit, sections_of, snapshot_of, unreadable, Columns, SnapshotError,
};

verus! {

/// A snapshot begins with its mark, the journal and the position it was taken
/// at, and how many entries there are, eight bytes each.
pub proof fn lemma_snapshot_header(index: VolumeIndex, journal_id: u64, next_usn: i64)
    requires
        index.wf(),
        index.perm_name@.len() == index.count(),
        sections_fit(index.columns()),
    ensures
        ({
            let s = snapshot_of(index.columns(), journal_id, next_usn);
            &&& s.len() >= 40
            &&& s[0] == 0x46 && s[1] == 0x4D && s[2] == 0x46 && s[3] == 0x49
            &&& s[4] == 0x44 && s[5] == 0x58 && s[6] == 0x30 && s[7] == 0x37
            &&& spelled_at(s, 8, 16) == journal_id
            &&& next_usn >= 0 ==> spelled_at(s, 16, 24) == next_usn
            &&& next_usn < 0 ==> spelled_at(s, 16, 24) == next_usn + 0x1_0000_0000_0000_0000
            &&& spelled_at(s, 24, 32) == index.count()
        }),
{
    let s = snapshot_of(index.columns(), journal_id, next_usn);
    lemma_snapshot_round_trip(index, journal_id, next_usn);
    lemma_readable_snapshot(s);
    lemma_u64_is_spelled(s, 8);
    lemma_u64_is_spelled(s, 24);
    lemma_i64_is_spelled(s, 16);
    lemma_u64_is_spelled(s, 16);
}

/// What is read as a snapshot bears the mark, declares as many entries as each
/// column holds, and is followed by the digest of all of it.
pub proof fn lemma_readable_snapshot(s: Seq<u8>)
    requires
        unreadable(s) is None,
    ensures
        s.len() >= 40,
        s[0] == 0x46 && s[1] == 0x4D && s[2] == 0x46 && s[3] == 0x49,
        s[4] == 0x44 && s[5] == 0x58 && s[6] == 0x30 && s[7] == 0x37,
        ({
            let c = columns_in(s);
            let n = spelled_at(s, 24, 32);
            &&& c.name_id.len() == n && c.orig_off.len() == n && c.parent.len() == n
            &&& c.size_lo.len() == n && c.mtime.len() == n && c.frn.len() == n
            &&& c.flag.len() == n && c.perm_name.len() == n
            &&& c.ovf_ids.len() == c.ovf_sizes.len()
            &&& forall|i: int|
                0 <= i < n ==> #[trigger] c.parent[i] == 0xFFFF_FFFF || c.parent[i] < n
            &&& forall|i: int| 0 <= i < n ==> (#[trigger] c.name_id[i]) < c.dict_off.len()
        }),
        ({
            let end = section_end(s, 12)->Ok_0;
            end + 8 <= s.len() && spelled_at(s, end, end + 8) == digest_of(s.take(end))
        }),
{
    let m = s.take(8);
    assert(m[0] == s[0] && m[1] == s[1] && m[2] == s[2] && m[3] == s[3]);
    assert(m[4] == s[4] && m[5] == s[5] && m[6] == s[6] && m[7] == s[7]);
    lemma_u64_is_spelled(s, 24);
    let end = section_end(s, 12)->Ok_0;
    lemma_section_end_from(s, 12);
    lemma_u64_is_spelled(s, end);
    let c = columns_in(s);
    let n = u64_at(s, 24) as int;
    assert(misfit(c, n) is None);
    assert forall|i: int| 0 <= i < n implies #[trigger] c.parent[i] == 0xFFFF_FFFF || c.parent[i]
        < n by {
        assert(super::snapshot::parent_ok(c, i));
    }
    assert forall|i: int| 0 <= i < n implies (#[trigger] c.name_id[i]) < c.dict_off.len() by {
        lemma_no_fault_before(c, n, i);
    }
}

proof fn lemma_section_end_from(s: Seq<u8>, k: int)
    requires
        -1 <= k,
        section_end(s, k) is Ok,
    ensures
        section_end(s, k)->Ok_0 >= 32,
    decreases k + 1,
{
    if k >= 0 {
        lemma_section_end_from(s, k - 1);
    }
}

proof fn lemma_no_fault_before(c: Columns, n: int, i: int)
    requires
        super::snapshot::first_name_fault(c, n) is None,
        0 <= i < n,
    ensures
        super::snapshot::name_fault(c, i) is None,
    decreases n,
{
    if i < n - 1 {
        lemma_no_fault_before(c, n - 1, i);
    }
}

proof fn lemma_mark(s: Seq<u8>)
    requires
        s.len() >= 32,
    ensures
        s.take(8) == magic() <==> s[0] == 0x46 && s[1] == 0x4D && s[2] == 0x46 && s[3] == 0x49
            && s[4] == 0x44 && s[5] == 0x58 && s[6] == 0x30 && s[7] == 0x37,
{
    let m = s.take(8);
    assert(m[0] == s[0] && m[1] == s[1] && m[2] == s[2] && m[3] == s[3]);
    assert(m[4] == s[4] && m[5] == s[5] && m[6] == s[6] && m[7] == s[7]);
    let g = magic();
    assert(g.len() == 8 && m.len() == 8);
    if s[0] == 0x46 && s[1] == 0x4D && s[2] == 0x46 && s[3] == 0x49 && s[4] == 0x44 && s[5] == 0x58
        && s[6] == 0x30 && s[7] == 0x37 {
        assert forall|i: int| 0 <= i < 8 implies m[i] == g[i] by {
            if i == 0 {
            } else if i == 1 {
            } else if i == 2 {
            } else if i == 3 {
            } else if i == 4 {
            } else if i == 5 {
            } else if i == 6 {
            } else {
            }
        }
        assert(m =~= g);
    }
}

/// Bytes are refused as no snapshot exactly where they are too few for a
/// header or begin otherwise.
pub proof fn lemma_mark_refused(s: Seq<u8>)
    ensures
        s.len() < 32 ==> unreadable(s) == Some(SnapshotError::Truncated),
        s.len() >= 32 && !(s[0] == 0x46 && s[1] == 0x4D && s[2] == 0x46 && s[3] == 0x49 && s[4]
            == 0x44 && s[5] == 0x58 && s[6] == 0x30 && s[7] == 0x37) ==> unreadable(s) == Some(
            SnapshotError::BadMagic,
        ),
{
    if s.len() >= 32 {
        lemma_mark(s);
    }
}

/// The sections follow each other: each is preceded by its length in eight
/// bytes, may hold a gibibyte, and ends where the next begins.
pub proof fn lemma_sections_follow(s: Seq<u8>, k: int)
    requires
        0 <= k < 13,
        section_end(s, k) is Ok,
    ensures
        section_end(s, k - 1) is Ok,
        section_end(s, -1) == Ok::<int, SnapshotError>(32),
        ({
            let at = section_end(s, k - 1)->Ok_0;
            let len = spelled_at(s, at, at + 8);
            &&& section_end(s, k)->Ok_0 == at + 8 + len
            &&& len <= 0x4000_0000
            &&& section_bytes(s, k).len() == len
            &&& forall|i: int| 0 <= i < len ==> #[trigger] section_bytes(s, k)[i] == s[at + 8 + i]
            &&& k == 8 || k == 10 ==> len % 8 == 0
            &&& k != 0 && k != 3 && k != 11 ==> len % 4 == 0
        }),
{
    let at = section_end(s, k - 1)->Ok_0;
    lemma_section_end_from(s, k - 1);
    lemma_u64_is_spelled(s, at);
}

/// What the columns of a snapshot hold, by the place of each section: the
/// numbers of an entry stand at its own place in them.
pub proof fn lemma_columns_read_from(s: Seq<u8>, i: int)
    requires
        0 <= i,
    ensures
        ({
            let c = columns_in(s);
            &&& i < c.dict_pool.len() ==> c.dict_pool[i] == section_bytes(s, 0)[i]
            &&& i < c.dict_off.len() ==> c.dict_off[i] == spelled_at(
                section_bytes(s, 1),
                4 * i,
                4 * i + 4,
            )
            &&& i < c.name_id.len() ==> c.name_id[i] == spelled_at(
                section_bytes(s, 2),
                4 * i,
                4 * i + 4,
            )
            &&& i < c.orig_pool.len() ==> c.orig_pool[i] == section_bytes(s, 3)[i]
            &&& i < c.orig_off.len() ==> c.orig_off[i] == spelled_at(
                section_bytes(s, 4),
                4 * i,
                4 * i + 4,
            )
            &&& i < c.parent.len() ==> c.parent[i] == spelled_at(
                section_bytes(s, 5),
                4 * i,
                4 * i + 4,
            )
            &&& i < c.size_lo.len() ==> c.size_lo[i] == spelled_at(
                section_bytes(s, 6),
                4 * i,
                4 * i + 4,
            )
            &&& i < c.ovf_ids.len() ==> c.ovf_ids[i] == spelled_at(
                section_bytes(s, 7),
                4 * i,
                4 * i + 4,
            )
            &&& i < c.ovf_sizes.len() ==> c.ovf_sizes[i] == spelled_at(
                section_bytes(s, 8),
                8 * i,
                8 * i + 8,
            )
            &&& i < c.mtime.len() ==> c.mtime[i] == spelled_at(
                section_bytes(s, 9),
                4 * i,
                4 * i + 4,
            )
            &&& i < c.frn.len() ==> c.frn[i] == spelled_at(
                section_bytes(s, 10),
                8 * i,
                8 * i + 8,
            )
            &&& i < c.flag.len() ==> c.flag[i] == section_bytes(s, 11)[i]
            &&& i < c.perm_name.len() ==> c.perm_name[i] == spelled_at(
                section_bytes(s, 12),
                4 * i,
                4 * i + 4,
            )
        }),
{
    if i < columns_in(s).dict_off.len() {
        lemma_u32_is_spelled(section_bytes(s, 1), 4 * i);
    }
    if i < columns_in(s).name_id.len() {
        lemma_u32_is_spelled(section_bytes(s, 2), 4 * i);
    }
    if i < columns_in(s).orig_off.len() {
        lemma_u32_is_spelled(section_bytes(s, 4), 4 * i);
    }
    if i < columns_in(s).parent.len() {
        lemma_u32_is_spelled(section_bytes(s, 5), 4 * i);
    }
    if i < columns_in(s).size_lo.len() {
        lemma_u32_is_spelled(section_bytes(s, 6), 4 * i);
    }
    if i < columns_in(s).ovf_ids.len() {
        lemma_u32_is_spelled(section_bytes(s, 7), 4 * i);
    }
    if i < columns_in(s).ovf_sizes.len() {
        lemma_u64_is_spelled(section_bytes(s, 8), 8 * i);
    }
    if i < columns_in(s).mtime.len() {
        lemma_u32_is_spelled(section_bytes(s, 9), 4 * i);
    }
    if i < columns_in(s).frn.len() {
        lemma_u64_is_spelled(section_bytes(s, 10), 8 * i);
    }
    if i < columns_in(s).perm_name.len() {
        lemma_u32_is_spelled(section_bytes(s, 12), 4 * i);
    }
}

proof fn lemma_u32_column(v: Seq<u32>, i: int)
    requires
        0 <= i < v.len(),
    ensures
        spelled_at(u32s_bytes(v), 4 * i, 4 * i + 4) == v[i],
{
    lemma_u32s(v);
    assert(u32s_of(u32s_bytes(v))[i] == v[i]);
    lemma_u32_is_spelled(u32s_bytes(v), 4 * i);
}

proof fn lemma_u64_column(v: Seq<u64>, i: int)
    requires
        0 <= i < v.len(),
    ensures
        spelled_at(u64s_bytes(v), 8 * i, 8 * i + 8) == v[i],
{
    lemma_u64s(v);
    assert(u64s_of(u64s_bytes(v))[i] == v[i]);
    lemma_u64_is_spelled(u64s_bytes(v), 8 * i);
}

/// What the sections of an index hold, by their place: the numbers of an entry
/// stand at its own place in them, the lowest byte first.
#[verifier::spinoff_prover]
#[verifier::rlimit(40)]
pub proof fn lemma_sections_written(c: Columns, i: int)
    requires
        0 <= i,
    ensures
        sections_of(c).len() == 13,
        i < c.dict_pool.len() ==> sections_of(c)[0][i] == c.dict_pool[i],
        i < c.dict_off.len() ==> spelled_at(sections_of(c)[1], 4 * i, 4 * i + 4) == c.dict_off[i],
        i < c.name_id.len() ==> spelled_at(sections_of(c)[2], 4 * i, 4 * i + 4) == c.name_id[i],
        i < c.orig_pool.len() ==> sections_of(c)[3][i] == c.orig_pool[i],
        i < c.orig_off.len() ==> spelled_at(sections_of(c)[4], 4 * i, 4 * i + 4) == c.orig_off[i],
        i < c.parent.len() ==> spelled_at(sections_of(c)[5], 4 * i, 4 * i + 4) == c.parent[i],
        i < c.size_lo.len() ==> spelled_at(sections_of(c)[6], 4 * i, 4 * i + 4) == c.size_lo[i],
        i < c.ovf_ids.len() ==> spelled_at(sections_of(c)[7], 4 * i, 4 * i + 4) == c.ovf_ids[i],
        i < c.ovf_sizes.len() ==> spelled_at(sections_of(c)[8], 8 * i, 8 * i + 8) == c.ovf_sizes[i],
        i < c.mtime.len() ==> spelled_at(sections_of(c)[9], 4 * i, 4 * i + 4) == c.mtime[i],
        i < c.frn.len() ==> spelled_at(sections_of(c)[10], 8 * i, 8 * i + 8) == c.frn[i],
        i < c.flag.len() ==> sections_of(c)[11][i] == c.flag[i],
        i < c.perm_name.len() ==> spelled_at(sections_of(c)[12], 4 * i, 4 * i + 4) == c.perm_name[i],
{
    lemma_sections(c);
    if i < c.dict_off.len() {
        lemma_u32_column(c.dict_off, i);
    }
    if i < c.name_id.len() {
        lemma_u32_column(c.name_id, i);
    }
    if i < c.orig_off.len() {
        lemma_u32_column(c.orig_off, i);
    }
    if i < c.parent.len() {
        lemma_u32_column(c.parent, i);
    }
    if i < c.size_lo.len() {
        lemma_u32_column(c.size_lo, i);
    }
    if i < c.ovf_ids.len() {
        lemma_u32_column(c.ovf_ids, i);
    }
    if i < c.ovf_sizes.len() {
        lemma_u64_column(c.ovf_sizes, i);
    }
    if i < c.mtime.len() {
        lemma_u32_column(c.mtime, i);
    }
    if i < c.frn.len() {
        lemma_u64_column(c.frn, i);
    }
    if i < c.perm_name.len() {
        lemma_u32_column(c.perm_name, i);
    }
}

/// The sizes that do not fit their column are those of the entries that bear
/// the mark in it, in their order.
pub proof fn lemma_marked_sizes_are(size_lo: Seq<u32>, n: int, i: int)
    requires
        0 <= i < n <= size_lo.len(),
        n <= 0xFFFF_FFFF,
    ensures
        marked_sizes(size_lo, n).contains(i as u32) <==> size_lo[i] == 0xFFFF_FFFF,
    decreases n,
{
    let all = marked_sizes(size_lo, n);
    let rest = marked_sizes(size_lo, n - 1);
    lemma_marked_below(size_lo, n - 1);
    if i < n - 1 {
        lemma_marked_sizes_are(size_lo, n - 1, i);
        if rest.contains(i as u32) {
            let k = choose|k: int| 0 <= k < rest.len() && rest[k] == i as u32;
            assert(all[k] == i as u32);
        }
        if all.contains(i as u32) {
            let k = choose|k: int| 0 <= k < all.len() && all[k] == i as u32;
            assert(k < rest.len());
            assert(rest[k] == i as u32);
        }
    } else if size_lo[i] == 0xFFFF_FFFF {
        assert(all[rest.len() as int] == i as u32);
    }
}

proof fn lemma_marked_below(size_lo: Seq<u32>, n: int)
    requires
        0 <= n <= size_lo.len(),
        n <= 0xFFFF_FFFF,
    ensures
        forall|k: int|
            0 <= k < marked_sizes(size_lo, n).len() ==> (#[trigger] marked_sizes(size_lo, n)[k])
                < n,
    decreases n,
{
    if n > 0 {
        lemma_marked_below(size_lo, n - 1);
        let all = marked_sizes(size_lo, n);
        let rest = marked_sizes(size_lo, n - 1);
        assert forall|k: int| 0 <= k < all.len() implies (#[trigger] all[k]) < n by {
            if k < rest.len() {
                assert(all[k] == rest[k]);
            }
        }
    }
}

/// A snapshot whose digest is wrong is refused for that, whatever it holds.
pub proof fn lemma_digest_refused(s: Seq<u8>)
    requires
        s.len() >= 32,
        s.take(8) == magic(),
        section_end(s, 12) is Ok,
        section_end(s, 12)->Ok_0 + 8 <= s.len(),
        spelled_at(s, section_end(s, 12)->Ok_0, section_end(s, 12)->Ok_0 + 8) != digest_of(
            s.take(section_end(s, 12)->Ok_0),
        ),
    ensures
        unreadable(s) == Some(SnapshotError::Checksum),
{
    lemma_section_end_from(s, 12);
    lemma_u64_is_spelled(s, section_end(s, 12)->Ok_0);
}

/// Columns are refused for the first of their faults: their lengths, then the
/// names of the dictionary, those of the entries, the large sizes, the parents
/// and last the order of names.
pub proof fn lemma_columns_refused_in_order(c: Columns, n: int, i: int)
    requires
        0 <= i < n,
    ensures
        c.name_id.len() != n || c.parent.len() != n || c.mtime.len() != n || c.frn.len() != n
            || c.flag.len() != n || c.perm_name.len() != n || c.orig_off.len() != n
            || c.size_lo.len() != n ==> misfit(c, n) == Some(SnapshotError::ColumnLength),
        misfit(c, n) == Some(SnapshotError::Permutation) ==> c.parent[i] == 0xFFFF_FFFF
            || c.parent[i] < n,
        misfit(c, n) == Some(SnapshotError::ParentRange) ==> c.ovf_ids.len() == c.ovf_sizes.len()
            && exists|k: int|
            0 <= k < n && #[trigger] c.parent[k] != 0xFFFF_FFFF && c.parent[k] >= n,
        misfit(c, n) == Some(SnapshotError::OverflowLength) ==> c.ovf_ids.len()
            != c.ovf_sizes.len(),
        misfit(c, n) == Some(SnapshotError::NameId) ==> exists|k: int|
            0 <= k < n && (#[trigger] c.name_id[k]) >= c.dict_off.len(),
        misfit(c, n) is None ==> c.name_id[i] < c.dict_off.len(),
{
    if super::snapshot::first_name_fault(c, n) is None {
        lemma_no_fault_before(c, n, i);
    } else {
        let k = lemma_fault_found(c, n);
        assert(c.name_id[k] == c.name_id[k]);
    }
    if misfit(c, n) == Some(SnapshotError::Permutation) {
        assert(super::snapshot::parent_ok(c, i));
    }
    if misfit(c, n) == Some(SnapshotError::ParentRange) {
        let k = choose|k: int| 0 <= k < n && !(#[trigger] super::snapshot::parent_ok(c, k));
        assert(c.parent[k] != 0xFFFF_FFFF && c.parent[k] >= n);
    }
}

proof fn lemma_fault_found(c: Columns, n: int) -> (k: int)
    requires
        super::snapshot::first_name_fault(c, n) is Some,
    ensures
        0 <= k < n,
        super::snapshot::first_name_fault(c, n) == super::snapshot::name_fault(c, k),
    decreases n,
{
    if super::snapshot::first_name_fault(c, n - 1) is Some {
        lemma_fault_found(c, n - 1)
    } else {
        n - 1
    }
}

} // verus!
