//! What the labels of volumes stand for, and what a volume keeps.

use vstd::prelude::*;
use crate::index::columns::VolumeIndex;
use super::volume::{
    canonical_label, drives, first_refused, installed, is_letter, label_good, listed, lower,
    needs_slot, snapshot_file_name, terminated, valid_label, without_colons,
    IndexStartError, VolumeSlot,
};

verus! {

/// A label is one letter of the ASCII alphabet and a colon.
pub proof fn lemma_label_letters(s: Seq<char>)
    ensures
        valid_label(s) <==> s.len() == 2 && s[1] == ':' && (0x41 <= s[0] as u32 <= 0x5A
            || 0x61 <= s[0] as u32 <= 0x7A),
{
    if s.len() == 2 {
        lemma_letter(s[0]);
    }
}

proof fn lemma_letter(c: char)
    ensures
        is_letter(c) <==> 0x41 <= c as u32 <= 0x5A || 0x61 <= c as u32 <= 0x7A,
{
}

/// Two labels name one volume exactly where their letters differ in case at
/// most: the canonical form is upper case and its own canonical form.
pub proof fn lemma_labels_fold(s: Seq<char>, t: Seq<char>)
    requires
        valid_label(s),
        valid_label(t),
    ensures
        canonical_label(s) == canonical_label(t) <==> s[0] == t[0] || s[0] as u32 + 0x20
            == t[0] as u32 || t[0] as u32 + 0x20 == s[0] as u32,
        valid_label(canonical_label(s)),
        0x41 <= canonical_label(s)[0] as u32 <= 0x5A,
        canonical_label(canonical_label(s)) == canonical_label(s),
        canonical_label(s)[0] == s[0] || canonical_label(s)[0] as u32 + 0x20 == s[0] as u32,
{
    let a = canonical_label(s);
    let b = canonical_label(t);
    assert(a.len() == 2 && b.len() == 2 && a[1] == b[1]);
    assert(a == b <==> a[0] == b[0]) by {
        if a[0] == b[0] {
            assert(a =~= b);
        }
    }
    assert(canonical_label(a) =~= a);
}

/// A request that is accepted names every volume once, and only volumes that
/// there are.
pub proof fn lemma_accepted_labels(requested: Seq<String>, available: Seq<String>, i: int, j: int)
    requires
        forall|k: int| 0 <= k < requested.len() ==> #[trigger] label_good(requested, available, k),
        0 <= i < j < requested.len(),
    ensures
        canonical_label(requested[i]@) != canonical_label(requested[j]@),
        listed(available, canonical_label(requested[i]@)),
        valid_label(requested[i]@),
{
    assert(label_good(requested, available, i));
    assert(label_good(requested, available, j));
}

/// A request is refused for the first label at fault: for its spelling where
/// it is no label, as a repetition where an earlier one names the same volume,
/// and as unavailable where there is no such volume.
pub proof fn lemma_refused_label(
    requested: Seq<String>,
    available: Seq<String>,
    i: int,
    e: IndexStartError,
)
    requires
        first_refused(requested, available, i, e),
    ensures
        e is MalformedLabel <==> !valid_label(requested[i]@),
        e matches IndexStartError::MalformedLabel { position } ==> position == i,
        e is DuplicateLabel <==> valid_label(requested[i]@) && exists|j: int|
            0 <= j < i && canonical_label((#[trigger] requested[j])@) == canonical_label(
                requested[i]@,
            ),
        e is UnavailableVolume ==> forall|k: int|
            0 <= k < available.len() ==> (#[trigger] available[k])@ != canonical_label(
                requested[i]@,
            ),
        forall|k: int| 0 <= k < i ==> valid_label((#[trigger] requested[k])@),
{
    assert forall|k: int| 0 <= k < i implies valid_label((#[trigger] requested[k])@) by {
        assert(label_good(requested, available, k));
    }
}

/// The letter of the drive at a place.
pub open spec fn drive_letter(i: int) -> Seq<char> {
    seq![(0x41 + i) as char, ':']
}

proof fn lemma_letters_apart(i: int, j: int)
    requires
        0 <= i < 26,
        0 <= j < 26,
    ensures
        drive_letter(i) == drive_letter(j) <==> i == j,
{
    assert(drive_letter(i)[0] as u32 == 0x41 + i);
    assert(drive_letter(j)[0] as u32 == 0x41 + j);
}

/// A drive is listed exactly where its bit of the mask is set, the first
/// letter standing for the lowest bit.
pub proof fn lemma_drive_listed(mask: u32, n: int, i: int)
    requires
        0 <= n <= 26,
        0 <= i < 26,
    ensures
        drives(mask, n).contains(drive_letter(i)) <==> i < n && mask & (1u32 << (i as u32)) != 0,
    decreases n,
{
    let all = drives(mask, n);
    if n > 0 {
        lemma_drive_listed(mask, n - 1, i);
        lemma_letters_apart(i, n - 1);
        let rest = drives(mask, n - 1);
        if mask & (1u32 << ((n - 1) as u32)) != 0 {
            assert(all == rest.push(drive_letter(n - 1)));
            if rest.contains(drive_letter(i)) {
                let k = choose|k: int| 0 <= k < rest.len() && rest[k] == drive_letter(i);
                assert(all[k] == drive_letter(i));
            }
            if i == n - 1 {
                assert(all[rest.len() as int] == drive_letter(i));
            }
            if all.contains(drive_letter(i)) && i != n - 1 {
                let k = choose|k: int| 0 <= k < all.len() && all[k] == drive_letter(i);
                assert(k < rest.len());
                assert(rest[k] == drive_letter(i));
            }
        }
    }
}

/// The drives are listed in the order of their letters, each once.
pub proof fn lemma_drives_in_order(mask: u32, n: int, a: int, b: int)
    requires
        0 <= n <= 26,
        0 <= a < b < drives(mask, n).len(),
    ensures
        drives(mask, n)[a].len() == 2,
        (drives(mask, n)[a][0] as u32) < (drives(mask, n)[b][0] as u32) < 0x41 + n,
        drives(mask, n)[a][1] == ':',
    decreases n,
{
    let rest = drives(mask, n - 1);
    if mask & (1u32 << ((n - 1) as u32)) != 0 {
        assert(drives(mask, n) == rest.push(drive_letter(n - 1)));
        if b == rest.len() {
            lemma_drive_below(mask, n - 1, a);
        } else {
            lemma_drives_in_order(mask, n - 1, a, b);
        }
    } else {
        lemma_drives_in_order(mask, n - 1, a, b);
    }
}

proof fn lemma_drive_below(mask: u32, n: int, a: int)
    requires
        0 <= n <= 26,
        0 <= a < drives(mask, n).len(),
    ensures
        drives(mask, n)[a].len() == 2,
        0x41 <= drives(mask, n)[a][0] as u32,
        (drives(mask, n)[a][0] as u32) < 0x41 + n,
        drives(mask, n)[a][1] == ':',
    decreases n,
{
    let rest = drives(mask, n - 1);
    if mask & (1u32 << ((n - 1) as u32)) != 0 && a == rest.len() {
        assert(drives(mask, n)[a] == drive_letter(n - 1));
    } else {
        lemma_drive_below(mask, n - 1, a);
    }
}

/// The snapshot of a volume is kept under its letter in lower case, whichever
/// case the label is in, so that two labels share a file exactly where they
/// name one volume.
pub proof fn lemma_snapshot_name(s: Seq<char>, t: Seq<char>)
    requires
        valid_label(s),
        valid_label(t),
    ensures
        snapshot_file_name(s).len() == 8,
        0x61 <= snapshot_file_name(s)[0] as u32 <= 0x7A,
        snapshot_file_name(s)[0] == s[0] || snapshot_file_name(s)[0] as u32 == s[0] as u32 + 0x20,
        snapshot_file_name(s).skip(1) == seq!['.', 'f', 'm', 'f', 'i', 'd', 'x'],
        snapshot_file_name(s) == snapshot_file_name(t) <==> canonical_label(s) == canonical_label(
            t,
        ),
{
    reveal_strlit(".fmfidx");
    lemma_stem(s);
    lemma_stem(t);
    lemma_labels_fold(s, t);
    let a = snapshot_file_name(s);
    let b = snapshot_file_name(t);
    assert(a.skip(1) =~= seq!['.', 'f', 'm', 'f', 'i', 'd', 'x']);
    if a[0] == b[0] {
        assert(a =~= b);
    }
}

proof fn lemma_stem(s: Seq<char>)
    requires
        valid_label(s),
    ensures
        without_colons(s) == seq![s[0]],
        snapshot_file_name(s).len() == 1 + ".fmfidx"@.len(),
        snapshot_file_name(s)[0] == lower(s[0]),
        forall|k: int|
            1 <= k < snapshot_file_name(s).len() ==> #[trigger] snapshot_file_name(s)[k]
                == ".fmfidx"@[k - 1],
{
    let stem = s.drop_last();
    assert(stem =~= seq![s[0]]);
    assert(stem.last() != ':');
    reveal_with_fuel(without_colons, 3);
    assert(without_colons(stem) == stem);
}

/// What ends at the first zero holds none and is all that stands before it.
pub proof fn lemma_terminated(units: Seq<u16>, i: int)
    requires
        0 <= i < units.len(),
        units[i] == 0,
        forall|k: int| 0 <= k < i ==> (#[trigger] units[k]) != 0,
    ensures
        terminated(units) == units.take(i),
{
    assert(units.contains(0));
    units.index_of_first_ensures(0);
    let at = units.index_of_first(0).unwrap();
    if at < i {
        assert(units[at] != 0);
    }
    if i < at {
        assert(units[i] == 0);
    }
}

/// What no zero ends is taken for empty.
pub proof fn lemma_unterminated(units: Seq<u16>)
    requires
        forall|k: int| 0 <= k < units.len() ==> (#[trigger] units[k]) != 0,
    ensures
        terminated(units).len() == 0,
{
    if units.contains(0) {
        let k = choose|k: int| 0 <= k < units.len() && units[k] == 0;
        assert(units[k] != 0);
    }
}

/// A new index in the place of another is one structural step further on, so
/// that nothing read of the old one passes for current; all else of it is as
/// it was built.
pub proof fn lemma_installed_is_newer(old_index: VolumeIndex, idx: VolumeIndex)
    requires
        old_index.structural_generation < u64::MAX,
    ensures
        installed(Some(old_index), idx).structural_generation == old_index.structural_generation
            + 1,
        installed(Some(old_index), idx).rows() == idx.rows(),
        installed(Some(old_index), idx).content_generation == idx.content_generation,
        installed(Some(old_index), idx).perm_name == idx.perm_name,
        installed(None, idx) == idx,
{
    assert(installed(Some(old_index), idx).rows() =~= idx.rows());
}

impl VolumeSlot {
    /// A volume has something to save exactly where it has an index and that
    /// is not the one that was saved last.
    pub proof fn lemma_when_dirty(&self)
        ensures
            self.index is None ==> !self.dirty(),
            self.index matches Some(i) ==> {
                &&& self.last_saved is None ==> self.dirty()
                &&& self.last_saved matches Some(saved) ==> (self.dirty() <==> saved.0
                    != i.content_generation || saved.1 != i.structural_generation)
            },
    {
    }
}

/// A label gets a slot exactly where no slot bears it and it was not asked for
/// before.
pub proof fn lemma_label_needs_slot(labels: Seq<String>, present: Seq<String>, i: int)
    requires
        0 <= i < labels.len(),
    ensures
        needs_slot(labels, present, i) <==> (forall|k: int|
            0 <= k < present.len() ==> (#[trigger] present[k])@ != labels[i]@) && (forall|k: int|
            0 <= k < i ==> (#[trigger] labels[k])@ != labels[i]@),
{
    let before = labels.take(i);
    assert forall|k: int| 0 <= k < i implies (#[trigger] labels[k]) == before[k] by {}
    if listed(before, labels[i]@) {
        let k = choose|k: int| 0 <= k < before.len() && (#[trigger] before[k])@ == labels[i]@;
        assert(labels[k]@ == labels[i]@);
    }
    if exists|k: int| 0 <= k < i && (#[trigger] labels[k])@ == labels[i]@ {
        let k = choose|k: int| 0 <= k < i && (#[trigger] labels[k])@ == labels[i]@;
        assert(before[k]@ == labels[i]@);
    }
}

} // verus!
