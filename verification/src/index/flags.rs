//! Per-entry flag bits packed into the `flag` column.

use vstd::prelude::*;

verus! {

/// This entry is a directory.
pub const IS_DIR: u8 = 1;

/// This entry is deleted but not yet compacted away.
pub const TOMBSTONE: u8 = 2;

/// This entry is a reparse point (symlink, junction, mount point).
pub const REPARSE: u8 = 4;

/// Raw `FILE_ATTRIBUTE_HIDDEN`.
pub const HIDDEN: u8 = 8;

/// Raw `FILE_ATTRIBUTE_SYSTEM`.
pub const SYSTEM: u8 = 16;

/// Derived: this entry or any ancestor carries `HIDDEN` or `SYSTEM`. Queries
/// skip these by default.
pub const EXCLUDED: u8 = 32;

/// One of the flag bits.
pub open spec fn is_bit(b: u8) -> bool {
    b == IS_DIR || b == TOMBSTONE || b == REPARSE || b == HIDDEN || b == SYSTEM || b == EXCLUDED
}

/// Flag bit `b` is set in `f`.
pub open spec fn bit_set(f: u8, b: u8) -> bool {
    f & b != 0
}

/// The entry carries `HIDDEN` or `SYSTEM` itself.
pub open spec fn hidden_or_system(f: u8) -> bool {
    bit_set(f, HIDDEN) || bit_set(f, SYSTEM)
}

/// `g` is `f` with bit `b` set or cleared, as told.
pub open spec fn with_bit(f: u8, b: u8, on: bool) -> u8 {
    if on {
        f | b
    } else {
        f & !b
    }
}

/// Setting or clearing a bit changes that bit and no other.
pub broadcast proof fn lemma_with_bit(f: u8, b: u8, on: bool, o: u8)
    requires
        is_bit(b),
        is_bit(o),
    ensures
        #[trigger] bit_set(with_bit(f, b, on), o) == (if o == b {
            on
        } else {
            bit_set(f, o)
        }),
{
    assert((b == 1 || b == 2 || b == 4 || b == 8 || b == 16 || b == 32) && (o == 1 || o == 2 || o
        == 4 || o == 8 || o == 16 || o == 32) ==> ((f | b) & o != 0 <==> (o == b || f & o != 0)) && ((f
        & !b) & o != 0 <==> (o != b && f & o != 0))) by (bit_vector);
}

/// Setting a bit that is set, or clearing one that is not, changes nothing.
pub proof fn lemma_with_bit_same(f: u8, b: u8, on: bool)
    requires
        is_bit(b),
        bit_set(f, b) == on,
    ensures
        with_bit(f, b, on) == f,
{
    assert((b == 1 || b == 2 || b == 4 || b == 8 || b == 16 || b == 32) ==> (f & b != 0 ==> f | b
        == f) && (f & b == 0 ==> f & !b == f)) by (bit_vector);
}

/// Set or clear a bit.
pub fn put_bit(f: u8, b: u8, on: bool) -> (r: u8)
    ensures
        r == with_bit(f, b, on),
{
    if on {
        f | b
    } else {
        f & !b
    }
}

/// The flags of a new entry, before exclusion is derived.
pub open spec fn raw_flags(is_dir: bool, is_reparse: bool, is_hidden: bool, is_system: bool) -> u8 {
    with_bit(
        with_bit(with_bit(with_bit(0, IS_DIR, is_dir), REPARSE, is_reparse), HIDDEN, is_hidden),
        SYSTEM,
        is_system,
    )
}

/// The flags of a new entry say what was given, and nothing else.
pub proof fn lemma_raw_flags(is_dir: bool, is_reparse: bool, is_hidden: bool, is_system: bool)
    ensures
        ({
            let f = raw_flags(is_dir, is_reparse, is_hidden, is_system);
            &&& bit_set(f, IS_DIR) == is_dir
            &&& bit_set(f, REPARSE) == is_reparse
            &&& bit_set(f, HIDDEN) == is_hidden
            &&& bit_set(f, SYSTEM) == is_system
            &&& !bit_set(f, TOMBSTONE)
            &&& !bit_set(f, EXCLUDED)
        }),
{
    broadcast use lemma_with_bit;

    assert(forall|o: u8| !(#[trigger] bit_set(0u8, o))) by {
        assert forall|o: u8| !(#[trigger] bit_set(0u8, o)) by {
            assert(0u8 & o == 0) by (bit_vector);
        }
    }
}

} // verus!
