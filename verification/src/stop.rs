//! Flags by which one thread asks another to stop.
//!
//! What a flag holds changes under its readers, so a reading is described by
//! what the outside call may give for this flag.

use vstd::prelude::*;
use std::sync::atomic::AtomicBool;

verus! {

/// `set` is what a load of the flag may give.
pub open spec fn reads(flag: &AtomicBool, set: bool) -> bool {
    call_ensures(AtomicBool::load, (flag, std::sync::atomic::Ordering::Relaxed), set)
}

/// The flag is one that `AtomicBool::new` gives for `false`.
pub open spec fn starts_clear(flag: AtomicBool) -> bool {
    call_ensures(AtomicBool::new, (false,), flag)
}

fn made_by<F: Fn(bool) -> AtomicBool>(f: F, set: bool) -> (r: AtomicBool)
    requires
        call_requires(f, (set,)),
    ensures
        call_ensures(f, (set,), r),
{
    f(set)
}

/// A flag that is clear until it is set.
pub fn clear_flag() -> (r: AtomicBool)
    ensures
        starts_clear(r),
{
    made_by(AtomicBool::new, false)
}

fn load_by<F: Fn(&AtomicBool, std::sync::atomic::Ordering) -> bool>(f: F, flag: &AtomicBool) -> (r:
    bool)
    requires
        call_requires(f, (flag, std::sync::atomic::Ordering::Relaxed)),
    ensures
        call_ensures(f, (flag, std::sync::atomic::Ordering::Relaxed), r),
{
    f(flag, std::sync::atomic::Ordering::Relaxed)
}

/// Read the flag.
pub fn is_set(flag: &AtomicBool) -> (r: bool)
    ensures
        reads(flag, r),
{
    load_by(AtomicBool::load, flag)
}

/// A store of `true` to the flag was made.
pub open spec fn was_set(flag: &AtomicBool) -> bool {
    call_ensures(AtomicBool::store, (flag, true, std::sync::atomic::Ordering::Relaxed), ())
}

fn store_by<F: Fn(&AtomicBool, bool, std::sync::atomic::Ordering)>(f: F, flag: &AtomicBool)
    requires
        call_requires(f, (flag, true, std::sync::atomic::Ordering::Relaxed)),
    ensures
        call_ensures(f, (flag, true, std::sync::atomic::Ordering::Relaxed), ()),
{
    f(flag, true, std::sync::atomic::Ordering::Relaxed)
}

/// Set the flag.
pub fn raise(flag: &AtomicBool)
    ensures
        was_set(flag),
{
    store_by(AtomicBool::store, flag)
}

} // verus!
