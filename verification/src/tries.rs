//! How often something is tried before it is given up.

use vstd::prelude::*;

verus! {

/// How often the Bluetooth controller is looked for, and how often it is set up.
pub const CONTROLLER_TRIES: u32 = 120;
/// How often a dongle that was just plugged in is looked for on the bus.
pub const FIND_TRIES: u32 = 20;
/// How often the shell of a dongle is knocked at.
pub const SHELL_TRIES: u32 = 60;
/// How often an arriving dongle is offered the list of phones it may page.
pub const TARGET_TRIES: u32 = 10;

/// Takes one of the tries that are left, if there is one.
pub fn next_try(left: &mut u32) -> (r: bool)
    ensures
        r == (*old(left) > 0),
        *final(left) == (if *old(left) > 0 { (*old(left) - 1) as u32 } else { 0u32 }),
{
    if *left > 0 {
        *left = *left - 1;
        true
    } else {
        false
    }
}

/// How many tries are made with so many left, when the `k`th and later ones succeed or not as
/// `works` says: one after another until one works or none is left.
pub open spec fn tries_made(left: u32, works: spec_fn(nat) -> bool, k: nat) -> nat
    decreases left,
{
    if left == 0 {
        0
    } else if works(k) {
        1
    } else {
        1 + tries_made((left - 1) as u32, works, k + 1)
    }
}

/// What never works is tried exactly as often as there are tries, and what works at last is not
/// tried again.
pub proof fn tries_end(left: u32, works: spec_fn(nat) -> bool, k: nat, at: nat)
    requires
        forall|i: nat| k <= i < at ==> !#[trigger] works(i),
        k <= at,
        at < k + left ==> works(at),
    ensures
        tries_made(left, works, k) == (if at < k + left { (at - k + 1) as nat } else { left as nat }),
    decreases left,
{
    if left > 0 && at > k {
        tries_end((left - 1) as u32, works, k + 1, at);
    }
}

} // verus!
