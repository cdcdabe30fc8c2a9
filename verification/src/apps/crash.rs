//! The crash simulator: the probe application, except that before each
//! step the worker may crash outright or stall past its lease, to
//! exercise the coordinator's recovery. The decision is computed here
//! from random draws; the driver outside the crate performs it
//! (aborting the process, or sleeping for the drawn time) before
//! calling `map` or `reduce`.

use crate::apps::{build_probe_pairs, probe_pairs, sort_join, sorted_join};
use crate::util::{KeyValue, KvView};
use rand::Rng;
use vstd::prelude::*;

verus! {

/// What the crash simulator does before a step: proceed normally,
/// abort the process, or stall for the given number of milliseconds.
#[derive(Clone, Copy, Debug, PartialEq, Eq, Structural)]
pub enum CrashChoice {
    Proceed,
    Crash,
    Delay(u64),
}

/// The decision from three random draws: the first below 330 of 1000
/// crashes; otherwise the second below 660 of 1000 stalls for the
/// third draw's milliseconds; otherwise the step proceeds.
pub open spec fn crash_choice_of(r1: u64, r2: u64, r3: u64) -> CrashChoice {
    if r1 < 330 {
        CrashChoice::Crash
    } else if r2 < 660 {
        CrashChoice::Delay(r3)
    } else {
        CrashChoice::Proceed
    }
}

/// Decides what the simulator does, given three random draws.
pub fn crash_decision(r1: u64, r2: u64, r3: u64) -> (c: CrashChoice)
    ensures
        c == crash_choice_of(r1, r2, r3),
{
    if r1 < 330 {
        CrashChoice::Crash
    } else if r2 < 660 {
        CrashChoice::Delay(r3)
    } else {
        CrashChoice::Proceed
    }
}

/// Relies on `rand::Rng::gen_range` over `0..bound`: the result is a
/// random number below the bound; nothing else is assumed of it.
#[verifier::external_body]
fn rand_below(bound: u64) -> (r: u64)
    requires
        bound > 0,
    ensures
        r < bound,
{
    rand::thread_rng().gen_range(0..bound)
}

/// Draws the simulator's next choice. The outcome is random; whatever
/// it is, a stall lasts less than ten seconds.
pub fn draw_crash_choice() -> (c: CrashChoice)
    ensures
        c matches CrashChoice::Delay(ms) ==> ms < 10000,
{
    let r1 = rand_below(1000);
    let r2 = rand_below(1000);
    let r3 = rand_below(10000);
    crash_decision(r1, r2, r3)
}

/// Emits the probe records for one input file.
pub fn map(filename: &str, contents: &str) -> (r: Vec<KeyValue>)
    ensures
        r.deep_view() == probe_pairs(filename@, contents@),
{
    build_probe_pairs(filename, contents)
}

/// Folds one key's values into the sorted, space-joined list.
pub fn reduce(_key: &str, values: Vec<&str>) -> (r: String)
    ensures
        r@ == sorted_join(values.deep_view()),
{
    sort_join(values)
}

} // verus!
