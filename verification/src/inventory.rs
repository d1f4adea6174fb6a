//! Keys and timestamps of local files.

use vstd::prelude::*;
use vstd::string::StringExecFns;

verus! {

/// The remote key of a file: its path below the root, behind a slash.
pub open spec fn key_of(relative: Seq<char>) -> Seq<char> {
    seq!['/'] + relative
}

/// The milliseconds in a time span of `secs` seconds and `subsec_nanos`
/// nanoseconds, fractions of a millisecond dropped.
pub open spec fn millis_of(secs: nat, subsec_nanos: nat) -> nat {
    secs * 1000 + subsec_nanos / 1_000_000
}

/// The remote key of the file at `relative` below the root.
pub fn remote_key(relative: &str) -> (key: String)
    ensures
        key@ == key_of(relative@),
{
    proof {
        reveal_strlit("/");
    }
    let key = String::from_str("/").concat(relative);
    assert(key@ =~= key_of(relative@)) by {
        assert("/"@ =~= seq!['/']);
    }
    key
}

/// The modification time in milliseconds since the epoch, from the seconds
/// and nanoseconds since then; `None` where it does not fit 64 bits.
pub fn modified_millis(secs: u64, subsec_nanos: u32) -> (millis: Option<u64>)
    ensures
        millis == if millis_of(secs as nat, subsec_nanos as nat) <= u64::MAX {
            Some(millis_of(secs as nat, subsec_nanos as nat) as u64)
        } else {
            None::<u64>
        },
{
    let whole: u128 = secs as u128 * 1000 + (subsec_nanos / 1_000_000) as u128;
    if whole <= u64::MAX as u128 {
        Some(whole as u64)
    } else {
        None
    }
}

} // verus!
