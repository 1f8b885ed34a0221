//! Decisions of the log-acquisition loop.
//!
//! Fetching logs from a CI provider is blocking network work that lives
//! outside this library; the decisions the loop takes are values and live
//! here. The caller performs one fetch attempt, hands back what happened,
//! and follows the returned action: an absent log is a non-error outcome
//! and skips the job, while a transient failure is retried a bounded
//! number of times before the job is skipped.

use vstd::prelude::*;

verus! {

/// What one fetch attempt came back with.
#[derive(Clone, Copy, Debug, PartialEq, Eq, Structural)]
pub enum FetchEvent {
    /// The provider returned the log's bytes.
    Success,
    /// The provider reported that this job produced no log.
    Missing,
    /// The attempt failed in a way worth retrying.
    TransientError,
}

/// What the acquisition loop does next.
#[derive(Clone, Copy, Debug, PartialEq, Eq, Structural)]
pub enum FetchAction {
    /// Keep the fetched bytes and process the job.
    UseLog,
    /// Skip this job; the run as a whole goes on.
    SkipJob,
    /// Try the same job once more.
    Retry,
}

/// The next action after attempt number `attempt` (counted from one)
/// ended in `event`, with at most `max_attempts` attempts per job.
pub open spec fn spec_next_fetch_action(attempt: u32, max_attempts: u32, event: FetchEvent) -> FetchAction {
    match event {
        FetchEvent::Success => FetchAction::UseLog,
        FetchEvent::Missing => FetchAction::SkipJob,
        FetchEvent::TransientError => if attempt >= max_attempts {
            FetchAction::SkipJob
        } else {
            FetchAction::Retry
        },
    }
}

/// Decide how the acquisition loop goes on: success uses the log, an
/// absent log skips the job at once, and a transient failure retries
/// until `max_attempts` is reached, then skips.
pub fn next_fetch_action(attempt: u32, max_attempts: u32, event: &FetchEvent) -> (a: FetchAction)
    ensures
        a == spec_next_fetch_action(attempt, max_attempts, *event),
{
    match event {
        FetchEvent::Success => FetchAction::UseLog,
        FetchEvent::Missing => FetchAction::SkipJob,
        FetchEvent::TransientError => {
            if attempt >= max_attempts {
                FetchAction::SkipJob
            } else {
                FetchAction::Retry
            }
        },
    }
}

/// Whether a build or job outcome passes the caller's pass/fail filter.
pub fn outcome_selected(only_passed: bool, only_failed: bool, passed: bool, failed: bool) -> (r:
    bool)
    ensures
        r == ((!only_passed || passed) && (!only_failed || failed)),
{
    (!only_passed || passed) && (!only_failed || failed)
}

/// Byte equality of two slices.
#[verifier::loop_isolation(false)]
pub fn bytes_eq(a: &[u8], b: &[u8]) -> (r: bool)
    ensures
        r == (a@ == b@),
{
    if a.len() != b.len() {
        proof {
            assert(a@.len() != b@.len());
        }
        return false;
    }
    let mut i: usize = 0;
    while i < a.len()
        invariant
            0 <= i <= a@.len(),
            a@.len() == b@.len(),
            forall|k: int| 0 <= k < i ==> a@[k] == b@[k],
        decreases a@.len() - i,
    {
        if a[i] != b[i] {
            return false;
        }
        i = i + 1;
    }
    proof {
        assert(a@ =~= b@);
    }
    true
}

/// A byte that may stand in a stored log's file name unchanged: ASCII
/// letters, digits, dot, underscore and dash.
pub open spec fn safe_name_byte(b: u8) -> bool {
    (0x61 <= b <= 0x7a) || (0x41 <= b <= 0x5a) || (0x30 <= b <= 0x39) || b == 0x2e || b == 0x5f
        || b == 0x2d
}

/// The lowercase hex digit of a value below sixteen.
pub open spec fn hex_digit(n: u8) -> u8
    recommends
        n < 16,
{
    if n < 10 {
        (0x30 + n) as u8
    } else {
        (0x57 + n) as u8
    }
}

/// A provider's log name turned into a file name: safe bytes pass
/// through, every other byte becomes a percent escape with two lowercase
/// hex digits.
pub open spec fn spec_encode_name(s: Seq<u8>) -> Seq<u8>
    decreases s.len(),
{
    if s.len() == 0 {
        Seq::empty()
    } else if safe_name_byte(s.first()) {
        seq![s.first()] + spec_encode_name(s.drop_first())
    } else {
        seq![0x25u8, hex_digit(s.first() / 16), hex_digit(s.first() % 16)] + spec_encode_name(
            s.drop_first(),
        )
    }
}

/// Encode an arbitrary log name into a name safe for the spool
/// directory, as [`spec_encode_name`] describes.
#[verifier::loop_isolation(false)]
pub fn encode_file_name(name: &[u8]) -> (r: Vec<u8>)
    ensures
        r@ == spec_encode_name(name@),
{
    let mut out: Vec<u8> = Vec::new();
    let mut i: usize = 0;
    proof {
        assert(name@.skip(0) =~= name@);
        assert(out@ + spec_encode_name(name@) =~= spec_encode_name(name@));
    }
    while i < name.len()
        invariant
            0 <= i <= name@.len(),
            spec_encode_name(name@) == out@ + spec_encode_name(name@.skip(i as int)),
        decreases name@.len() - i,
    {
        let ghost tail = name@.skip(i as int);
        proof {
            assert(tail.first() == name@[i as int]);
            assert(tail.drop_first() =~= name@.skip(i as int + 1));
        }
        let b = name[i];
        let safe = (0x61 <= b && b <= 0x7a) || (0x41 <= b && b <= 0x5a) || (0x30 <= b && b
            <= 0x39) || b == 0x2e || b == 0x5f || b == 0x2d;
        if safe {
            proof {
                assert(out@.push(b) + spec_encode_name(tail.drop_first()) =~= out@ + (seq![b]
                    + spec_encode_name(tail.drop_first())));
            }
            out.push(b);
        } else {
            let hi = b / 16;
            let lo = b % 16;
            let d1 = if hi < 10 {
                0x30 + hi
            } else {
                0x57 + hi
            };
            let d2 = if lo < 10 {
                0x30 + lo
            } else {
                0x57 + lo
            };
            let ghost mid = out@;
            out.push(0x25);
            out.push(d1);
            out.push(d2);
            proof {
                assert(out@ =~= mid + seq![0x25u8, hex_digit(b / 16), hex_digit(b % 16)]);
                assert(mid + seq![0x25u8, hex_digit(b / 16), hex_digit(b % 16)]
                    + spec_encode_name(tail.drop_first()) =~= mid + (seq![
                    0x25u8,
                    hex_digit(b / 16),
                    hex_digit(b % 16),
                ] + spec_encode_name(tail.drop_first())));
            }
        }
        i = i + 1;
    }
    proof {
        assert(name@.skip(i as int).len() == 0);
        assert(spec_encode_name(name@.skip(i as int)) == Seq::<u8>::empty());
        assert(out@ + Seq::<u8>::empty() =~= out@);
    }
    out
}

/// Whether a directory entry's file name marks it as hidden: stored logs
/// live in flat directories, and dot-files there are not logs. The
/// caller passes `None` for a name that is not valid text; such a name
/// is never treated as hidden and so is still walked.
pub fn is_hidden_name(name: Option<&[u8]>) -> (r: bool)
    ensures
        r == (name matches Some(s) && s@.len() > 0 && s@[0] == 0x2e),
{
    match name {
        Some(s) => s.len() > 0 && s[0] == 0x2e,
        None => false,
    }
}

/// Whether a build's branch passes the caller's branch filter: an empty
/// filter selects every branch, otherwise the branch name must be listed.
#[verifier::loop_isolation(false)]
pub fn branch_selected(filters: &Vec<Vec<u8>>, branch: &[u8]) -> (r: bool)
    ensures
        r == (filters@.len() == 0 || exists|k: int|
            0 <= k < filters@.len() && (#[trigger] filters@[k])@ == branch@),
{
    if filters.len() == 0 {
        return true;
    }
    let mut i: usize = 0;
    while i < filters.len()
        invariant
            0 <= i <= filters@.len(),
            forall|k: int| 0 <= k < i ==> (#[trigger] filters@[k])@ != branch@,
        decreases filters@.len() - i,
    {
        if bytes_eq(filters[i].as_slice(), branch) {
            return true;
        }
        i = i + 1;
    }
    false
}

} // verus!
