//! Helpers round the readers: telling a gzip file from its first bytes and its name,
//! and timing a piece of work.

use vstd::prelude::*;

verus! {

/// A point in time of the standard library's monotonic clock, carried through unread.
#[verifier::external_type_specification]
#[verifier::external_body]
pub struct ExInstant(std::time::Instant);

/// The two bytes that a gzip file begins with.
pub open spec fn gzip_magic(head: Seq<u8>) -> bool {
    head.len() >= 2 && head[0] == 0x1f && head[1] == 0x8b
}

/// The name ends in `.gz`.
pub open spec fn gzip_name(path: Seq<u8>) -> bool {
    path.len() >= 3 && path[path.len() - 3] == 46 && path[path.len() - 2] == 103 && path[path.len()
        - 1] == 122
}

/// Whether a file is a gzip file, judged by its first bytes and by its name: it begins
/// with the two bytes of the gzip format and its name ends in `.gz`.
pub fn is_gzip(head: &[u8], path: &[u8]) -> (r: bool)
    ensures
        r == (gzip_magic(head@) && gzip_name(path@)),
{
    let n = path.len();
    if n < 3 || head.len() < 2 {
        return false;
    }
    head[0] == 0x1f && head[1] == 0x8b && path[n - 3] == 46 && path[n - 2] == 103 && path[n - 1]
        == 122
}

/// Calls `std::time::Instant::now`. Nothing is claimed of the result: it is the
/// reading of a clock.
#[verifier::external_body]
fn now() -> std::time::Instant {
    std::time::Instant::now()
}

/// Calls `std::time::Instant::elapsed`. Nothing is claimed of the result: it is the
/// reading of a clock.
#[verifier::external_body]
fn elapsed(start: &std::time::Instant) -> std::time::Duration {
    start.elapsed()
}

/// Runs `f` and returns what it returns, with the time it took where it succeeds.
pub fn time<T, E, F: FnOnce() -> Result<T, E>>(f: F) -> (r: Result<(std::time::Duration, T), E>)
    requires
        f.requires(()),
    ensures
        match r {
            Ok((_, value)) => f.ensures((), Ok(value)),
            Err(e) => f.ensures((), Err(e)),
        },
{
    let start = now();
    match f() {
        Ok(value) => {
            let duration = elapsed(&start);
            Ok((duration, value))
        },
        Err(e) => Err(e),
    }
}

} // verus!
