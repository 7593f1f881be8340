//! Settings and checks around opening the SQLite store: the memory-map size, the batch
//! rule for scanned events, and recognising a column that another writer added first.

use vstd::prelude::*;
use crate::error::StoreError;
use crate::event::Event;
use crate::text::{str_eq, trim, trim_spec};

verus! {

/// Memory-map size (MiB) used when none is configured.
pub const DEFAULT_MMAP_MB: u64 = 32;

pub open spec fn is_digit(c: char) -> bool {
    '0' <= c && c <= '9'
}

/// The number written by the decimal digits `d`.
pub open spec fn digits_value(d: Seq<char>) -> nat
    decreases d.len(),
{
    if d.len() == 0 {
        0
    } else {
        digits_value(d.drop_last()) * 10 + ((d.last() as nat) - ('0' as nat)) as nat
    }
}

/// The text after an optional leading `+`.
pub open spec fn unsigned_digits(s: Seq<char>) -> Seq<char> {
    if s.len() > 0 && s[0] == '+' { s.drop_first() } else { s }
}

pub open spec fn all_digits(d: Seq<char>) -> bool {
    forall|i: int| 0 <= i < d.len() ==> is_digit(#[trigger] d[i])
}

/// What `str::parse::<u64>` accepts: an optional `+`, then at least one ASCII digit, with a
/// value that fits `u64`.
pub open spec fn parse_u64_spec(s: Seq<char>) -> Option<u64> {
    let d = unsigned_digits(s);
    if d.len() == 0 || !all_digits(d) {
        None
    } else if digits_value(d) > u64::MAX {
        None
    } else {
        Some(digits_value(d) as u64)
    }
}

/// Parses a decimal `u64` as `str::parse` does.
pub fn parse_u64(s: &str) -> (r: Option<u64>)
    ensures
        r == parse_u64_spec(s@),
{
    let n = s.unicode_len();
    let mut i: usize = 0;
    if n > 0 && s.get_char(0) == '+' {
        i = 1;
    }
    let ghost d = unsigned_digits(s@);
    let start = i;
    if start == n {
        return None;
    }
    let mut v: u64 = 0;
    let mut overflow = false;
    while i < n
        invariant
            start <= i <= n,
            n == s@.len(),
            start == s@.len() - d.len(),
            d == s@.skip(start as int),
            d == unsigned_digits(s@),
            forall|k: int| 0 <= k < i - start ==> is_digit(#[trigger] d[k]),
            !overflow ==> v == digits_value(d.take(i - start)),
            overflow ==> digits_value(d.take(i - start)) > u64::MAX,
        decreases n - i,
    {
        let c = s.get_char(i);
        if !('0' <= c && c <= '9') {
            proof {
                assert(!is_digit(d[i - start]));
                assert(!all_digits(d));
                assert(parse_u64_spec(s@) is None);
            }
            return None;
        }
        let digit = (c as u32 - '0' as u32) as u64;
        proof {
            assert(d.take(i - start + 1).drop_last() =~= d.take(i - start));
            assert(d.take(i - start + 1).last() == c);
        }
        if !overflow {
            match v.checked_mul(10) {
                Some(t) => match t.checked_add(digit) {
                    Some(w) => {
                        v = w;
                    },
                    None => {
                        overflow = true;
                    },
                },
                None => {
                    overflow = true;
                },
            }
        } else {
            assert(digits_value(d.take(i - start + 1)) >= digits_value(d.take(i - start)) * 10);
        }
        i = i + 1;
    }
    proof {
        assert(d.take(d.len() as int) =~= d);
    }
    if overflow {
        None
    } else {
        Some(v)
    }
}

/// The memory-map size in bytes for a configured size in MiB: the trimmed text parsed as a
/// `u64`, or the default when absent or not a number, times 2^20 with saturation, at most
/// `i64::MAX`.
pub open spec fn mmap_size_spec(raw: Option<Seq<char>>) -> i64 {
    let mb: nat = match raw {
        Some(s) => match parse_u64_spec(trim_spec(s)) {
            Some(v) => v as nat,
            None => DEFAULT_MMAP_MB as nat,
        },
        None => DEFAULT_MMAP_MB as nat,
    };
    let bytes: nat = if mb * 1024 > u64::MAX {
        u64::MAX as nat
    } else if mb * 1024 * 1024 > u64::MAX {
        u64::MAX as nat
    } else {
        mb * 1024 * 1024
    };
    if bytes > i64::MAX { i64::MAX } else { bytes as i64 }
}

pub fn mmap_size_bytes_from_mb(raw: Option<&str>) -> (r: i64)
    ensures
        r == mmap_size_spec(match raw { Some(s) => Some(s@), None => None }),
{
    let mb = match raw {
        Some(s) => {
            let t = trim(s);
            match parse_u64(t.as_str()) {
                Some(v) => v,
                None => DEFAULT_MMAP_MB,
            }
        },
        None => DEFAULT_MMAP_MB,
    };
    let kib = match mb.checked_mul(1024) {
        Some(v) => v,
        None => u64::MAX,
    };
    let bytes = match kib.checked_mul(1024) {
        Some(v) => v,
        None => u64::MAX,
    };
    if bytes > i64::MAX as u64 {
        i64::MAX
    } else {
        bytes as i64
    }
}

/// The session of a scanned batch: `None` when the batch is empty, refused when its events
/// belong to more than one session.
pub fn batch_session(events: &[Event]) -> (r: Result<Option<&String>, StoreError>)
    ensures
        events.len() == 0 ==> r == Ok::<Option<&String>, StoreError>(None),
        events.len() > 0 ==> match r {
            Ok(Some(s)) => s == &events@[0].session_id
                && forall|i: int| 0 <= i < events.len() ==> (#[trigger] events@[i]).session_id@ == events@[0].session_id@,
            Ok(None) => false,
            Err(e) => e == StoreError::MixedSessions
                && exists|i: int| 0 <= i < events.len() && (#[trigger] events@[i]).session_id@ != events@[0].session_id@,
        },
{
    if events.len() == 0 {
        return Ok(None);
    }
    let first = &events[0].session_id;
    let mut i: usize = 0;
    while i < events.len()
        invariant
            i <= events.len(),
            events.len() > 0,
            first == &events@[0].session_id,
            forall|k: int| 0 <= k < i ==> (#[trigger] events@[k]).session_id@ == events@[0].session_id@,
        decreases events.len() - i,
    {
        if !str_eq(events[i].session_id.as_str(), first.as_str()) {
            return Err(StoreError::MixedSessions);
        }
        i = i + 1;
    }
    Ok(Some(first))
}

/// Whether `needle` occurs in `hay` at position `at`.
pub open spec fn occurs_at(hay: Seq<char>, needle: Seq<char>, at: int) -> bool {
    0 <= at && at + needle.len() <= hay.len() && hay.subrange(at, at + needle.len()) == needle
}

/// Whether `needle` occurs in `hay`.
pub fn contains_text(hay: &str, needle: &str) -> (r: bool)
    ensures
        r == exists|at: int| occurs_at(hay@, needle@, at),
{
    let h = hay.unicode_len();
    let n = needle.unicode_len();
    if n > h {
        assert forall|at: int| !occurs_at(hay@, needle@, at) by {}
        return false;
    }
    let mut at: usize = 0;
    while at <= h - n
        invariant
            h == hay@.len(),
            n == needle@.len(),
            n <= h,
            at <= h - n + 1,
            forall|a: int| 0 <= a < at ==> !occurs_at(hay@, needle@, a),
        decreases h - n + 1 - at,
    {
        let mut k: usize = 0;
        let mut same = true;
        while k < n && same
            invariant
                h == hay@.len(),
                n == needle@.len(),
                at + n <= h,
                k <= n,
                same ==> forall|q: int| 0 <= q < k ==> hay@[at + q] == needle@[q],
                !same ==> exists|q: int| 0 <= q < n && hay@[at + q] != needle@[q],
            decreases n - k,
        {
            if hay.get_char(at + k) != needle.get_char(k) {
                same = false;
            }
            k = k + 1;
        }
        if same {
            assert(hay@.subrange(at as int, at + n) =~= needle@);
            assert(occurs_at(hay@, needle@, at as int));
            return true;
        }
        proof {
            let q = choose|q: int| 0 <= q < n && hay@[at + q] != needle@[q];
            assert(hay@.subrange(at as int, at + n)[q] != needle@[q]);
        }
        at = at + 1;
    }
    assert forall|a: int| !occurs_at(hay@, needle@, a) by {
        if 0 <= a && a < at {
        }
    }
    false
}

/// Whether a failed `ALTER TABLE .. ADD COLUMN` reported a column that already exists (so
/// another writer added it first).
pub fn is_duplicate_column_message(message: &str) -> (r: bool)
    ensures
        r == exists|at: int| occurs_at(message@, "duplicate column name"@, at),
{
    contains_text(message, "duplicate column name")
}

} // verus!
