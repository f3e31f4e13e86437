//! Deterministic naming of flush artifacts.
//!
//! A trigger reason and a caller-supplied capture instant map to the name
//! `flush_<reason with spaces underscored>_<YYYY-MM-DD_HH-MM-SS>.ttfr`.
//! The instant is injected, never read from a hidden clock, so the mapping
//! is pure and deterministic.

use vstd::prelude::*;
use vstd::string::StringExecFns;

verus! {

/// A civil UTC date-time, supplied by the caller as plain components.
#[derive(Clone, Copy, Debug, PartialEq, Eq, Structural)]
pub struct UtcStamp {
    pub year: u64,
    pub month: u64,
    pub day: u64,
    pub hour: u64,
    pub minute: u64,
    pub second: u64,
}

impl UtcStamp {
    /// The components form a civil date-time that the four- and two-digit
    /// fields of the artifact name can carry.
    pub open spec fn wf(self) -> bool {
        &&& self.year <= 9999
        &&& 1 <= self.month <= 12
        &&& 1 <= self.day <= 31
        &&& self.hour <= 23
        &&& self.minute <= 59
        &&& self.second <= 59
    }
}

/// The decimal digit character for `d`.
pub open spec fn digit_char(d: int) -> char {
    if d == 0 {
        '0'
    } else if d == 1 {
        '1'
    } else if d == 2 {
        '2'
    } else if d == 3 {
        '3'
    } else if d == 4 {
        '4'
    } else if d == 5 {
        '5'
    } else if d == 6 {
        '6'
    } else if d == 7 {
        '7'
    } else if d == 8 {
        '8'
    } else {
        '9'
    }
}

/// `n` rendered as exactly two decimal digits, zero padded.
pub open spec fn two_digits(n: int) -> Seq<char> {
    seq![digit_char(n / 10), digit_char(n % 10)]
}

/// `n` rendered as exactly four decimal digits, zero padded.
pub open spec fn four_digits(n: int) -> Seq<char> {
    seq![
        digit_char(n / 1000),
        digit_char((n / 100) % 10),
        digit_char((n / 10) % 10),
        digit_char(n % 10),
    ]
}

/// `s` with every space replaced by an underscore.
pub open spec fn underscored(s: Seq<char>) -> Seq<char> {
    Seq::new(
        s.len(),
        |i: int|
            if s[i] == ' ' {
                '_'
            } else {
                s[i]
            },
    )
}

/// The instant formatted as `YYYY-MM-DD_HH-MM-SS`.
pub open spec fn stamp_chars(t: UtcStamp) -> Seq<char> {
    four_digits(t.year as int) + seq!['-'] + two_digits(t.month as int) + seq!['-'] + two_digits(
        t.day as int,
    ) + seq!['_'] + two_digits(t.hour as int) + seq!['-'] + two_digits(t.minute as int) + seq!['-']
        + two_digits(t.second as int)
}

/// The full artifact name for a trigger reason and capture instant.
pub open spec fn flush_name(reason: Seq<char>, t: UtcStamp) -> Seq<char> {
    seq!['f', 'l', 'u', 's', 'h', '_'] + underscored(reason) + seq!['_'] + stamp_chars(t) + seq![
        '.',
        't',
        't',
        'f',
        'r',
    ]
}

/// Relies on `str::replace` with the single-character pattern `" "`: every
/// space becomes an underscore and every other character is kept in place.
#[verifier::external_body]
fn replace_spaces(s: &str) -> (r: String)
    ensures
        r@ == underscored(s@),
{
    s.replace(" ", "_")
}

/// Appends the single decimal digit `d` to `out`.
fn push_digit(out: &mut String, d: u64)
    requires
        d <= 9,
    ensures
        final(out)@ == old(out)@ + seq![digit_char(d as int)],
{
    proof {
        reveal_strlit("0");
        reveal_strlit("1");
        reveal_strlit("2");
        reveal_strlit("3");
        reveal_strlit("4");
        reveal_strlit("5");
        reveal_strlit("6");
        reveal_strlit("7");
        reveal_strlit("8");
        reveal_strlit("9");
    }
    if d == 0 {
        out.append("0");
    } else if d == 1 {
        out.append("1");
    } else if d == 2 {
        out.append("2");
    } else if d == 3 {
        out.append("3");
    } else if d == 4 {
        out.append("4");
    } else if d == 5 {
        out.append("5");
    } else if d == 6 {
        out.append("6");
    } else if d == 7 {
        out.append("7");
    } else if d == 8 {
        out.append("8");
    } else {
        out.append("9");
    }
    proof {
        assert(out@ =~= old(out)@ + seq![digit_char(d as int)]);
    }
}

/// Appends `n` as two zero-padded decimal digits.
fn push_two(out: &mut String, n: u64)
    requires
        n <= 99,
    ensures
        final(out)@ == old(out)@ + two_digits(n as int),
{
    push_digit(out, n / 10);
    push_digit(out, n % 10);
    proof {
        assert(out@ =~= old(out)@ + two_digits(n as int));
    }
}

/// Appends `n` as four zero-padded decimal digits.
fn push_four(out: &mut String, n: u64)
    requires
        n <= 9999,
    ensures
        final(out)@ == old(out)@ + four_digits(n as int),
{
    push_digit(out, n / 1000);
    push_digit(out, (n / 100) % 10);
    push_digit(out, (n / 10) % 10);
    push_digit(out, n % 10);
    proof {
        assert(out@ =~= old(out)@ + four_digits(n as int));
    }
}

/// Produces the deterministic artifact name for a flush triggered for
/// `reason` at the instant `now`:
/// `flush_<reason with spaces underscored>_<YYYY-MM-DD_HH-MM-SS>.ttfr`.
pub fn trigger_flush(reason: &str, now: &UtcStamp) -> (r: String)
    requires
        now.wf(),
    ensures
        r@ == flush_name(reason@, *now),
{
    proof {
        reveal_strlit("flush_");
        reveal_strlit("_");
        reveal_strlit("-");
        reveal_strlit(".ttfr");
    }
    let mut out = String::new();
    out.append("flush_");
    let rs = replace_spaces(reason);
    out.append(rs.as_str());
    out.append("_");
    push_four(&mut out, now.year);
    out.append("-");
    push_two(&mut out, now.month);
    out.append("-");
    push_two(&mut out, now.day);
    out.append("_");
    push_two(&mut out, now.hour);
    out.append("-");
    push_two(&mut out, now.minute);
    out.append("-");
    push_two(&mut out, now.second);
    out.append(".ttfr");
    proof {
        assert(out@ =~= flush_name(reason@, *now));
    }
    out
}

} // verus!
