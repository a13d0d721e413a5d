//! Duration literals such as `1y22d4m`: groups of decimal digits, each
//! followed by one unit letter. The units are seconds `s`, minutes `m`,
//! hours `h`, days `d`, weeks `w` and years of 365 days `y`. The empty
//! literal is a duration of 0 seconds.

use vstd::prelude::*;
use vstd::std_specs::iter::IteratorSpec;

verus! {

/// Nanoseconds in one second.
pub const NANOS_PER_SECOND: i128 = 1_000_000_000;

/// Why a duration literal was refused.
#[derive(Debug, Clone, Copy, PartialEq, Eq, Structural)]
pub enum DurationError {
    /// A character is neither a digit nor a unit letter.
    BadCharacter,
    /// A unit letter has no digit before it.
    MissingNumber,
    /// The last digits have no unit letter behind them.
    MissingUnit,
    /// The duration does not fit in 64 bits of seconds, or leads out of
    /// the range of instants.
    TooLarge,
}

/// Seconds in one unit of the given letter, if the letter names a unit.
pub open spec fn unit_seconds(c: char) -> Option<nat> {
    if c == 's' {
        Some(1nat)
    } else if c == 'm' {
        Some(60nat)
    } else if c == 'h' {
        Some(3600nat)
    } else if c == 'd' {
        Some(86400nat)
    } else if c == 'w' {
        Some(604800nat)
    } else if c == 'y' {
        Some(31536000nat)
    } else {
        None
    }
}

/// Whether `c` is one of the digits `0` to `9`.
pub open spec fn is_digit(c: char) -> bool {
    48 <= c as u32 <= 57
}

/// The value of the digit `c`.
pub open spec fn digit_value(c: char) -> nat {
    (c as u32 - 48) as nat
}

/// The number that the digits at the end of `s` form; 0 if `s` does not
/// end in a digit.
pub open spec fn pending(s: Seq<char>) -> nat
    decreases s.len(),
{
    if s.len() == 0 || !is_digit(s.last()) {
        0
    } else {
        pending(s.drop_last()) * 10 + digit_value(s.last())
    }
}

/// The seconds of all groups of `s`: for each unit letter, the number
/// before it times the seconds of the unit.
pub open spec fn seconds(s: Seq<char>) -> nat
    decreases s.len(),
{
    if s.len() == 0 {
        0
    } else {
        match unit_seconds(s.last()) {
            Some(u) => seconds(s.drop_last()) + pending(s.drop_last()) * u,
            None => seconds(s.drop_last()),
        }
    }
}

/// What is wrong with the last character of `s`, if anything.
pub open spec fn last_char_error(s: Seq<char>) -> Option<DurationError> {
    if s.len() == 0 || is_digit(s.last()) {
        None
    } else if unit_seconds(s.last()) is None {
        Some(DurationError::BadCharacter)
    } else if s.len() < 2 || !is_digit(s[s.len() - 2]) {
        Some(DurationError::MissingNumber)
    } else {
        None
    }
}

/// What is wrong with the first character of `s` that is neither a digit
/// nor a unit letter with a digit before it.
pub open spec fn char_error(s: Seq<char>) -> Option<DurationError>
    decreases s.len(),
{
    if s.len() == 0 {
        None
    } else {
        match char_error(s.drop_last()) {
            Some(e) => Some(e),
            None => last_char_error(s),
        }
    }
}

/// What is wrong with the form of the literal `s`, if anything: its first
/// wrong character, or else that it ends in digits.
pub open spec fn syntax_error(s: Seq<char>) -> Option<DurationError> {
    match char_error(s) {
        Some(e) => Some(e),
        None => if s.len() > 0 && is_digit(s.last()) {
            Some(DurationError::MissingUnit)
        } else {
            None
        },
    }
}

/// What reading the literal `s` gives: its seconds, or why it is refused.
pub open spec fn duration_of(s: Seq<char>) -> Result<u64, DurationError> {
    match syntax_error(s) {
        Some(e) => Err(e),
        None => if seconds(s) > u64::MAX {
            Err(DurationError::TooLarge)
        } else {
            Ok(seconds(s) as u64)
        },
    }
}

/// A literal that is not refused for its form is made of digits and of
/// unit letters that each have a digit before them, and ends in a unit
/// letter.
pub proof fn law_literal_shape(s: Seq<char>, i: int)
    requires
        syntax_error(s) is None,
        0 <= i < s.len(),
    ensures
        is_digit(s[i]) || unit_seconds(s[i]) is Some,
        unit_seconds(s[i]) is Some ==> i > 0 && is_digit(s[i - 1]),
        unit_seconds(s.last()) is Some,
{
    lemma_chars_fine(s, i);
    lemma_chars_fine(s, s.len() - 1);
}

/// No digit is a unit letter.
pub proof fn lemma_digit_is_no_unit(c: char)
    ensures
        is_digit(c) ==> unit_seconds(c) is None,
{
}

/// Where no character is wrong, each is a digit or a unit letter with a
/// digit before it.
pub proof fn lemma_chars_fine(s: Seq<char>, i: int)
    requires
        char_error(s) is None,
        0 <= i < s.len(),
    ensures
        is_digit(s[i]) || unit_seconds(s[i]) is Some,
        unit_seconds(s[i]) is Some ==> i > 0 && is_digit(s[i - 1]),
    decreases s.len(),
{
    lemma_digit_is_no_unit(s[i]);
    if i < s.len() - 1 {
        let t = s.drop_last();
        lemma_chars_fine(t, i);
        assert(t[i] == s[i]);
        if i > 0 {
            assert(t[i - 1] == s[i - 1]);
        }
    }
}

/// Whether every character of `s` is a digit.
pub open spec fn all_digits(s: Seq<char>) -> bool {
    forall|i: int| 0 <= i < s.len() ==> is_digit(#[trigger] s[i])
}

/// Digits alone make no group: they count no seconds.
pub proof fn lemma_digits_count_nothing(d: Seq<char>)
    requires
        all_digits(d),
    ensures
        seconds(d) == 0,
    decreases d.len(),
{
    if d.len() > 0 {
        lemma_digit_is_no_unit(d.last());
        assert forall|i: int| 0 <= i < d.drop_last().len() implies is_digit(#[trigger] d.drop_last()[i]) by {
            assert(d.drop_last()[i] == d[i]);
        }
        lemma_digits_count_nothing(d.drop_last());
    }
}

/// One group counts its number times the seconds of its unit.
pub proof fn law_one_group(d: Seq<char>, unit: char)
    requires
        all_digits(d),
        unit_seconds(unit) is Some,
    ensures
        seconds(d.push(unit)) == pending(d) * unit_seconds(unit)->0,
{
    lemma_digits_count_nothing(d);
    assert(d.push(unit).drop_last() =~= d);
}

/// The seconds of a literal are those of its groups together: behind a
/// part that ends in a unit letter, what follows counts as it does alone.
pub proof fn law_groups_add_up(a: Seq<char>, b: Seq<char>)
    requires
        a.len() == 0 || unit_seconds(a.last()) is Some,
    ensures
        seconds(a + b) == seconds(a) + seconds(b),
        b.len() > 0 ==> pending(a + b) == pending(b),
    decreases b.len(),
{
    if b.len() == 0 {
        assert(a + b =~= a);
    } else {
        let rest = b.drop_last();
        assert((a + b).drop_last() =~= a + rest);
        assert((a + b).last() == b.last());
        law_groups_add_up(a, rest);
        if rest.len() == 0 {
            assert(a + rest =~= a);
            if a.len() > 0 {
                lemma_digit_is_no_unit(a.last());
            }
        }
    }
}

/// The number of seconds that one unit letter stands for.
pub fn unit_of(c: char) -> (r: Option<u64>)
    ensures
        match r {
            Some(u) => unit_seconds(c) == Some(u as nat),
            None => unit_seconds(c) is None,
        },
{
    if c == 's' {
        Some(1)
    } else if c == 'm' {
        Some(60)
    } else if c == 'h' {
        Some(3600)
    } else if c == 'd' {
        Some(86400)
    } else if c == 'w' {
        Some(604800)
    } else if c == 'y' {
        Some(31536000)
    } else {
        None
    }
}

/// The value of `c` if it is a digit.
pub fn digit_of(c: char) -> (r: Option<u64>)
    ensures
        match r {
            Some(d) => is_digit(c) && d == digit_value(c),
            None => !is_digit(c),
        },
{
    let code = c as u32;
    if code >= 48 && code <= 57 {
        Some((code - 48) as u64)
    } else {
        None
    }
}

/// Reads a duration literal and gives its length in seconds.
///
/// The literal is refused for its first character that is neither a digit
/// nor a unit letter with a digit before it; else if it ends in digits;
/// else if its seconds do not fit in 64 bits.
#[verifier::rlimit(40)]
pub fn dur_from_str(s: &str) -> (r: Result<u64, DurationError>)
    ensures
        r == duration_of(s@),
{
    let mut pend: u64 = 0;
    let mut tot: u64 = 0;
    let mut over: bool = false;
    let mut after_digit: bool = false;
    let it = s.chars();
    let ghost all = it.remaining();
    proof {
        vstd::string::axiom_spec_iter(s);
        assert(all == s@);
        assert(all.take(0) =~= Seq::<char>::empty());
    }
    for c in iter: it
        invariant
            iter.seq() == all,
            all == s@,
            char_error(all.take(iter.index() as int)) is None,
            after_digit == (iter.index() > 0 && is_digit(all[iter.index() - 1])),
            !over ==> pend == pending(all.take(iter.index() as int)) && tot
                == seconds(all.take(iter.index() as int)),
            over ==> pending(all.take(iter.index() as int)) > u64::MAX
                || seconds(all.take(iter.index() as int))
                > u64::MAX,
    {
        let ghost i = iter.index() as int;
        let ghost before = all.take(i);
        let ghost now = all.take(i + 1);
        proof {
            assert(now.drop_last() =~= before);
            assert(now.last() == c);
            if i > 0 {
                assert(now[now.len() - 2] == all[i - 1]);
            }
            lemma_digit_is_no_unit(c);
        }
        match digit_of(c) {
            Some(d) => {
                if !over {
                    match pend.checked_mul(10) {
                        Some(p10) => match p10.checked_add(d) {
                            Some(v) => {
                                pend = v;
                            },
                            None => {
                                over = true;
                            },
                        },
                        None => {
                            over = true;
                        },
                    }
                }
                after_digit = true;
            },
            None => {
                let unit = match unit_of(c) {
                    Some(u) => u,
                    None => {
                        proof {
                            lemma_char_error_grows(all, i + 1);
                        }
                        return Err(DurationError::BadCharacter);
                    },
                };
                if !after_digit {
                    proof {
                        lemma_char_error_grows(all, i + 1);
                    }
                    return Err(DurationError::MissingNumber);
                }
                if !over {
                    proof {
                        assert(pend * unit >= 0) by (nonlinear_arith)
                            requires
                                pend >= 0,
                                unit >= 0,
                        ;
                    }
                    match pend.checked_mul(unit) {
                        Some(part) => match tot.checked_add(part) {
                            Some(v) => {
                                tot = v;
                            },
                            None => {
                                over = true;
                            },
                        },
                        None => {
                            over = true;
                        },
                    }
                } else {
                    proof {
                        let p = pending(before);
                        assert(p * unit >= p) by (nonlinear_arith)
                            requires
                                p >= 0,
                                unit >= 1,
                        ;
                    }
                }
                pend = 0;
                after_digit = false;
            },
        }
    }
    proof {
        assert(all.take(all.len() as int) =~= all);
    }
    if after_digit {
        return Err(DurationError::MissingUnit);
    }
    if over {
        return Err(DurationError::TooLarge);
    }
    Ok(tot)
}

/// A wrong character in the first `n` characters of `s` is the first
/// wrong character of `s`.
pub proof fn lemma_char_error_grows(s: Seq<char>, n: int)
    requires
        0 <= n <= s.len(),
        char_error(s.take(n)) is Some,
    ensures
        char_error(s) == char_error(s.take(n)),
    decreases s.len() - n,
{
    if n < s.len() {
        assert(s.take(n + 1).drop_last() =~= s.take(n));
        lemma_char_error_grows(s, n + 1);
    } else {
        assert(s.take(n) =~= s);
    }
}

/// The instant that lies the duration `s` before the instant `now`, both
/// in nanoseconds from the Unix epoch.
pub open spec fn instant_before(s: Seq<char>, now: i128) -> Result<i128, DurationError> {
    match duration_of(s) {
        Err(e) => Err(e),
        Ok(secs) => if now - secs * NANOS_PER_SECOND < i128::MIN {
            Err(DurationError::TooLarge)
        } else {
            Ok((now - secs * NANOS_PER_SECOND) as i128)
        },
    }
}

/// The instant that lies the duration given by the literal `s` before
/// `now`.
pub fn timespec_before(s: &str, now: i128) -> (r: Result<i128, DurationError>)
    ensures
        r == instant_before(s@, now),
{
    let secs = match dur_from_str(s) {
        Ok(v) => v,
        Err(e) => {
            return Err(e);
        },
    };
    let span: i128 = (secs as i128) * NANOS_PER_SECOND;
    if now < i128::MIN + span {
        Err(DurationError::TooLarge)
    } else {
        Ok(now - span)
    }
}

/// Reads the clock with `std::time::SystemTime::now` and gives the time
/// as nanoseconds from the Unix epoch, negative before it. Nothing is
/// claimed of the result: it differs from call to call.
#[verifier::external_body]
fn now_nanos() -> i128 {
    match std::time::SystemTime::now().duration_since(std::time::UNIX_EPOCH) {
        Ok(d) => d.as_nanos() as i128,
        Err(e) => -(e.duration().as_nanos() as i128),
    }
}

/// The instant that lies the duration given by the literal `s` before the
/// present time. The literal is refused as `dur_from_str` refuses it, and
/// if the instant lies before all instants that can be told.
pub fn parse_timespec(s: &str) -> (r: Result<i128, DurationError>)
    ensures
        exists|now: i128| r == instant_before(s@, now),
{
    let now = now_nanos();
    let r = timespec_before(s, now);
    assert(r == instant_before(s@, now));
    r
}

} // verus!
