//! What the scanner makes of the entries of the process listing: which names
//! are process ids, and which processes have their memory maps read.

use vstd::prelude::*;
use crate::text::{chars_of, same_text};

verus! {

/// Whether `c` is one of the ten decimal digits.
pub open spec fn is_digit(c: char) -> bool {
    0x30 <= c as u32 <= 0x39
}

/// The number that a run of decimal digits writes.
pub open spec fn decimal(digits: Seq<char>) -> nat
    decreases digits.len(),
{
    if digits.len() == 0 {
        0
    } else {
        decimal(digits.drop_last()) * 10 + (digits.last() as u32 - 0x30) as nat
    }
}

/// Whether every character is a decimal digit.
pub open spec fn all_digits(digits: Seq<char>) -> bool {
    forall|i: int| 0 <= i < digits.len() ==> is_digit(#[trigger] digits[i])
}

/// The digits of a name: the name without a plus sign in front.
pub open spec fn unsigned_part(name: Seq<char>) -> Seq<char> {
    if name.len() > 0 && name[0] == '+' {
        name.drop_first()
    } else {
        name
    }
}

/// The process id that the name of a listing entry stands for: one or more
/// decimal digits, with or without a plus sign in front, that write a number
/// from 1 to `u32::MAX`. Any other name is not a process.
pub open spec fn spec_pid(name: Seq<char>) -> Option<u32> {
    let digits = unsigned_part(name);
    if digits.len() > 0 && all_digits(digits) && 1 <= decimal(digits) <= u32::MAX {
        Some(decimal(digits) as u32)
    } else {
        None
    }
}

proof fn lemma_decimal_grows(digits: Seq<char>, n: int)
    requires
        0 <= n <= digits.len(),
        all_digits(digits),
    ensures
        decimal(digits.take(n)) <= decimal(digits),
    decreases digits.len() - n,
{
    if n == digits.len() {
        assert(digits.take(n) =~= digits);
    } else {
        let front = digits.drop_last();
        assert(all_digits(front)) by {
            assert forall|i: int| 0 <= i < front.len() implies is_digit(#[trigger] front[i]) by {
                assert(is_digit(digits[i]));
            }
        }
        lemma_decimal_grows(front, n);
        assert(front.take(n) =~= digits.take(n));
        assert(is_digit(digits[digits.len() - 1]));
    }
}

/// Reads the name of a listing entry as a process id.
pub fn parse_pid(name: &str) -> (pid: Option<u32>)
    ensures
        pid == spec_pid(name@),
{
    let s = chars_of(name);
    let start: usize = if s.len() > 0 && s[0] == '+' {
        1
    } else {
        0
    };
    let ghost digits = unsigned_part(s@);
    assert(digits =~= s@.subrange(start as int, s.len() as int));
    if start == s.len() {
        return None;
    }
    let mut value: u64 = 0;
    let mut i: usize = start;
    while i < s.len()
        invariant
            start <= i <= s.len(),
            digits == s@.subrange(start as int, s.len() as int),
            digits == unsigned_part(name@),
            all_digits(digits.take(i - start)),
            value == decimal(digits.take(i - start)),
            value <= u32::MAX,
        decreases s.len() - i,
    {
        let c = s[i];
        let u: u32 = c as u32;
        if u < 0x30 || u > 0x39 {
            assert(!is_digit(digits[i - start]));
            return None;
        }
        let ghost seen = digits.take(i - start + 1);
        assert(seen.drop_last() =~= digits.take(i - start));
        assert(seen.last() == c);
        assert(all_digits(seen)) by {
            assert forall|k: int| 0 <= k < seen.len() implies is_digit(#[trigger] seen[k]) by {
                if k < i - start {
                    assert(is_digit(digits.take(i - start)[k]));
                }
            }
        }
        value = value * 10 + (u - 0x30) as u64;
        if value > u32::MAX as u64 {
            proof {
                if all_digits(digits) {
                    lemma_decimal_grows(digits, i - start + 1);
                }
            }
            return None;
        }
        i += 1;
    }
    assert(digits.take(i - start) =~= digits);
    if value == 0 {
        None
    } else {
        Some(value as u32)
    }
}

/// Why a link could not be resolved or a file not be opened.
#[derive(Clone, Copy, Debug, PartialEq, Eq, Structural)]
pub enum Failure {
    /// It is not there: the process has exited, is a zombie or a kernel
    /// thread.
    NotFound,
    /// Anything else.
    Other,
}

/// What the scanner does with a process.
#[derive(Clone, Copy, Debug, PartialEq, Eq, Structural)]
pub enum Verdict {
    /// Read its memory maps.
    Scan,
    /// Pass over it without a word: one of its links is not there.
    Vanished,
    /// Pass over it without a word: it runs the scanner's own program.
    OwnBinary,
    /// Pass over it and report that its executable link could not be read.
    ReportExe,
    /// Pass over it and report that its namespace link could not be read.
    ReportNamespace,
}

/// The outcome of reading a link, with the target as a sequence of
/// characters.
pub open spec fn link_view(link: Result<String, Failure>) -> Result<Seq<char>, Failure> {
    match link {
        Ok(target) => Ok(target@),
        Err(failure) => Err(failure),
    }
}

/// What the scanner does with a process, given what reading its executable
/// link and its namespace link gave and the path of the scanner's own
/// program. The executable link is looked at first.
pub open spec fn spec_verdict(
    exe: Result<Seq<char>, Failure>,
    ns: Result<Seq<char>, Failure>,
    own_exe: Seq<char>,
) -> Verdict {
    match exe {
        Err(Failure::NotFound) => Verdict::Vanished,
        Err(Failure::Other) => Verdict::ReportExe,
        Ok(target) => match ns {
            Err(Failure::NotFound) => Verdict::Vanished,
            Err(Failure::Other) => Verdict::ReportNamespace,
            Ok(_) => if target == own_exe {
                Verdict::OwnBinary
            } else {
                Verdict::Scan
            },
        },
    }
}

/// Whether a failure is worth a line on standard error: all are, but that
/// something is not there.
pub fn worth_reporting(failure: Failure) -> (r: bool)
    ensures
        r == (failure == Failure::Other),
{
    match failure {
        Failure::NotFound => false,
        Failure::Other => true,
    }
}

/// Decides what to do with a process.
pub fn examine(
    exe: &Result<String, Failure>,
    ns: &Result<String, Failure>,
    own_exe: &str,
) -> (verdict: Verdict)
    ensures
        verdict == spec_verdict(link_view(*exe), link_view(*ns), own_exe@),
{
    match exe {
        Err(Failure::NotFound) => Verdict::Vanished,
        Err(Failure::Other) => Verdict::ReportExe,
        Ok(target) => match ns {
            Err(Failure::NotFound) => Verdict::Vanished,
            Err(Failure::Other) => Verdict::ReportNamespace,
            Ok(_) => if same_text(target.as_str(), own_exe) {
                Verdict::OwnBinary
            } else {
                Verdict::Scan
            },
        },
    }
}

} // verus!
