use vstd::prelude::*;
use vstd::string::StringExecFns;

verus! {

/// The decimal digit character for `d` (meaningful for `d < 10`).
pub open spec fn digit_char(d: nat) -> char {
    if d == 0 {
        '0'
    } else if d == 1 {
        '1'
    } else if d == 2 {
        '2'
    } else if d == 3 {
        '3'
    } else if d == 4 {
        '4'
    } else if d == 5 {
        '5'
    } else if d == 6 {
        '6'
    } else if d == 7 {
        '7'
    } else if d == 8 {
        '8'
    } else {
        '9'
    }
}

/// The decimal notation of `n`, most significant digit first.
pub open spec fn dec_digits(n: nat) -> Seq<char>
    decreases n,
{
    if n < 10 {
        seq![digit_char(n)]
    } else {
        dec_digits(n / 10).push(digit_char(n % 10))
    }
}

/// One decimal digit as a string.
fn digit_string(d: u64) -> (s: String)
    requires
        d < 10,
    ensures
        s@ == seq![digit_char(d as nat)],
{
    let lit: &str = if d == 0 {
        "0"
    } else if d == 1 {
        "1"
    } else if d == 2 {
        "2"
    } else if d == 3 {
        "3"
    } else if d == 4 {
        "4"
    } else if d == 5 {
        "5"
    } else if d == 6 {
        "6"
    } else if d == 7 {
        "7"
    } else if d == 8 {
        "8"
    } else {
        "9"
    };
    proof {
        reveal_strlit("0");
        reveal_strlit("1");
        reveal_strlit("2");
        reveal_strlit("3");
        reveal_strlit("4");
        reveal_strlit("5");
        reveal_strlit("6");
        reveal_strlit("7");
        reveal_strlit("8");
        reveal_strlit("9");
        assert(lit@ =~= seq![digit_char(d as nat)]);
    }
    lit.to_owned()
}

/// `n` written in decimal.
pub fn u64_to_string(n: u64) -> (s: String)
    ensures
        s@ == dec_digits(n as nat),
    decreases n,
{
    if n < 10 {
        digit_string(n)
    } else {
        let mut s = u64_to_string(n / 10);
        let last = digit_string(n % 10);
        s.append(last.as_str());
        proof {
            assert(s@ =~= dec_digits((n / 10) as nat).push(digit_char((n % 10) as nat)));
        }
        s
    }
}

/// Every character is a decimal digit.
pub open spec fn all_digits(s: Seq<char>) -> bool {
    forall|i: int| 0 <= i < s.len() ==> 48 <= (#[trigger] s[i]) as u32 <= 57
}

/// The numeric value of a digit string, most significant digit first.
pub open spec fn digits_value(s: Seq<char>) -> nat
    decreases s.len(),
{
    if s.len() == 0 {
        0
    } else {
        digits_value(s.drop_last()) * 10 + (s.last() as u32 - 48) as nat
    }
}

/// Why a duration argument was rejected.
#[derive(Clone, Copy, PartialEq, Eq, Structural, Debug)]
pub enum ParseDurationError {
    /// The argument holds no characters.
    Empty,
    /// Some character is not a decimal digit.
    InvalidDigit,
    /// The numeric value does not fit the seconds counter.
    Overflow,
}

/// A longer digit string never has a smaller value.
proof fn lemma_digits_value_mono(s: Seq<char>, i: int)
    requires
        0 <= i <= s.len(),
    ensures
        digits_value(s.take(i)) <= digits_value(s),
    decreases s.len() - i,
{
    if i < s.len() {
        lemma_digits_value_mono(s, i + 1);
        assert(s.take(i + 1).drop_last() =~= s.take(i));
        assert(digits_value(s.take(i + 1)) == digits_value(s.take(i)) * 10 + (s.take(
            i + 1,
        ).last() as u32 - 48) as nat);
    } else {
        assert(s.take(i) =~= s);
    }
}

/// The digits of a duration argument: everything after an optional leading
/// plus sign.
pub open spec fn duration_digits(s: Seq<char>) -> Seq<char> {
    if s.len() > 0 && s[0] == '+' {
        s.skip(1)
    } else {
        s
    }
}

/// Parse a duration argument: an optional plus sign followed by decimal
/// digits, read as a number of seconds. Returns exactly the written value;
/// rejects an empty string, a missing or non-digit character, and values
/// beyond the seconds counter.
pub fn parse_duration(arg: &str) -> (res: Result<u64, ParseDurationError>)
    ensures
        match res {
            Ok(secs) => duration_digits(arg@).len() > 0 && all_digits(duration_digits(arg@))
                && digits_value(duration_digits(arg@)) == secs,
            Err(ParseDurationError::Empty) => arg@.len() == 0,
            Err(ParseDurationError::InvalidDigit) => arg@.len() > 0 && (duration_digits(
                arg@,
            ).len() == 0 || !all_digits(duration_digits(arg@))),
            Err(ParseDurationError::Overflow) => duration_digits(arg@).len() > 0 && all_digits(
                duration_digits(arg@),
            ) && digits_value(duration_digits(arg@)) > u64::MAX,
        },
{
    let ghost body = duration_digits(arg@);
    let n = arg.unicode_len();
    if n == 0 {
        return Err(ParseDurationError::Empty);
    }
    let start: usize = if arg.get_char(0) == '+' {
        1
    } else {
        0
    };
    proof {
        if start == 1 {
            assert(body =~= arg@.skip(1));
        } else {
            assert(body =~= arg@);
        }
    }
    let m = n - start;
    if m == 0 {
        return Err(ParseDurationError::InvalidDigit);
    }
    // First pass: every remaining character must be a digit.
    let mut i: usize = 0;
    while i < m
        invariant
            i <= m,
            start <= 1,
            m + start == n,
            n == arg@.len(),
            body == duration_digits(arg@),
            m == body.len(),
            forall|j: int| 0 <= j < body.len() ==> body[j] == arg@[start + j],
            forall|j: int| 0 <= j < i ==> 48 <= (#[trigger] body[j]) as u32 <= 57,
        decreases m - i,
    {
        let c = arg.get_char(start + i);
        let cu = c as u32;
        if cu < 48 || cu > 57 {
            proof {
                assert(body[i as int] == arg@[start + i]);
            }
            return Err(ParseDurationError::InvalidDigit);
        }
        i = i + 1;
    }
    // Second pass: accumulate, watching the seconds counter's limit.
    let mut value: u64 = 0;
    let mut i: usize = 0;
    while i < m
        invariant
            i <= m,
            start <= 1,
            m + start == n,
            n == arg@.len(),
            body == duration_digits(arg@),
            m == body.len(),
            forall|j: int| 0 <= j < body.len() ==> body[j] == arg@[start + j],
            all_digits(body),
            value == digits_value(body.take(i as int)),
        decreases m - i,
    {
        let c = arg.get_char(start + i);
        proof {
            assert(body[i as int] == arg@[start + i]);
        }
        let d = (c as u32 - 48) as u64;
        if value > (u64::MAX - d) / 10 {
            proof {
                assert(body.take(i + 1).drop_last() =~= body.take(i as int));
                assert(digits_value(body.take(i + 1)) == digits_value(body.take(i as int)) * 10 + (
                body.take(i + 1).last() as u32 - 48) as nat);
                assert(digits_value(body.take(i + 1)) > u64::MAX);
                lemma_digits_value_mono(body, i + 1);
            }
            return Err(ParseDurationError::Overflow);
        }
        proof {
            assert(body.take(i + 1).drop_last() =~= body.take(i as int));
            assert(digits_value(body.take(i + 1)) == digits_value(body.take(i as int)) * 10 + (
            body.take(i + 1).last() as u32 - 48) as nat);
        }
        value = value * 10 + d;
        i = i + 1;
    }
    proof {
        assert(body.take(m as int) =~= body);
    }
    Ok(value)
}

} // verus!
