//! Character-level text helpers: turning a string slice into its
//! characters, trimming whitespace, and reading a base-10 integer field.

use vstd::prelude::*;
use vstd::string::StrSliceExecFns;

verus! {

/// Collect the characters of a string slice into a vector.
pub fn chars_of(s: &str) -> (v: Vec<char>)
    ensures
        v@ == s@,
{
    let n: usize = s.unicode_len();
    let mut v: Vec<char> = Vec::new();
    let mut i: usize = 0;
    while i < n
        invariant
            n == s@.len(),
            i <= n,
            v@ == s@.take(i as int),
        decreases n - i,
    {
        let c = s.get_char(i);
        v.push(c);
        i = i + 1;
        proof {
            assert(v@ =~= s@.take(i as int));
        }
    }
    proof {
        assert(s@.take(n as int) =~= s@);
    }
    v
}

/// The characters with the Unicode `White_Space` property: exactly those
/// that `char::is_whitespace` recognizes and that trimming removes.
pub open spec fn is_space(c: char) -> bool {
    let n = c as int;
    ||| (9 <= n && n <= 13)
    ||| n == 32
    ||| n == 0x85
    ||| n == 0xA0
    ||| n == 0x1680
    ||| (0x2000 <= n && n <= 0x200A)
    ||| n == 0x2028
    ||| n == 0x2029
    ||| n == 0x202F
    ||| n == 0x205F
    ||| n == 0x3000
}

/// The Unicode code point of a character.
pub fn char_code(c: char) -> (r: u32)
    ensures
        r == c as int,
{
    c as u32
}

/// Runtime test for `is_space`.
pub fn is_space_char(c: char) -> (r: bool)
    ensures
        r == is_space(c),
{
    let n = c as u32;
    (9 <= n && n <= 13) || n == 32 || n == 0x85 || n == 0xA0 || n == 0x1680
        || (0x2000 <= n && n <= 0x200A) || n == 0x2028 || n == 0x2029 || n == 0x202F
        || n == 0x205F || n == 0x3000
}

/// `s` with its leading whitespace removed.
pub open spec fn trim_start(s: Seq<char>) -> Seq<char>
    decreases s.len(),
{
    if s.len() > 0 && is_space(s[0]) {
        trim_start(s.skip(1))
    } else {
        s
    }
}

/// `s` with its trailing whitespace removed.
pub open spec fn trim_end(s: Seq<char>) -> Seq<char>
    decreases s.len(),
{
    if s.len() > 0 && is_space(s.last()) {
        trim_end(s.drop_last())
    } else {
        s
    }
}

/// `s` with surrounding whitespace removed, as `str::trim` leaves it.
pub open spec fn spec_trim(s: Seq<char>) -> Seq<char> {
    trim_end(trim_start(s))
}

/// An ASCII decimal digit.
pub open spec fn is_digit(c: char) -> bool {
    48 <= c as int && c as int <= 57
}

/// The value of an ASCII decimal digit.
pub open spec fn digit_val(c: char) -> int {
    c as int - 48
}

/// Every character of `s` is an ASCII decimal digit.
pub open spec fn all_digits(s: Seq<char>) -> bool {
    forall|i: int| 0 <= i < s.len() ==> is_digit(#[trigger] s[i])
}

/// The number that a sequence of ASCII digits denotes in base 10.
pub open spec fn digits_val(s: Seq<char>) -> int
    decreases s.len(),
{
    if s.len() == 0 {
        0
    } else {
        digits_val(s.drop_last()) * 10 + digit_val(s.last())
    }
}

/// The integer that `str::parse::<i32>` would read from `s`, if any: an
/// optional sign followed by one or more ASCII digits, the value within
/// `i32`'s range.
pub open spec fn spec_parse_i32(s: Seq<char>) -> Option<int> {
    let has_sign = s.len() > 0 && (s[0] == '+' || s[0] == '-');
    let digits = if has_sign {
        s.skip(1)
    } else {
        s
    };
    let sign: int = if has_sign && s[0] == '-' {
        -1
    } else {
        1
    };
    if digits.len() > 0 && all_digits(digits) && -0x8000_0000 <= sign * digits_val(digits)
        <= 0x7FFF_FFFF {
        Some(sign * digits_val(digits))
    } else {
        None
    }
}

/// The integer encoded in the whitespace-trimmed field `s[from..to]`.
pub open spec fn spec_parse_field(s: Seq<char>, from: int, to: int) -> Option<int> {
    spec_parse_i32(spec_trim(s.subrange(from, to)))
}

/// Ten to the `n`th power.
pub open spec fn pow10(n: nat) -> int
    decreases n,
{
    if n == 0 {
        1
    } else {
        10 * pow10((n - 1) as nat)
    }
}

proof fn lemma_pow10_pos(n: nat)
    ensures
        1 <= pow10(n),
    decreases n,
{
    if n > 0 {
        lemma_pow10_pos((n - 1) as nat);
    }
}

proof fn lemma_pow10_mono(n: nat, m: nat)
    requires
        n <= m,
    ensures
        pow10(n) <= pow10(m),
    decreases m,
{
    if n < m {
        lemma_pow10_mono(n, (m - 1) as nat);
        lemma_pow10_pos((m - 1) as nat);
    }
}

proof fn lemma_pow10_nine()
    ensures
        pow10(9) == 1_000_000_000,
{
    assert(pow10(0) == 1);
    assert(pow10(1) == 10);
    assert(pow10(2) == 100);
    assert(pow10(3) == 1000);
    assert(pow10(4) == 10000);
    assert(pow10(5) == 100000);
    assert(pow10(6) == 1000000);
    assert(pow10(7) == 10000000);
    assert(pow10(8) == 100000000);
    assert(pow10(9) == 1000000000);
}

/// Parse the whitespace-trimmed field `s[from..to]` as a base-10 `i32`,
/// as `str::parse::<i32>` on the trimmed field would. Fields of up to
/// nine characters never overflow `i32`, which keeps the reading total.
#[verifier::loop_isolation(false)]
#[verifier::rlimit(60)]
pub fn parse_i32_field(s: &Vec<char>, from: usize, to: usize) -> (r: Option<i32>)
    requires
        from <= to <= s@.len(),
        to - from <= 9,
    ensures
        match spec_parse_field(s@, from as int, to as int) {
            Some(v) => r == Some(v as i32),
            None => r is None,
        },
{
    let ghost field = s@.subrange(from as int, to as int);
    let mut lo = from;
    let mut hi = to;

    while lo < hi && is_space_char(s[lo])
        invariant
            from <= lo <= hi <= to <= s@.len(),
            field == s@.subrange(from as int, to as int),
            hi == to,
            trim_start(field) == trim_start(s@.subrange(lo as int, to as int)),
        decreases hi - lo,
    {
        proof {
            let cur = s@.subrange(lo as int, to as int);
            assert(cur[0] == s@[lo as int]);
            assert(cur.skip(1) =~= s@.subrange(lo as int + 1, to as int));
        }
        lo = lo + 1;
    }
    proof {
        let cur = s@.subrange(lo as int, to as int);
        assert(trim_start(cur) == cur) by {
            if cur.len() > 0 {
                assert(cur[0] == s@[lo as int]);
            }
        }
    }

    while hi > lo && is_space_char(s[hi - 1])
        invariant
            from <= lo <= hi <= to <= s@.len(),
            field == s@.subrange(from as int, to as int),
            trim_start(field) == s@.subrange(lo as int, to as int),
            trim_end(s@.subrange(lo as int, to as int)) == trim_end(
                s@.subrange(lo as int, hi as int),
            ),
        decreases hi - lo,
    {
        proof {
            let cur = s@.subrange(lo as int, hi as int);
            assert(cur.last() == s@[hi as int - 1]);
            assert(cur.drop_last() =~= s@.subrange(lo as int, hi as int - 1));
        }
        hi = hi - 1;
    }
    let ghost trimmed = s@.subrange(lo as int, hi as int);
    proof {
        assert(trim_end(trimmed) == trimmed) by {
            if trimmed.len() > 0 {
                assert(trimmed.last() == s@[hi as int - 1]);
            }
        }
        assert(spec_trim(field) == trimmed);
    }

    if lo == hi {
        proof {
            assert(trimmed.len() == 0);
        }
        return None;
    }

    let first = s[lo];
    let neg = first == '-';
    let start: usize = if first == '-' || first == '+' {
        lo + 1
    } else {
        lo
    };
    let ghost digits = s@.subrange(start as int, hi as int);
    proof {
        assert(trimmed[0] == s@[lo as int]);
        if start > lo {
            assert(trimmed.skip(1) =~= digits);
        } else {
            assert(trimmed =~= digits);
        }
    }

    if start == hi {
        // A bare sign with no digits is not a number.
        proof {
            assert(first == s@[lo as int]);
            assert(trimmed[0] == first);
            assert(digits.len() == 0);
            assert(trimmed.skip(1) == digits);
            assert(spec_parse_i32(trimmed) is None);
            assert(spec_parse_field(s@, from as int, to as int) is None);
        }
        return None;
    }

    let mut acc: i32 = 0;
    let mut i = start;
    while i < hi
        invariant
            lo <= start <= i <= hi <= s@.len(),
            hi - start <= 9,
            digits == s@.subrange(start as int, hi as int),
            all_digits(s@.subrange(start as int, i as int)),
            acc == digits_val(s@.subrange(start as int, i as int)),
            0 <= acc < pow10((i - start) as nat),
        decreases hi - i,
    {
        let c = s[i];
        let code = char_code(c);
        if code < 48 || code > 57 {
            proof {
                assert(digits[i - start as int] == s@[i as int]);
                assert(!all_digits(digits));
            }
            return None;
        }
        let d: i32 = (code - 48) as i32;
        proof {
            lemma_pow10_nine();
            lemma_pow10_mono(((i + 1) - start as int) as nat, 9);
            assert(pow10(((i + 1) - start as int) as nat) == 10 * pow10((i - start) as nat));
        }
        acc = acc * 10 + d;
        proof {
            let prev = s@.subrange(start as int, i as int);
            let cur = s@.subrange(start as int, i as int + 1);
            assert(forall|j: int| 0 <= j < prev.len() ==> prev[j] == s@[start as int + j]);
            assert(forall|j: int| 0 <= j < cur.len() ==> cur[j] == s@[start as int + j]);
            assert(is_digit(s@[i as int]));
            assert(all_digits(cur));
            assert(cur.drop_last() =~= prev);
            assert(cur.last() == s@[i as int]);
        }
        i = i + 1;
    }
    proof {
        assert(s@.subrange(start as int, i as int) == digits);
        assert(all_digits(digits));
        lemma_pow10_nine();
        lemma_pow10_mono((hi - start) as nat, 9);
        assert(0 <= acc < 1_000_000_000);
    }

    if neg {
        proof {
            assert(spec_trim(s@.subrange(from as int, to as int)) == trimmed);
            assert(trimmed.len() > 0);
            assert(trimmed[0] == '-');
            assert(trimmed.skip(1) == digits);
            assert(digits.len() > 0);
            assert(all_digits(digits));
            assert(digits_val(digits) == acc);
            assert(0 <= acc < 1_000_000_000);
            assert(spec_parse_i32(trimmed) == Some(-1 * digits_val(digits)));
        }
        Some(-acc)
    } else {
        proof {
            assert(spec_parse_i32(trimmed) == Some(1 * digits_val(digits)));
        }
        Some(acc)
    }
}

} // verus!
