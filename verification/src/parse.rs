use vstd::prelude::*;
use vstd::string::StrSliceExecFns;
use crate::orientation::Orientation;

verus! {

/// The separators between fields of an input record.
pub open spec fn is_space(c: char) -> bool {
    c == ' ' || c == '\t'
}

/// A decimal digit.
pub open spec fn is_digit(c: char) -> bool {
    48 <= c as u32 && c as u32 <= 57
}

/// The numeric value of a decimal digit.
pub open spec fn digit_val(c: char) -> int {
    c as u32 - 48
}

/// The value of a digit string read left to right.
pub open spec fn digits_value(s: Seq<char>) -> int
    decreases s.len(),
{
    if s.len() == 0 {
        0
    } else {
        digits_value(s.drop_last()) * 10 + digit_val(s.last())
    }
}

/// A non-empty string of decimal digits.
pub open spec fn all_digits(s: Seq<char>) -> bool {
    s.len() > 0 && forall|i: int| 0 <= i < s.len() ==> is_digit(#[trigger] s[i])
}

/// A coordinate field: its decimal value when the field is a digit string
/// whose value fits in a `u8`, and the recovery default 0 on anything else
/// (missing, non-numeric or too large). The defaulting is a lossy recovery,
/// kept on purpose so malformed input still yields a run.
pub open spec fn parse_u8_spec(s: Seq<char>) -> u8 {
    if all_digits(s) && digits_value(s) <= 255 {
        digits_value(s) as u8
    } else {
        0
    }
}

/// The first index at or after `i` holding a non-separator, or the length.
pub open spec fn skip_spaces(s: Seq<char>, i: int) -> int
    decreases s.len() - i,
{
    if i >= s.len() || !is_space(s[i]) {
        i
    } else {
        skip_spaces(s, i + 1)
    }
}

/// The first index at or after `i` holding a separator, or the length.
pub open spec fn token_end(s: Seq<char>, i: int) -> int
    decreases s.len() - i,
{
    if i >= s.len() || is_space(s[i]) {
        i
    } else {
        token_end(s, i + 1)
    }
}

/// The start index of the `k`-th whitespace-separated field (counted from 0);
/// the length of `s` when there is no such field.
pub open spec fn token_start(s: Seq<char>, k: int) -> int
    decreases k,
{
    if k <= 0 {
        skip_spaces(s, 0)
    } else {
        skip_spaces(s, token_end(s, token_start(s, k - 1)))
    }
}

/// The `k`-th whitespace-separated field itself; empty when missing.
pub open spec fn token(s: Seq<char>, k: int) -> Seq<char> {
    s.subrange(token_start(s, k), token_end(s, token_start(s, k)))
}

/// The `k`-th field read as a coordinate, defaulting to 0 when the field is
/// missing or malformed.
pub open spec fn coord_field(s: Seq<char>, k: int) -> u8 {
    parse_u8_spec(token(s, k))
}

/// The orientation a single symbol stands for, case-insensitively.
pub open spec fn orientation_of_char(c: char) -> Option<Orientation> {
    if c == 'N' || c == 'n' {
        Some(Orientation::N)
    } else if c == 'E' || c == 'e' {
        Some(Orientation::E)
    } else if c == 'S' || c == 's' {
        Some(Orientation::S)
    } else if c == 'W' || c == 'w' {
        Some(Orientation::W)
    } else {
        None
    }
}

/// The orientation a field stands for: exactly one recognized symbol.
pub open spec fn orientation_of_token(s: Seq<char>) -> Option<Orientation> {
    if s.len() == 1 {
        orientation_of_char(s[0])
    } else {
        None
    }
}

/// The third field of an agent record read as an orientation, defaulting to
/// North when the field is missing or malformed (a documented lossy
/// recovery, as with the coordinates).
pub open spec fn orientation_field(s: Seq<char>) -> Orientation {
    match orientation_of_token(token(s, 2)) {
        Some(o) => o,
        None => Orientation::N,
    }
}

/// The characters of a string, as a vector.
pub fn chars_of(s: &str) -> (r: Vec<char>)
    ensures
        r@ == s@,
{
    let n = s.unicode_len();
    let mut out: Vec<char> = Vec::new();
    let mut i: usize = 0;
    while i < n
        invariant
            0 <= i <= n,
            n == s@.len(),
            out@ == s@.take(i as int),
        decreases n - i,
    {
        let c = s.get_char(i);
        out.push(c);
        proof {
            assert(out@ =~= s@.take(i as int + 1));
        }
        i += 1;
    }
    proof {
        assert(s@.take(n as int) =~= s@);
    }
    out
}

/// The boundaries of the first field at or after `from`: the start past any
/// separators, and the end past the field's characters.
pub fn find_token(chars: &Vec<char>, from: usize) -> (r: (usize, usize))
    requires
        from <= chars@.len(),
    ensures
        r.0 as int == skip_spaces(chars@, from as int),
        r.1 as int == token_end(chars@, r.0 as int),
        from <= r.0 <= r.1 <= chars@.len(),
{
    let n = chars.len();
    let mut i: usize = from;
    while i < n && (chars[i] == ' ' || chars[i] == '\t')
        invariant
            from <= i <= n,
            n == chars@.len(),
            skip_spaces(chars@, from as int) == skip_spaces(chars@, i as int),
        decreases n - i,
    {
        i += 1;
    }
    let start = i;
    while i < n && !(chars[i] == ' ' || chars[i] == '\t')
        invariant
            start <= i <= n,
            n == chars@.len(),
            token_end(chars@, start as int) == token_end(chars@, i as int),
        decreases n - i,
    {
        i += 1;
    }
    (start, i)
}

/// Reads the digit string `chars[start..end]` as a coordinate; 0 on a
/// non-digit, an empty range, or a value over 255.
pub fn parse_u8_token(chars: &Vec<char>, start: usize, end: usize) -> (r: u8)
    requires
        start <= end <= chars@.len(),
    ensures
        r == parse_u8_spec(chars@.subrange(start as int, end as int)),
    {
    let ghost tok = chars@.subrange(start as int, end as int);
    if start == end {
        assert(!all_digits(tok));
        return 0;
    }
    let mut acc: u32 = 0;
    let mut i: usize = start;
    while i < end
        invariant
            start <= i <= end <= chars@.len(),
            tok == chars@.subrange(start as int, end as int),
            forall|j: int| 0 <= j < i - start ==> is_digit(#[trigger] tok[j]),
            acc as int == digits_value(tok.take(i - start)),
            acc <= 255,
        decreases end - i,
    {
        let c = chars[i];
        let v = c as u32;
        proof {
            assert(tok[i - start] == chars@[i as int]);
        }
        if v < 48 || v > 57 {
            assert(!all_digits(tok));
            return 0;
        }
        let d = v - 48;
        proof {
            assert(tok.take(i - start + 1).drop_last() =~= tok.take(i - start));
            assert(tok.take(i - start + 1).last() == tok[i - start]);
            assert(digits_value(tok.take(i - start + 1)) == digits_value(tok.take(i - start)) * 10
                + digit_val(tok[i - start]));
        }
        acc = acc * 10 + d;
        i += 1;
        if acc > 255 {
            proof {
                if all_digits(tok) {
                    lemma_digits_value_grows(tok, i - start);
                }
            }
            assert(!(all_digits(tok) && digits_value(tok) <= 255));
            return 0;
        }
    }
    proof {
        assert(tok.take(end - start) =~= tok);
        assert(all_digits(tok));
    }
    acc as u8
}

/// With every character of `s` a digit, the value of a prefix never exceeds
/// the value of the whole, and every prefix value is non-negative.
proof fn lemma_digits_value_grows(s: Seq<char>, m: int)
    requires
        0 <= m <= s.len(),
        forall|i: int| 0 <= i < s.len() ==> is_digit(#[trigger] s[i]),
    ensures
        0 <= digits_value(s.take(m)) <= digits_value(s),
    decreases s.len() - m,
{
    if m == s.len() {
        assert(s.take(m) =~= s);
        lemma_digits_value_nonneg(s);
    } else {
        lemma_digits_value_grows(s, m + 1);
        lemma_digits_value_nonneg(s.take(m));
        assert(s.take(m + 1).drop_last() =~= s.take(m));
        assert(s.take(m + 1).last() == s[m]);
        let v = digits_value(s.take(m));
        assert(digits_value(s.take(m + 1)) == v * 10 + digit_val(s[m]));
        assert(v * 10 >= v);
    }
}

/// A digit string's value is non-negative.
proof fn lemma_digits_value_nonneg(s: Seq<char>)
    requires
        forall|i: int| 0 <= i < s.len() ==> is_digit(#[trigger] s[i]),
    ensures
        digits_value(s) >= 0,
    decreases s.len(),
{
    if s.len() > 0 {
        assert(forall|i: int| 0 <= i < s.drop_last().len() ==> is_digit(#[trigger] s.drop_last()[i]));
        lemma_digits_value_nonneg(s.drop_last());
        assert(digits_value(s.drop_last()) * 10 >= 0);
    }
}

/// Reads `chars[start..end]` as an orientation symbol: `Some` exactly when
/// the range is one recognized symbol.
pub fn parse_orientation_token(chars: &Vec<char>, start: usize, end: usize) -> (r: Option<
    Orientation,
>)
    requires
        start <= end <= chars@.len(),
    ensures
        r == orientation_of_token(chars@.subrange(start as int, end as int)),
{
    let ghost tok = chars@.subrange(start as int, end as int);
    if end - start != 1 {
        return None;
    }
    let c = chars[start];
    proof {
        assert(tok[0] == chars@[start as int]);
    }
    if c == 'N' || c == 'n' {
        Some(Orientation::N)
    } else if c == 'E' || c == 'e' {
        Some(Orientation::E)
    } else if c == 'S' || c == 's' {
        Some(Orientation::S)
    } else if c == 'W' || c == 'w' {
        Some(Orientation::W)
    } else {
        None
    }
}

} // verus!
