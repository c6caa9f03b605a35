//! Small text utilities: characters of a string, decimal numbers, and
//! surrounding white space.

use vstd::prelude::*;
use vstd::string::{StrSliceExecFns, StringExecFns};

verus! {

/// Lists the characters of `s`.
pub fn chars_of(s: &str) -> (chars: Vec<char>)
    ensures
        chars@ == s@,
{
    let n = s.unicode_len();
    let mut chars: Vec<char> = Vec::new();
    let mut i: usize = 0;
    while i < n
        invariant
            i <= n,
            n == s@.len(),
            chars@ =~= s@.take(i as int),
        decreases n - i,
    {
        chars.push(s.get_char(i));
        i += 1;
    }
    assert(s@.take(n as int) =~= s@);
    chars
}

/// Copies the characters `chars[from..to]`.
pub fn slice_chars(chars: &[char], from: usize, to: usize) -> (part: Vec<char>)
    requires
        from <= to <= chars@.len(),
    ensures
        part@ == chars@.subrange(from as int, to as int),
{
    let mut part: Vec<char> = Vec::new();
    let mut i: usize = from;
    while i < to
        invariant
            from <= i <= to <= chars@.len(),
            part@ =~= chars@.subrange(from as int, i as int),
        decreases to - i,
    {
        part.push(chars[i]);
        i += 1;
    }
    part
}

/// `String::push` of the standard library: the text grows by the given
/// character at its end.
#[verifier::external_body]
pub(crate) fn push_char(out: &mut String, c: char)
    ensures
        final(out)@ == old(out)@.push(c),
{
    out.push(c)
}

/// Builds the text of the characters `chars[from..to]`.
pub fn string_of(chars: &[char], from: usize, to: usize) -> (text: String)
    requires
        from <= to <= chars@.len(),
    ensures
        text@ == chars@.subrange(from as int, to as int),
{
    let mut text = String::new();
    let mut i: usize = from;
    while i < to
        invariant
            from <= i <= to <= chars@.len(),
            text@ =~= chars@.subrange(from as int, i as int),
        decreases to - i,
    {
        push_char(&mut text, chars[i]);
        i += 1;
    }
    text
}

/// Whether `pattern` occurs in `text` at position `at`.
pub open spec fn occurs_at(text: Seq<char>, pattern: Seq<char>, at: int) -> bool {
    0 <= at && at + pattern.len() <= text.len() && text.subrange(at, at + pattern.len())
        == pattern
}

/// Whether `pattern` occurs somewhere in `text`.
pub open spec fn has_text(text: Seq<char>, pattern: Seq<char>) -> bool {
    exists|at: int| occurs_at(text, pattern, at)
}

/// Tells whether `pattern` occurs somewhere in `text`.
pub fn contains_text(text: &[char], pattern: &[char]) -> (r: bool)
    ensures
        r == has_text(text@, pattern@),
{
    if pattern.len() > text.len() {
        assert forall|at: int| !occurs_at(text@, pattern@, at) by {}
        return false;
    }
    let last: usize = text.len() - pattern.len();
    let mut at: usize = 0;
    loop
        invariant
            at <= last,
            pattern@.len() <= text@.len() <= usize::MAX,
            last == text@.len() - pattern@.len(),
            forall|k: int| 0 <= k < at ==> !occurs_at(text@, pattern@, k),
        decreases last - at,
    {
        if same_chars(text, at, at + pattern.len(), pattern) {
            assert(occurs_at(text@, pattern@, at as int));
            return true;
        }
        if at == last {
            assert forall|k: int| !occurs_at(text@, pattern@, k) by {}
            return false;
        }
        at += 1;
    }
}

/// The lower-case form of an ASCII capital; any other character
/// unchanged.
pub open spec fn fold_char(c: char) -> char {
    if 'A' <= c <= 'Z' {
        ((c as u32) + 32) as char
    } else {
        c
    }
}

/// `s` with its ASCII capitals in lower case.
pub open spec fn folded(s: Seq<char>) -> Seq<char> {
    Seq::new(s.len(), |i: int| fold_char(s[i]))
}

/// Gives the lower-case form of an ASCII capital, and any other
/// character unchanged.
pub fn fold(c: char) -> (r: char)
    ensures
        r == fold_char(c),
{
    if c >= 'A' && c <= 'Z' {
        let code: u8 = (c as u8) + 32;
        code as char
    } else {
        c
    }
}

/// Copies `chars[from..to]` with the ASCII capitals in lower case.
pub fn fold_chars(chars: &[char], from: usize, to: usize) -> (low: Vec<char>)
    requires
        from <= to <= chars@.len(),
    ensures
        low@ == folded(chars@.subrange(from as int, to as int)),
{
    let ghost target = folded(chars@.subrange(from as int, to as int));
    let mut low: Vec<char> = Vec::new();
    let mut i: usize = from;
    while i < to
        invariant
            from <= i <= to <= chars@.len(),
            target == folded(chars@.subrange(from as int, to as int)),
            low@ =~= target.take(i - from),
        decreases to - i,
    {
        low.push(fold(chars[i]));
        i += 1;
    }
    assert(target.take(target.len() as int) =~= target);
    low
}

/// Whether `c` is one of the ten decimal digits.
pub open spec fn is_digit(c: char) -> bool {
    '0' <= c <= '9'
}

/// The value of a decimal digit.
pub open spec fn digit_value(c: char) -> nat {
    (c as u32 - '0' as u32) as nat
}

/// The character of a decimal digit.
pub open spec fn digit_char(d: nat) -> char {
    if d == 0 {
        '0'
    } else if d == 1 {
        '1'
    } else if d == 2 {
        '2'
    } else if d == 3 {
        '3'
    } else if d == 4 {
        '4'
    } else if d == 5 {
        '5'
    } else if d == 6 {
        '6'
    } else if d == 7 {
        '7'
    } else if d == 8 {
        '8'
    } else {
        '9'
    }
}

/// Tells whether `c` is a decimal digit.
pub fn is_decimal_digit(c: char) -> (r: bool)
    ensures
        r == is_digit(c),
{
    c >= '0' && c <= '9'
}

/// Appends the digit `d` to `out`.
pub fn push_digit(out: &mut String, d: u32)
    requires
        d < 10,
    ensures
        final(out)@ == old(out)@.push(digit_char(d as nat)),
{
    proof {
        reveal_strlit("0");
        reveal_strlit("1");
        reveal_strlit("2");
        reveal_strlit("3");
        reveal_strlit("4");
        reveal_strlit("5");
        reveal_strlit("6");
        reveal_strlit("7");
        reveal_strlit("8");
        reveal_strlit("9");
    }
    let ghost before = out@;
    let text = if d == 0 {
        "0"
    } else if d == 1 {
        "1"
    } else if d == 2 {
        "2"
    } else if d == 3 {
        "3"
    } else if d == 4 {
        "4"
    } else if d == 5 {
        "5"
    } else if d == 6 {
        "6"
    } else if d == 7 {
        "7"
    } else if d == 8 {
        "8"
    } else {
        "9"
    };
    out.append(text);
    assert(out@ =~= before.push(digit_char(d as nat)));
}

/// The decimal numeral of `n`, without leading zeros.
pub open spec fn decimal(n: nat) -> Seq<char>
    decreases n,
{
    if n < 10 {
        seq![digit_char(n)]
    } else {
        decimal(n / 10).push(digit_char(n % 10))
    }
}

/// The decimal numeral of `n`, with a leading zero where it would have a
/// single digit.
pub open spec fn two_digits(n: nat) -> Seq<char> {
    if n < 10 {
        seq!['0', digit_char(n)]
    } else {
        decimal(n)
    }
}

/// Appends the decimal numeral of `n` to `out`.
pub fn push_decimal(out: &mut String, n: u32)
    ensures
        final(out)@ == old(out)@ + decimal(n as nat),
    decreases n,
{
    let ghost before = out@;
    if n >= 10 {
        push_decimal(out, n / 10);
    }
    push_digit(out, n % 10);
    assert(out@ =~= before + decimal(n as nat));
}

/// Appends the numeral of `n`, at least two digits wide, to `out`.
pub fn push_two_digits(out: &mut String, n: u32)
    ensures
        final(out)@ == old(out)@ + two_digits(n as nat),
{
    let ghost before = out@;
    if n < 10 {
        push_digit(out, 0);
        push_digit(out, n);
        assert(out@ =~= before + two_digits(n as nat));
    } else {
        push_decimal(out, n);
    }
}

/// The number that a run of decimal digits denotes.
pub open spec fn digits_value(s: Seq<char>) -> nat
    decreases s.len(),
{
    if s.len() == 0 {
        0
    } else {
        digits_value(s.drop_last()) * 10 + digit_value(s.last())
    }
}

/// Whether `s` holds decimal digits only.
pub open spec fn all_digits(s: Seq<char>) -> bool {
    forall|i: int| 0 <= i < s.len() ==> is_digit(#[trigger] s[i])
}

/// `s` without a leading plus sign.
pub open spec fn unsigned_text(s: Seq<char>) -> Seq<char> {
    if s.len() > 0 && s[0] == '+' {
        s.skip(1)
    } else {
        s
    }
}

/// The number that `s` denotes: an optional plus sign and then one or
/// more decimal digits and nothing else, with a value that fits in 32
/// bits.
pub open spec fn parse_u32_spec(s: Seq<char>) -> Option<u32> {
    let digits = unsigned_text(s);
    if digits.len() > 0 && all_digits(digits) && digits_value(digits) <= u32::MAX {
        Some(digits_value(digits) as u32)
    } else {
        None
    }
}

proof fn lemma_digits_value_grows(s: Seq<char>, k: int)
    requires
        0 <= k <= s.len(),
    ensures
        digits_value(s.take(k)) <= digits_value(s),
    decreases s.len() - k,
{
    if k == s.len() {
        assert(s.take(k) =~= s);
    } else {
        lemma_digits_value_grows(s.drop_last(), k);
        assert(s.drop_last().take(k) =~= s.take(k));
        assert(digits_value(s.drop_last()) <= digits_value(s.drop_last()) * 10) by (nonlinear_arith);
    }
}

/// Reads the number that the characters `chars[from..to]` denote.
pub fn parse_u32(chars: &[char], from: usize, to: usize) -> (r: Option<u32>)
    requires
        from <= to <= chars@.len(),
    ensures
        r == parse_u32_spec(chars@.subrange(from as int, to as int)),
{
    let ghost text = chars@.subrange(from as int, to as int);
    let start: usize = if from < to && chars[from] == '+' {
        from + 1
    } else {
        from
    };
    let ghost digits = unsigned_text(text);
    assert(digits =~= chars@.subrange(start as int, to as int));
    if start == to {
        return None;
    }
    let mut value: u64 = 0;
    let mut i: usize = start;
    assert(digits.take(0) =~= Seq::<char>::empty());
    while i < to
        invariant
            from <= start <= i <= to <= chars@.len(),
            digits == chars@.subrange(start as int, to as int),
            digits == unsigned_text(chars@.subrange(from as int, to as int)),
            all_digits(digits.take(i - start)),
            value == digits_value(digits.take(i - start)),
            value <= u32::MAX,
        decreases to - i,
    {
        let c = chars[i];
        let ghost seen = digits.take(i - start);
        let ghost next = digits.take(i - start + 1);
        proof {
            assert(next.drop_last() =~= seen);
            assert(next.last() == c);
        }
        if !is_decimal_digit(c) {
            assert(digits[i - start] == c);
            return None;
        }
        let d: u64 = (c as u32 - '0' as u32) as u64;
        value = value * 10 + d;
        if value > 0xffff_ffff {
            proof {
                lemma_digits_value_grows(digits, i - start + 1);
            }
            return None;
        }
        proof {
            assert forall|k: int| 0 <= k < next.len() implies is_digit(#[trigger] next[k]) by {
                if k < seen.len() {
                    assert(next[k] == seen[k]);
                }
            }
        }
        i += 1;
    }
    assert(digits.take(digits.len() as int) =~= digits);
    Some(value as u32)
}

/// The position of the first `c` in `s` from `i` on, or the length of
/// `s` where there is none.
pub open spec fn position_from(s: Seq<char>, c: char, i: int) -> int
    decreases s.len() - i,
{
    if i < 0 || i >= s.len() {
        s.len() as int
    } else if s[i] == c {
        i
    } else {
        position_from(s, c, i + 1)
    }
}

/// Finds the first `c` among `chars[from..to]`; `to` where there is
/// none.
pub fn find_char(chars: &[char], c: char, from: usize, to: usize) -> (r: usize)
    requires
        from <= to <= chars@.len(),
    ensures
        from <= r <= to,
        r == position_from(chars@.take(to as int), c, from as int),
        r < to ==> chars@[r as int] == c,
        forall|k: int| from <= k < r ==> chars@[k] != c,
{
    let ghost s = chars@.take(to as int);
    let mut i: usize = from;
    while i < to
        invariant
            from <= i <= to <= chars@.len(),
            s == chars@.take(to as int),
            position_from(s, c, from as int) == position_from(s, c, i as int),
            forall|k: int| from <= k < i ==> chars@[k] != c,
        decreases to - i,
    {
        if chars[i] == c {
            return i;
        }
        i += 1;
    }
    to
}

/// Whether `c` is white space: a character with the Unicode property
/// White_Space.
pub open spec fn is_space(c: char) -> bool {
    let n = c as u32;
    (0x09 <= n <= 0x0d) || n == 0x20 || n == 0x85 || n == 0xa0 || n == 0x1680 || (0x2000 <= n
        <= 0x200a) || n == 0x2028 || n == 0x2029 || n == 0x202f || n == 0x205f || n == 0x3000
}

/// Tells whether `c` is white space.
pub fn is_white_space(c: char) -> (r: bool)
    ensures
        r == is_space(c),
{
    let n = c as u32;
    (0x09 <= n && n <= 0x0d) || n == 0x20 || n == 0x85 || n == 0xa0 || n == 0x1680 || (0x2000 <= n
        && n <= 0x200a) || n == 0x2028 || n == 0x2029 || n == 0x202f || n == 0x205f || n == 0x3000
}

/// The number of white-space characters at the front of `s`, from
/// position `i` on.
pub open spec fn leading_spaces(s: Seq<char>, i: int) -> nat
    decreases s.len() - i,
{
    if 0 <= i < s.len() && is_space(s[i]) {
        1 + leading_spaces(s, i + 1)
    } else {
        0
    }
}

/// The number of white-space characters at the back of `s`.
pub open spec fn trailing_spaces(s: Seq<char>) -> nat
    decreases s.len(),
{
    if s.len() > 0 && is_space(s.last()) {
        1 + trailing_spaces(s.drop_last())
    } else {
        0
    }
}

/// `s` without the white space at its front.
pub open spec fn trim_front(s: Seq<char>) -> Seq<char> {
    s.skip(leading_spaces(s, 0) as int)
}

/// `s` without the white space at its front and back.
pub open spec fn trimmed(s: Seq<char>) -> Seq<char> {
    let rest = trim_front(s);
    rest.take(rest.len() - trailing_spaces(rest))
}

/// Finds the part of `chars[from..to]` that is left once the white space
/// at its front and back is gone.
pub fn trim_bounds(chars: &[char], from: usize, to: usize) -> (bounds: (usize, usize))
    requires
        from <= to <= chars@.len(),
    ensures
        from <= bounds.0 <= bounds.1 <= to,
        chars@.subrange(bounds.0 as int, bounds.1 as int) == trimmed(
            chars@.subrange(from as int, to as int),
        ),
{
    let ghost s = chars@.subrange(from as int, to as int);
    let mut a: usize = from;
    while a < to && is_white_space(chars[a])
        invariant
            from <= a <= to <= chars@.len(),
            s == chars@.subrange(from as int, to as int),
            leading_spaces(s, 0) == (a - from) + leading_spaces(s, a - from),
        decreases to - a,
    {
        a += 1;
    }
    let ghost rest = trim_front(s);
    proof {
        assert(leading_spaces(s, a - from) == 0);
        assert(rest =~= chars@.subrange(a as int, to as int));
    }
    let mut b: usize = to;
    proof {
        assert(rest.take(rest.len() as int) =~= rest);
    }
    while b > a && is_white_space(chars[b - 1])
        invariant
            a <= b <= to <= chars@.len(),
            rest == chars@.subrange(a as int, to as int),
            trailing_spaces(rest) == (to - b) + trailing_spaces(rest.take(b - a)),
        decreases b,
    {
        proof {
            assert(rest.take(b - a).last() == chars@[b - 1]);
            assert(rest.take(b - a).drop_last() =~= rest.take(b - a - 1));
        }
        b -= 1;
    }
    proof {
        if b > a {
            assert(rest.take(b - a).last() == chars@[b - 1]);
        }
        assert(trailing_spaces(rest.take(b - a)) == 0);
        assert(chars@.subrange(a as int, b as int) =~= rest.take(rest.len() - trailing_spaces(rest)));
    }
    (a, b)
}

/// Tells whether two texts hold the same characters.
pub fn same_text(a: &str, b: &str) -> (r: bool)
    ensures
        r == (a@ == b@),
{
    let x = chars_of(a);
    let y = chars_of(b);
    assert(x@.subrange(0, x@.len() as int) =~= x@);
    same_chars(x.as_slice(), 0, x.len(), y.as_slice())
}

/// Tells whether `chars[from..to]` holds exactly the characters of
/// `other`.
pub fn same_chars(chars: &[char], from: usize, to: usize, other: &[char]) -> (r: bool)
    requires
        from <= to <= chars@.len(),
    ensures
        r == (chars@.subrange(from as int, to as int) == other@),
{
    let ghost part = chars@.subrange(from as int, to as int);
    if to - from != other.len() {
        return false;
    }
    let mut i: usize = 0;
    while i < other.len()
        invariant
            i <= other.len(),
            from <= to <= chars@.len(),
            to - from == other@.len(),
            part == chars@.subrange(from as int, to as int),
            forall|k: int| 0 <= k < i ==> part[k] == other@[k],
        decreases other.len() - i,
    {
        if chars[from + i] != other[i] {
            assert(part[i as int] != other@[i as int]);
            return false;
        }
        i += 1;
    }
    assert(part =~= other@);
    true
}

} // verus!
