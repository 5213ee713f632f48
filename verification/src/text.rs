//! Character-level helpers shared by the parsers and printers.
use vstd::prelude::*;

verus! {

/// Appends one character to a string (`String::push`).
#[verifier::external_body]
pub fn push_char(s: &mut String, c: char)
    ensures
        final(s)@ == old(s)@.push(c),
{
    s.push(c)
}

/// The characters of a string, in order.
pub fn chars_of(s: &str) -> (r: Vec<char>)
    ensures
        r@ == s@,
{
    let n = s.unicode_len();
    let mut v: Vec<char> = Vec::new();
    let mut i: usize = 0;
    while i < n
        invariant
            n == s@.len(),
            i <= n,
            v@ == s@.subrange(0, i as int),
        decreases n - i,
    {
        v.push(s.get_char(i));
        i = i + 1;
    }
    v
}

/// A string made of the given characters.
pub fn string_of(cs: &[char]) -> (r: String)
    ensures
        r@ == cs@,
{
    let mut out = String::new();
    let mut i: usize = 0;
    while i < cs.len()
        invariant
            i <= cs.len(),
            out@ == cs@.subrange(0, i as int),
        decreases cs.len() - i,
    {
        push_char(&mut out, cs[i]);
        i = i + 1;
    }
    out
}

/// The characters `cs[from..to]` as a string.
pub fn string_of_range(cs: &[char], from: usize, to: usize) -> (r: String)
    requires
        from <= to <= cs@.len(),
    ensures
        r@ == cs@.subrange(from as int, to as int),
{
    let mut out = String::new();
    let mut i: usize = from;
    while i < to
        invariant
            from <= i <= to,
            to <= cs@.len(),
            out@ == cs@.subrange(from as int, i as int),
        decreases to - i,
    {
        push_char(&mut out, cs[i]);
        i = i + 1;
    }
    out
}

/// Appends all characters of `t` to `s`.
pub fn push_str(s: &mut String, t: &str)
    ensures
        final(s)@ == old(s)@ + t@,
{
    s.append(t);
}

/// Whether `c` occurs in `s`.
pub open spec fn has_char(s: Seq<char>, c: char) -> bool {
    exists|i: int| 0 <= i < s.len() && s[i] == c
}

/// Whether `c` occurs in the string.
pub fn contains_char(s: &str, c: char) -> (r: bool)
    ensures
        r == has_char(s@, c),
{
    let n = s.unicode_len();
    let mut i: usize = 0;
    while i < n
        invariant
            n == s@.len(),
            i <= n,
            forall|j: int| 0 <= j < i ==> s@[j] != c,
        decreases n - i,
    {
        if s.get_char(i) == c {
            return true;
        }
        i = i + 1;
    }
    false
}

/// The decimal digit for `d < 10`.
pub open spec fn digit_char(d: nat) -> char {
    (('0' as u8) + d) as char
}

/// Decimal notation of `n`, without leading zeros.
pub open spec fn decimal(n: nat) -> Seq<char>
    decreases n,
{
    if n < 10 {
        seq![digit_char(n)]
    } else {
        decimal(n / 10) + seq![digit_char(n % 10)]
    }
}

/// Decimal notation of `n`, zero-padded to at least two digits.
pub open spec fn two_digits(n: nat) -> Seq<char> {
    if n < 10 {
        seq!['0', digit_char(n)]
    } else {
        decimal(n)
    }
}

/// Decimal notation of `n < 10000`, zero-padded to four digits.
pub open spec fn four_digits(n: nat) -> Seq<char> {
    two_digits(n / 100) + two_digits(n % 100)
}

/// The character for a digit.
pub fn digit(d: u64) -> (c: char)
    requires
        d < 10,
    ensures
        c == digit_char(d as nat),
{
    let b: u8 = 48u8 + (d as u8);
    b as char
}

/// Appends `n` in decimal notation.
pub fn push_decimal(out: &mut String, n: u64)
    ensures
        final(out)@ == old(out)@ + decimal(n as nat),
    decreases n,
{
    if n < 10 {
        push_char(out, digit(n));
    } else {
        push_decimal(out, n / 10);
        push_char(out, digit(n % 10));
    }
}

/// Decimal notation of `n`, with a `-` before a negative one.
pub open spec fn signed_decimal(n: int) -> Seq<char> {
    if n < 0 {
        seq!['-'] + decimal((-n) as nat)
    } else {
        decimal(n as nat)
    }
}

/// Appends `n` in decimal notation, with a `-` before a negative one.
pub fn push_signed(out: &mut String, n: i32)
    ensures
        final(out)@ == old(out)@ + signed_decimal(n as int),
{
    if n < 0 {
        push_char(out, '-');
        let m: i64 = -(n as i64);
        push_decimal(out, m as u64);
        proof {
            assert(m as u64 as nat == (-n) as nat);
        }
    } else {
        push_decimal(out, n as u64);
    }
}

/// Appends `n` in decimal notation, zero-padded to two digits.
pub fn push_two_digits(out: &mut String, n: u64)
    ensures
        final(out)@ == old(out)@ + two_digits(n as nat),
{
    if n < 10 {
        push_char(out, '0');
        push_char(out, digit(n));
    } else {
        push_decimal(out, n);
    }
}

// ---------------------------------------------------------------------------
// Reading decimal integers, as `str::parse` does for the integer types

/// Why a text is not an integer of the wanted type (`std::num::IntErrorKind`).
#[derive(Debug, Clone, Copy, PartialEq, Eq, Structural)]
pub enum IntErrorKind {
    Empty,
    InvalidDigit,
    PosOverflow,
    NegOverflow,
}

/// Whether `c` is a decimal digit.
pub open spec fn is_digit(c: char) -> bool {
    '0' <= c <= '9'
}

/// The value of a decimal digit.
pub open spec fn digit_value(c: char) -> int {
    (c as int) - ('0' as int)
}

/// Reads digits from `i` on, adding to `acc`, failing above `max`.
pub open spec fn digits_up(s: Seq<char>, i: int, acc: int, max: int) -> Result<int, IntErrorKind>
    decreases s.len() - i,
{
    if i >= s.len() {
        Ok(acc)
    } else if !is_digit(s[i]) {
        Err(IntErrorKind::InvalidDigit)
    } else if acc * 10 + digit_value(s[i]) > max {
        Err(IntErrorKind::PosOverflow)
    } else {
        digits_up(s, i + 1, acc * 10 + digit_value(s[i]), max)
    }
}

/// Reads digits from `i` on, subtracting from `acc`, failing below `min`.
pub open spec fn digits_down(s: Seq<char>, i: int, acc: int, min: int) -> Result<int, IntErrorKind>
    decreases s.len() - i,
{
    if i >= s.len() {
        Ok(acc)
    } else if !is_digit(s[i]) {
        Err(IntErrorKind::InvalidDigit)
    } else if acc * 10 - digit_value(s[i]) < min {
        Err(IntErrorKind::NegOverflow)
    } else {
        digits_down(s, i + 1, acc * 10 - digit_value(s[i]), min)
    }
}

/// The unsigned integer up to `max` that `s` denotes: an optional `+`, then
/// decimal digits.
pub open spec fn unsigned_value(s: Seq<char>, max: int) -> Result<int, IntErrorKind> {
    if s.len() == 0 {
        Err(IntErrorKind::Empty)
    } else if s[0] == '+' || s[0] == '-' {
        if s.len() == 1 {
            Err(IntErrorKind::InvalidDigit)
        } else if s[0] == '+' {
            digits_up(s, 1, 0, max)
        } else {
            digits_up(s, 0, 0, max)
        }
    } else {
        digits_up(s, 0, 0, max)
    }
}

/// The signed integer in `min..=max` that `s` denotes: an optional sign, then
/// decimal digits.
pub open spec fn signed_value(s: Seq<char>, min: int, max: int) -> Result<int, IntErrorKind> {
    if s.len() == 0 {
        Err(IntErrorKind::Empty)
    } else if s[0] == '+' || s[0] == '-' {
        if s.len() == 1 {
            Err(IntErrorKind::InvalidDigit)
        } else if s[0] == '+' {
            digits_up(s, 1, 0, max)
        } else {
            digits_down(s, 1, 0, min)
        }
    } else {
        digits_up(s, 0, 0, max)
    }
}

/// Reads digits from `i` on, as [`digits_up`].
fn read_digits_up(s: &str, i: usize, max: u64) -> (r: Result<u64, IntErrorKind>)
    requires
        i <= s@.len(),
        max <= u32::MAX,
    ensures
        match r {
            Ok(v) => digits_up(s@, i as int, 0, max as int) == Ok::<int, IntErrorKind>(v as int),
            Err(e) => digits_up(s@, i as int, 0, max as int) == Err::<int, IntErrorKind>(e),
        },
        r matches Ok(v) ==> v <= max,
{
    let n = s.unicode_len();
    let mut acc: u64 = 0;
    let mut k: usize = i;
    while k < n
        invariant
            n == s@.len(),
            i <= k <= n,
            acc <= max,
            max <= u32::MAX,
            digits_up(s@, i as int, 0, max as int) == digits_up(s@, k as int, acc as int, max as int),
        decreases n - k,
    {
        let c = s.get_char(k);
        if !('0' <= c && c <= '9') {
            return Err(IntErrorKind::InvalidDigit);
        }
        let d: u64 = (c as u64) - ('0' as u64);
        if acc * 10 + d > max {
            return Err(IntErrorKind::PosOverflow);
        }
        acc = acc * 10 + d;
        k = k + 1;
    }
    Ok(acc)
}

/// Reads digits from `i` on, as [`digits_down`] with the bound `-bound`.
fn read_digits_down(s: &str, i: usize, bound: u64) -> (r: Result<u64, IntErrorKind>)
    requires
        i <= s@.len(),
        bound <= u32::MAX + 1,
    ensures
        match r {
            Ok(v) => digits_down(s@, i as int, 0, -(bound as int)) == Ok::<int, IntErrorKind>(
                -(v as int),
            ),
            Err(e) => digits_down(s@, i as int, 0, -(bound as int)) == Err::<int, IntErrorKind>(e),
        },
        r matches Ok(v) ==> v <= bound,
{
    let n = s.unicode_len();
    let mut acc: u64 = 0;
    let mut k: usize = i;
    while k < n
        invariant
            n == s@.len(),
            i <= k <= n,
            acc <= bound,
            bound <= u32::MAX + 1,
            digits_down(s@, i as int, 0, -(bound as int)) == digits_down(
                s@,
                k as int,
                -(acc as int),
                -(bound as int),
            ),
        decreases n - k,
    {
        let c = s.get_char(k);
        if !('0' <= c && c <= '9') {
            return Err(IntErrorKind::InvalidDigit);
        }
        let d: u64 = (c as u64) - ('0' as u64);
        if acc * 10 + d > bound {
            return Err(IntErrorKind::NegOverflow);
        }
        acc = acc * 10 + d;
        k = k + 1;
    }
    Ok(acc)
}

/// Parses an unsigned decimal integer up to `max` (as `str::parse` does for
/// `u16` or `u32`).
pub fn parse_unsigned(s: &str, max: u64) -> (r: Result<u64, IntErrorKind>)
    requires
        max <= u32::MAX,
    ensures
        match r {
            Ok(v) => unsigned_value(s@, max as int) == Ok::<int, IntErrorKind>(v as int),
            Err(e) => unsigned_value(s@, max as int) == Err::<int, IntErrorKind>(e),
        },
        r matches Ok(v) ==> v <= max,
{
    let n = s.unicode_len();
    if n == 0 {
        return Err(IntErrorKind::Empty);
    }
    let c = s.get_char(0);
    if c == '+' || c == '-' {
        if n == 1 {
            return Err(IntErrorKind::InvalidDigit);
        }
        if c == '+' {
            return read_digits_up(s, 1, max);
        }
    }
    read_digits_up(s, 0, max)
}

/// Parses a signed decimal `i32` (as `str::parse::<i32>` does).
pub fn parse_i32(s: &str) -> (r: Result<i32, IntErrorKind>)
    ensures
        match r {
            Ok(v) => signed_value(s@, i32::MIN as int, i32::MAX as int) == Ok::<int, IntErrorKind>(
                v as int,
            ),
            Err(e) => signed_value(s@, i32::MIN as int, i32::MAX as int) == Err::<
                int,
                IntErrorKind,
            >(e),
        },
{
    let n = s.unicode_len();
    if n == 0 {
        return Err(IntErrorKind::Empty);
    }
    let c = s.get_char(0);
    if (c == '+' || c == '-') && n == 1 {
        return Err(IntErrorKind::InvalidDigit);
    }
    if c == '-' {
        let v = read_digits_down(s, 1, 2147483648)?;
        if v == 2147483648 {
            Ok(i32::MIN)
        } else {
            Ok(-(v as i32))
        }
    } else if c == '+' {
        let v = read_digits_up(s, 1, 2147483647)?;
        Ok(v as i32)
    } else {
        let v = read_digits_up(s, 0, 2147483647)?;
        Ok(v as i32)
    }
}

// ---------------------------------------------------------------------------
// Trimming white space, as `str::trim` does

/// Whether a character has Unicode's `White_Space` property.
pub uninterp spec fn white_space(c: char) -> bool;

/// Whether a character has Unicode's `White_Space` property
/// (`char::is_whitespace`); the property's table is named, not copied.
#[verifier::external_body]
pub fn is_white_space(c: char) -> (r: bool)
    ensures
        r == white_space(c),
{
    c.is_whitespace()
}

/// Index of the first character at or after `i` that is not white space,
/// or the length.
pub open spec fn skip_white_from(s: Seq<char>, i: int) -> int
    decreases s.len() - i,
{
    if i >= s.len() {
        s.len() as int
    } else if white_space(s[i]) {
        skip_white_from(s, i + 1)
    } else {
        i
    }
}

/// End of `s.take(j)` once its trailing white space is dropped.
pub open spec fn drop_white_before(s: Seq<char>, j: int) -> int
    decreases j,
{
    if j <= 0 {
        0
    } else if white_space(s[j - 1]) {
        drop_white_before(s, j - 1)
    } else {
        j
    }
}

/// `s` without its leading and trailing white space.
pub open spec fn trim_spec(s: Seq<char>) -> Seq<char> {
    let a = skip_white_from(s, 0);
    if a >= s.len() {
        Seq::empty()
    } else {
        s.subrange(a, drop_white_before(s, s.len() as int))
    }
}

/// `s` without its leading and trailing white space.
pub fn trim(s: &str) -> (r: String)
    ensures
        r@ == trim_spec(s@),
{
    let n = s.unicode_len();
    let mut a: usize = 0;
    while a < n && is_white_space(s.get_char(a))
        invariant
            n == s@.len(),
            a <= n,
            skip_white_from(s@, 0) == skip_white_from(s@, a as int),
        decreases n - a,
    {
        a = a + 1;
    }
    if a >= n {
        return String::new();
    }
    let mut b: usize = n;
    while b > a && is_white_space(s.get_char(b - 1))
        invariant
            n == s@.len(),
            a < b <= n,
            a < n,
            !white_space(s@[a as int]),
            drop_white_before(s@, n as int) == drop_white_before(s@, b as int),
        decreases b,
    {
        b = b - 1;
    }
    s.substring_char(a, b).to_owned()
}


/// The message of an integer error, as `std::num::ParseIntError` writes it.
pub open spec fn int_error_text(k: IntErrorKind) -> Seq<char> {
    match k {
        IntErrorKind::Empty => "cannot parse integer from empty string"@,
        IntErrorKind::InvalidDigit => "invalid digit found in string"@,
        IntErrorKind::PosOverflow => "number too large to fit in target type"@,
        IntErrorKind::NegOverflow => "number too small to fit in target type"@,
    }
}

impl IntErrorKind {
    /// The message of the error (see [`int_error_text`]).
    pub fn message(&self) -> (r: String)
        ensures
            r@ == int_error_text(*self),
    {
        match self {
            IntErrorKind::Empty => "cannot parse integer from empty string".to_owned(),
            IntErrorKind::InvalidDigit => "invalid digit found in string".to_owned(),
            IntErrorKind::PosOverflow => "number too large to fit in target type".to_owned(),
            IntErrorKind::NegOverflow => "number too small to fit in target type".to_owned(),
        }
    }
}


/// Reading one more digit after digits that read to `v`.
proof fn lemma_digits_up_push(s: Seq<char>, c: char, i: int, acc: int, max: int, v: int)
    requires
        0 <= i <= s.len(),
        is_digit(c),
        digits_up(s, i, acc, max) == Ok::<int, IntErrorKind>(v),
    ensures
        digits_up(s.push(c), i, acc, max) == (if v * 10 + digit_value(c) > max {
            Err::<int, IntErrorKind>(IntErrorKind::PosOverflow)
        } else {
            Ok::<int, IntErrorKind>(v * 10 + digit_value(c))
        }),
    decreases s.len() - i,
{
    let t = s.push(c);
    if i < s.len() {
        assert(t[i] == s[i]);
        assert(is_digit(s[i]) && acc * 10 + digit_value(s[i]) <= max);
        assert(digits_up(s, i + 1, acc * 10 + digit_value(s[i]), max) == Ok::<int, IntErrorKind>(v));
        lemma_digits_up_push(s, c, i + 1, acc * 10 + digit_value(s[i]), max, v);
    } else {
        assert(v == acc);
        assert(t[i] == c);
        if acc * 10 + digit_value(c) <= max {
            assert(digits_up(t, i + 1, acc * 10 + digit_value(c), max) == Ok::<int, IntErrorKind>(
                acc * 10 + digit_value(c),
            ));
        }
    }
}

/// Decimal notation is digits only, and reads back as its number.
pub proof fn lemma_decimal_reads_back(n: nat, max: int)
    requires
        n <= max,
    ensures
        forall|j: int| 0 <= j < decimal(n).len() ==> is_digit(#[trigger] decimal(n)[j]),
        decimal(n).len() > 0,
        unsigned_value(decimal(n), max) == Ok::<int, IntErrorKind>(n as int),
    decreases n,
{
    if n < 10 {
        assert(decimal(n) == seq![digit_char(n)]);
        assert(digit_value(digit_char(n)) == n);
        assert(is_digit(digit_char(n)));
        assert(digits_up(decimal(n), 1, n as int, max) == Ok::<int, IntErrorKind>(n as int));
    } else {
        lemma_decimal_reads_back(n / 10, max);
        let d = digit_char(n % 10);
        assert(digit_value(d) == n % 10);
        assert(decimal(n) == decimal(n / 10).push(d));
        lemma_digits_up_push(decimal(n / 10), d, 0, 0, max, (n / 10) as int);
        assert(decimal(n / 10)[0] == decimal(n)[0]);
        assert(is_digit(decimal(n)[0]));
        assert(decimal(n)[0] != '+' && decimal(n)[0] != '-');
        assert((n / 10) * 10 + n % 10 == n);
        assert forall|j: int| 0 <= j < decimal(n).len() implies is_digit(#[trigger] decimal(n)[j]) by {
            if j < decimal(n / 10).len() {
                assert(decimal(n)[j] == decimal(n / 10)[j]);
            }
        }
    }
}

} // verus!
