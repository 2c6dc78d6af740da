use vstd::prelude::*;

verus! {

/// `c` is an ASCII decimal digit.
pub open spec fn is_digit(c: char) -> bool {
    '0' <= c && c <= '9'
}

/// The value of a decimal digit.
pub open spec fn digit_value(c: char) -> int {
    (c as u32) - 48
}

/// The digit character for `d` (`0 <= d < 10`).
pub open spec fn digit_char(d: int) -> char {
    (d + 48) as u32 as char
}

/// Every character of `s` is a decimal digit.
pub open spec fn all_digits(s: Seq<char>) -> bool {
    forall|i: int| 0 <= i < s.len() ==> is_digit(#[trigger] s[i])
}

/// The number that the decimal digits `s` denote.
pub open spec fn digits_value(s: Seq<char>) -> int
    decreases s.len(),
{
    if s.len() == 0 {
        0
    } else {
        digits_value(s.drop_last()) * 10 + digit_value(s.last())
    }
}

/// What `str::parse` makes of `s` for a signed integer type of unbounded
/// range: an optional `+` or `-`, then one or more decimal digits.
pub open spec fn parse_int(s: Seq<char>) -> Option<int> {
    if s.len() > 0 && (s[0] == '+' || s[0] == '-') {
        let d = s.drop_first();
        if d.len() > 0 && all_digits(d) {
            Some(
                if s[0] == '-' {
                    -digits_value(d)
                } else {
                    digits_value(d)
                },
            )
        } else {
            None
        }
    } else if s.len() > 0 && all_digits(s) {
        Some(digits_value(s))
    } else {
        None
    }
}

/// What `str::parse::<i64>` returns, `Ok` taken as `Some`.
pub open spec fn parse_i64_spec(s: Seq<char>) -> Option<i64> {
    match parse_int(s) {
        Some(v) => if i64::MIN <= v <= i64::MAX {
            Some(v as i64)
        } else {
            None
        },
        None => None,
    }
}

/// What `str::parse::<i32>` returns, `Ok` taken as `Some`.
pub open spec fn parse_i32_spec(s: Seq<char>) -> Option<i32> {
    match parse_int(s) {
        Some(v) => if i32::MIN <= v <= i32::MAX {
            Some(v as i32)
        } else {
            None
        },
        None => None,
    }
}

/// Digit values are non-negative, and a longer run of digits is worth at
/// least as much as its prefix.
pub proof fn lemma_digits_value_prefix(s: Seq<char>, i: int)
    requires
        all_digits(s),
        0 <= i <= s.len(),
    ensures
        0 <= digits_value(s.take(i)) <= digits_value(s),
    decreases s.len(),
{
    if s.len() > 0 {
        if i == s.len() {
            assert(s.take(i) =~= s);
            lemma_digits_value_prefix(s.drop_last(), s.len() - 1);
            assert(s.drop_last().take(s.len() - 1) =~= s.drop_last());
        } else {
            lemma_digits_value_prefix(s.drop_last(), i);
            assert(s.drop_last().take(i) =~= s.take(i));
            lemma_digits_value_prefix(s.drop_last(), s.len() - 1);
            assert(s.drop_last().take(s.len() - 1) =~= s.drop_last());
        }
    } else {
        assert(s.take(i) =~= s);
    }
}

/// The magnitude written by the digits of `s` from `start` to `end`, when it
/// is at most `2^63`; `None` when it is larger.
fn digits_magnitude(s: &Vec<char>, start: usize) -> (r: Option<u64>)
    requires
        start < s.len(),
        all_digits(s@.skip(start as int)),
    ensures
        match r {
            Some(m) => m == digits_value(s@.skip(start as int)) && m <= 0x8000_0000_0000_0000u64,
            None => digits_value(s@.skip(start as int)) > 0x8000_0000_0000_0000u64,
        },
{
    let ghost d = s@.skip(start as int);
    let mut acc: u64 = 0;
    let mut i = start;
    assert(d.take(0) =~= Seq::<char>::empty());
    while i < s.len()
        invariant
            start <= i <= s.len(),
            d == s@.skip(start as int),
            all_digits(d),
            acc == digits_value(d.take(i - start)),
            acc <= 0x8000_0000_0000_0000u64,
        decreases s.len() - i,
    {
        let c = s[i];
        assert(is_digit(d[i - start]));
        let v = (c as u32 - 48) as u64;
        assert(d.take(i - start + 1).drop_last() =~= d.take(i - start));
        if acc > 0x0CCC_CCCC_CCCC_CCCCu64 || acc * 10 + v > 0x8000_0000_0000_0000u64 {
            proof {
                lemma_digits_value_prefix(d, i - start + 1);
            }
            return None;
        }
        acc = acc * 10 + v;
        i = i + 1;
    }
    assert(d.take(i - start) =~= d);
    Some(acc)
}

/// Whether every character of `s` from `start` on is a digit.
fn digits_from(s: &Vec<char>, start: usize) -> (r: bool)
    requires
        start <= s.len(),
    ensures
        r == all_digits(s@.skip(start as int)),
{
    let mut i = start;
    while i < s.len()
        invariant
            start <= i <= s.len(),
            forall|k: int| start <= k < i ==> is_digit(s@[k]),
        decreases s.len() - i,
    {
        if !('0' <= s[i] && s[i] <= '9') {
            assert(!is_digit(s@.skip(start as int)[i - start]));
            return false;
        }
        i = i + 1;
    }
    assert forall|k: int| 0 <= k < s@.skip(start as int).len() implies is_digit(
        #[trigger] s@.skip(start as int)[k],
    ) by {
        assert(s@.skip(start as int)[k] == s@[start + k]);
    }
    true
}

/// `str::parse::<i64>` on the characters `s`, `Ok` taken as `Some`.
pub fn parse_i64_chars(s: &Vec<char>) -> (r: Option<i64>)
    ensures
        r == parse_i64_spec(s@),
{
    if s.len() == 0 {
        return None;
    }
    let signed = s[0] == '+' || s[0] == '-';
    let start: usize = if signed {
        1
    } else {
        0
    };
    assert(s@.skip(1) =~= s@.drop_first());
    assert(s@.skip(0) =~= s@);
    if start >= s.len() || !digits_from(s, start) {
        return None;
    }
    match digits_magnitude(s, start) {
        None => None,
        Some(m) => {
            if s[0] == '-' {
                if m == 0x8000_0000_0000_0000u64 {
                    Some(i64::MIN)
                } else {
                    Some(-(m as i64))
                }
            } else if m == 0x8000_0000_0000_0000u64 {
                None
            } else {
                Some(m as i64)
            }
        },
    }
}

/// `str::parse::<i64>`, `Ok` taken as `Some`.
pub fn parse_i64(s: &str) -> (r: Option<i64>)
    ensures
        r == parse_i64_spec(s@),
{
    let v = crate::text::chars_of(s);
    parse_i64_chars(&v)
}

/// `str::parse::<i32>` on the characters `s`, `Ok` taken as `Some`.
pub fn parse_i32_chars(s: &Vec<char>) -> (r: Option<i32>)
    ensures
        r == parse_i32_spec(s@),
{
    match parse_i64_chars(s) {
        Some(v) => if i32::MIN as i64 <= v && v <= i32::MAX as i64 {
            Some(v as i32)
        } else {
            None
        },
        None => None,
    }
}

/// `str::parse::<i32>`, `Ok` taken as `Some`.
pub fn parse_i32(s: &str) -> (r: Option<i32>)
    ensures
        r == parse_i32_spec(s@),
{
    let v = crate::text::chars_of(s);
    parse_i32_chars(&v)
}

// ---------------------------------------------------------------------------
// Formatting
// ---------------------------------------------------------------------------

/// The decimal digits of `n`, as `Display` writes a non-negative integer.
pub open spec fn decimal(n: nat) -> Seq<char>
    decreases n,
{
    if n < 10 {
        seq![digit_char(n as int)]
    } else {
        decimal(n / 10).push(digit_char((n % 10) as int))
    }
}

/// The decimal form of a signed integer, as `Display` writes it.
pub open spec fn signed_decimal(n: int) -> Seq<char> {
    if n < 0 {
        seq!['-'] + decimal((-n) as nat)
    } else {
        decimal(n as nat)
    }
}

/// `s` padded on the left with zeros to at least `width` characters, as the
/// format `{:0width$}` does for a non-negative integer.
pub open spec fn zero_pad(s: Seq<char>, width: nat) -> Seq<char> {
    if s.len() >= width {
        s
    } else {
        Seq::new((width - s.len()) as nat, |i: int| '0') + s
    }
}

/// The decimal digits of `n` (`n.to_string()` for an unsigned integer).
pub fn format_u128(n: u128) -> (r: Vec<char>)
    ensures
        r@ == decimal(n as nat),
    decreases n,
{
    if n < 10 {
        let mut r: Vec<char> = Vec::new();
        r.push(crate::text::char_from_code((n as u32) + 48));
        assert(r@ =~= decimal(n as nat));
        r
    } else {
        let mut r = format_u128(n / 10);
        r.push(crate::text::char_from_code(((n % 10) as u32) + 48));
        assert(r@ =~= decimal(n as nat));
        r
    }
}

/// The decimal form of `n` (`n.to_string()` for a signed integer).
pub fn format_i64(n: i64) -> (r: Vec<char>)
    ensures
        r@ == signed_decimal(n as int),
{
    if n < 0 {
        let m: u128 = (-(n as i128)) as u128;
        let d = format_u128(m);
        let mut r: Vec<char> = Vec::new();
        r.push('-');
        let r = crate::text::concat_chars(&r, &d);
        assert(r@ =~= signed_decimal(n as int));
        r
    } else {
        format_u128(n as u128)
    }
}

/// The decimal form of `n` padded with zeros to `width` characters.
pub fn format_u128_padded(n: u128, width: usize) -> (r: Vec<char>)
    ensures
        r@ == zero_pad(decimal(n as nat), width as nat),
{
    let d = format_u128(n);
    if d.len() >= width {
        return d;
    }
    let mut r: Vec<char> = Vec::new();
    let pad = width - d.len();
    while r.len() < pad
        invariant
            r.len() <= pad,
            forall|i: int| 0 <= i < r.len() ==> r@[i] == '0',
        decreases pad - r.len(),
    {
        r.push('0');
    }
    let r2 = crate::text::concat_chars(&r, &d);
    assert(r@ =~= Seq::new(pad as nat, |i: int| '0'));
    r2
}

/// The digits of a number are all decimal digits, and read back as the
/// number.
pub proof fn lemma_decimal_digits(n: nat)
    ensures
        decimal(n).len() > 0,
        all_digits(decimal(n)),
        digits_value(decimal(n)) == n,
        decimal(n)[0] != '-' && decimal(n)[0] != '+',
    decreases n,
{
    if n < 10 {
        let d = decimal(n);
        assert(d.drop_last() =~= Seq::<char>::empty());
        assert(digit_value(digit_char(n as int)) == n);
        assert(digits_value(d) == digits_value(d.drop_last()) * 10 + digit_value(d.last()));
        assert(digits_value(Seq::<char>::empty()) == 0);
    } else {
        lemma_decimal_digits(n / 10);
        let d = decimal(n);
        assert(d.drop_last() =~= decimal(n / 10));
        assert(digit_value(digit_char((n % 10) as int)) == n % 10);
        assert(d.last() == digit_char((n % 10) as int));
        assert((n / 10) * 10 + n % 10 == n);
        assert(digits_value(d) == digits_value(d.drop_last()) * 10 + digit_value(d.last()));
        assert forall|i: int| 0 <= i < d.len() implies is_digit(#[trigger] d[i]) by {
            if i < d.len() - 1 {
                assert(d[i] == decimal(n / 10)[i]);
            }
        }
    }
}

/// Writing an integer in decimal and parsing it back gives the integer.
pub proof fn lemma_parse_signed_decimal(n: int)
    ensures
        parse_int(signed_decimal(n)) == Some(n),
{
    if n < 0 {
        let m = (-n) as nat;
        lemma_decimal_digits(m);
        let s = signed_decimal(n);
        assert(s.drop_first() =~= decimal(m));
    } else {
        lemma_decimal_digits(n as nat);
    }
}

} // verus!
