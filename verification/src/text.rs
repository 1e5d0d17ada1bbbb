//! Characters, decimal numbers and small pieces of text handling that the
//! rest of the engine builds on.

use vstd::prelude::*;

verus! {

/// `String::push` appends one character to the end of the string.
pub assume_specification[ String::push ](s: &mut String, c: char)
    ensures
        final(s)@ == old(s)@.push(c),
;

/// The characters of `s`, in order.
pub fn chars_of(s: &str) -> (out: Vec<char>)
    ensures
        out@ == s@,
{
    let mut out: Vec<char> = Vec::new();
    for c in it: s.chars()
        invariant
            out@ == it.seq().take(it.index() as int),
            it.seq() == s@,
    {
        out.push(c);
    }
    out
}

/// The string made of the characters `chars[from..to]`.
pub fn string_of_range(chars: &Vec<char>, from: usize, to: usize) -> (out: String)
    requires
        from <= to <= chars.len(),
    ensures
        out@ == chars@.subrange(from as int, to as int),
{
    let mut out = String::new();
    let mut i: usize = from;
    while i < to
        invariant
            from <= i <= to <= chars.len(),
            out@ == chars@.subrange(from as int, i as int),
        decreases to - i,
    {
        out.push(chars[i]);
        i = i + 1;
    }
    out
}

/// The string made of the characters of `chars`, in order.
pub fn string_of(chars: &Vec<char>) -> (out: String)
    ensures
        out@ == chars@,
{
    let out = string_of_range(chars, 0, chars.len());
    assert(chars@.subrange(0, chars@.len() as int) == chars@);
    out
}

/// Appends the characters of `s` to `out`.
pub fn push_str_chars(out: &mut Vec<char>, s: &str)
    ensures
        final(out)@ == old(out)@ + s@,
{
    for c in it: s.chars()
        invariant
            out@ == old(out)@ + it.seq().take(it.index() as int),
            it.seq() == s@,
    {
        out.push(c);
    }
}

/// Whether two pieces of text hold the same characters.
pub fn same_text(a: &str, b: &str) -> (same: bool)
    ensures
        same == (a@ == b@),
{
    let x: String = a.to_owned();
    let y: String = b.to_owned();
    x == y
}

// ---------------------------------------------------------------------
// Decimal digits
// ---------------------------------------------------------------------

/// Whether `c` is one of the ten ASCII decimal digits.
pub open spec fn is_digit(c: char) -> bool {
    '0' <= c && c <= '9'
}

/// The value of the decimal digit `c`.
pub open spec fn digit_value(c: char) -> int {
    c as u32 - '0' as u32
}

/// The decimal digit that stands for `d`, for `d` from 0 to 9.
pub open spec fn digit_char(d: int) -> char {
    if d == 0 {
        '0'
    } else if d == 1 {
        '1'
    } else if d == 2 {
        '2'
    } else if d == 3 {
        '3'
    } else if d == 4 {
        '4'
    } else if d == 5 {
        '5'
    } else if d == 6 {
        '6'
    } else if d == 7 {
        '7'
    } else if d == 8 {
        '8'
    } else {
        '9'
    }
}

/// Whether every character of `s` is a decimal digit.
pub open spec fn all_digits(s: Seq<char>) -> bool {
    forall|i: int| 0 <= i < s.len() ==> is_digit(#[trigger] s[i])
}

/// The number that the digit string `s` writes in base ten; 0 for the
/// empty string.
pub open spec fn decimal_value(s: Seq<char>) -> int
    decreases s.len(),
{
    if s.len() == 0 {
        0
    } else {
        10 * decimal_value(s.drop_last()) + digit_value(s.last())
    }
}

/// The shortest decimal writing of `n`.
pub open spec fn decimal_digits(n: nat) -> Seq<char>
    decreases n,
{
    if n < 10 {
        seq![digit_char(n as int)]
    } else {
        decimal_digits(n / 10).push(digit_char((n % 10) as int))
    }
}

/// The decimal writing of `v`, with a leading `-` when it is negative.
pub open spec fn signed_decimal(v: int) -> Seq<char> {
    if v < 0 {
        seq!['-'] + decimal_digits((-v) as nat)
    } else {
        decimal_digits(v as nat)
    }
}

/// The value of the digit `c`, if it is one.
pub fn digit_of(c: char) -> (d: Option<u8>)
    ensures
        d is Some <==> is_digit(c),
        d matches Some(v) ==> v as int == digit_value(c) && v <= 9,
{
    if '0' <= c && c <= '9' {
        Some((c as u32 - '0' as u32) as u8)
    } else {
        None
    }
}

/// The digit that stands for `d`.
pub fn char_of_digit(d: u8) -> (c: char)
    requires
        d <= 9,
    ensures
        c == digit_char(d as int),
        is_digit(c),
        digit_value(c) == d,
{
    if d == 0 {
        '0'
    } else if d == 1 {
        '1'
    } else if d == 2 {
        '2'
    } else if d == 3 {
        '3'
    } else if d == 4 {
        '4'
    } else if d == 5 {
        '5'
    } else if d == 6 {
        '6'
    } else if d == 7 {
        '7'
    } else if d == 8 {
        '8'
    } else {
        '9'
    }
}

/// A prefix of a digit string writes a number no larger than the whole.
pub proof fn lemma_decimal_value_prefix(s: Seq<char>, k: int)
    requires
        all_digits(s),
        0 <= k <= s.len(),
    ensures
        0 <= decimal_value(s.take(k)) <= decimal_value(s),
    decreases s.len(),
{
    if s.len() == 0 {
        assert(s.take(k) == s);
    } else if k == s.len() {
        assert(s.take(k) == s);
        lemma_decimal_value_prefix(s.drop_last(), k - 1);
        assert(is_digit(s.last()));
    } else {
        assert(forall|i: int| 0 <= i < s.drop_last().len() ==> s.drop_last()[i] == s[i]);
        lemma_decimal_value_prefix(s.drop_last(), k);
        assert(s.drop_last().take(k) == s.take(k));
        assert(is_digit(s.last()));
    }
}

/// Writing a number in decimal and reading it back gives the number.
pub proof fn lemma_decimal_round_trip(n: nat)
    ensures
        decimal_digits(n).len() >= 1,
        all_digits(decimal_digits(n)),
        decimal_value(decimal_digits(n)) == n,
    decreases n,
{
    if n < 10 {
        let s = decimal_digits(n);
        assert(s.drop_last() == Seq::<char>::empty());
        assert(decimal_value(s.drop_last()) == 0);
    } else {
        lemma_decimal_round_trip(n / 10);
        let p = decimal_digits(n / 10);
        let s = decimal_digits(n);
        assert(s.drop_last() == p);
        assert(is_digit(digit_char((n % 10) as int)));
    }
}

/// Ten to the power `n`.
pub open spec fn pow10(n: nat) -> nat
    decreases n,
{
    if n == 0 {
        1
    } else {
        10 * pow10((n - 1) as nat)
    }
}

/// A string of `k` digits writes a number below ten to the power `k`.
pub proof fn lemma_decimal_value_bound(s: Seq<char>)
    requires
        all_digits(s),
    ensures
        0 <= decimal_value(s) < pow10(s.len()),
    decreases s.len(),
{
    if s.len() > 0 {
        assert(forall|i: int| 0 <= i < s.drop_last().len() ==> s.drop_last()[i] == s[i]);
        lemma_decimal_value_bound(s.drop_last());
        assert(is_digit(s.last()));
    }
}

/// `k` zeros.
pub open spec fn zeros(k: nat) -> Seq<char> {
    Seq::new(k, |i: int| '0')
}

/// The decimal writing of `n`, with zeros in front where it has fewer than
/// `width` digits.
pub open spec fn zero_padded(n: nat, width: nat) -> Seq<char> {
    let digits = decimal_digits(n);
    if digits.len() >= width {
        digits
    } else {
        zeros((width - digits.len()) as nat) + digits
    }
}

/// Zeros in front of a digit string do not change the number it writes.
pub proof fn lemma_decimal_value_leading_zeros(k: nat, s: Seq<char>)
    ensures
        decimal_value(zeros(k) + s) == decimal_value(s),
        all_digits(s) ==> all_digits(zeros(k) + s),
    decreases s.len(),
{
    let t = zeros(k) + s;
    if s.len() == 0 {
        assert(t == zeros(k));
        lemma_decimal_value_zeros(k);
    } else {
        assert(t.drop_last() == zeros(k) + s.drop_last());
        assert(t.last() == s.last());
        lemma_decimal_value_leading_zeros(k, s.drop_last());
    }
    if all_digits(s) {
        assert forall|i: int| 0 <= i < t.len() implies is_digit(#[trigger] t[i]) by {
            if i >= k {
                assert(t[i] == s[i - k]);
            }
        }
    }
}

/// A string of zeros writes zero.
pub proof fn lemma_decimal_value_zeros(k: nat)
    ensures
        decimal_value(zeros(k)) == 0,
    decreases k,
{
    if k > 0 {
        assert(zeros(k).drop_last() == zeros((k - 1) as nat));
        lemma_decimal_value_zeros((k - 1) as nat);
    }
}

/// The shortest decimal writing of a number below ten to the power `k` has
/// at most `k` digits.
pub proof fn lemma_decimal_digits_len(n: nat, k: nat)
    requires
        k >= 1,
        n < pow10(k),
    ensures
        decimal_digits(n).len() <= k,
    decreases n,
{
    if n >= 10 {
        assert(pow10(1) == 10) by {
            assert(pow10(0) == 1);
        }
        assert(k >= 2);
        lemma_decimal_digits_len(n / 10, (k - 1) as nat);
    }
}

/// Appends the decimal writing of `n` to `out`.
pub fn push_decimal(out: &mut Vec<char>, n: u64)
    ensures
        final(out)@ == old(out)@ + decimal_digits(n as nat),
    decreases n,
{
    if n >= 10 {
        push_decimal(out, n / 10);
    }
    out.push(char_of_digit((n % 10) as u8));
    assert(out@ == old(out)@ + decimal_digits(n as nat));
}

/// Appends the decimal writing of `v`, signed, to `out`.
pub fn push_signed_decimal(out: &mut Vec<char>, v: i64)
    ensures
        final(out)@ == old(out)@ + signed_decimal(v as int),
{
    if v < 0 {
        out.push('-');
        let magnitude: u64 = if v == i64::MIN {
            9223372036854775808u64
        } else {
            (-v) as u64
        };
        push_decimal(out, magnitude);
        assert(out@ == old(out)@ + signed_decimal(v as int));
    } else {
        push_decimal(out, v as u64);
    }
}

/// Appends the decimal writing of `n` to `out`, with zeros in front where it
/// has fewer than `width` digits.
pub fn push_zero_padded(out: &mut Vec<char>, n: u64, width: usize)
    ensures
        final(out)@ == old(out)@ + zero_padded(n as nat, width as nat),
{
    let mut digits: Vec<char> = Vec::new();
    push_decimal(&mut digits, n);
    assert(digits@ == decimal_digits(n as nat));
    let mut k: usize = digits.len();
    while k < width
        invariant
            digits@ == decimal_digits(n as nat),
            digits.len() <= k,
            k <= width || k == digits.len(),
            out@ == old(out)@ + zeros((k - digits.len()) as nat),
        decreases width - k,
    {
        out.push('0');
        assert(zeros((k - digits.len()) as nat).push('0') == zeros((k + 1 - digits.len()) as nat));
        k = k + 1;
    }
    let mut i: usize = 0;
    while i < digits.len()
        invariant
            i <= digits.len(),
            out@ == old(out)@ + zeros((k - digits.len()) as nat) + digits@.take(i as int),
        decreases digits.len() - i,
    {
        out.push(digits[i]);
        assert(digits@.take(i as int).push(digits@[i as int]) == digits@.take(i + 1));
        i = i + 1;
    }
    proof {
        assert(digits@.take(digits@.len() as int) == digits@);
        if digits.len() >= width {
            assert(zeros(0) + digits@ == digits@);
            assert(out@ == old(out)@ + digits@);
        } else {
            assert(out@ == old(out)@ + (zeros((width - digits.len()) as nat) + digits@));
        }
    }
}

} // verus!
