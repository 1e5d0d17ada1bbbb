//! Reading text: decimal numbers, surrounding white space, and fields
//! divided by a separator.

use vstd::prelude::*;
use crate::text::{all_digits, chars_of, decimal_value, digit_of, is_digit, lemma_decimal_value_prefix};

verus! {

// ---------------------------------------------------------------------
// Numbers
// ---------------------------------------------------------------------

/// The number written by `s` as an optional `+` followed by one or more
/// decimal digits; `None` for any other text.
pub open spec fn unsigned_value(s: Seq<char>) -> Option<int> {
    let digits = if s.len() > 0 && s[0] == '+' {
        s.drop_first()
    } else {
        s
    };
    if digits.len() > 0 && all_digits(digits) {
        Some(decimal_value(digits))
    } else {
        None
    }
}

/// The number written by `s` as an optional `+` or `-` followed by one or
/// more decimal digits; `None` for any other text.
pub open spec fn signed_value(s: Seq<char>) -> Option<int> {
    if s.len() > 0 && s[0] == '-' {
        let digits = s.drop_first();
        if digits.len() > 0 && all_digits(digits) {
            Some(-decimal_value(digits))
        } else {
            None
        }
    } else {
        unsigned_value(s)
    }
}

/// The `u32` that `s` writes, if it writes a number and the number fits.
pub open spec fn u32_of_text(s: Seq<char>) -> Option<u32> {
    match unsigned_value(s) {
        Some(v) => if v <= u32::MAX {
            Some(v as u32)
        } else {
            None
        },
        None => None,
    }
}

/// The `i32` that `s` writes, if it writes a number and the number fits.
pub open spec fn i32_of_text(s: Seq<char>) -> Option<i32> {
    match signed_value(s) {
        Some(v) => if i32::MIN <= v <= i32::MAX {
            Some(v as i32)
        } else {
            None
        },
        None => None,
    }
}

/// What `read_digits` returns for the digit string `s` under `limit`.
pub open spec fn bounded_value(s: Seq<char>, limit: int) -> Option<int> {
    if s.len() > 0 && all_digits(s) && decimal_value(s) <= limit {
        Some(decimal_value(s))
    } else {
        None
    }
}

/// Reads `chars[from..to]` as a run of decimal digits writing a number of
/// at most `limit`.
pub fn read_digits(chars: &Vec<char>, from: usize, to: usize, limit: u64) -> (value: Option<u64>)
    requires
        from <= to <= chars.len(),
        limit <= 0xffff_ffff_ffff,
    ensures
        value is Some <==> bounded_value(chars@.subrange(from as int, to as int), limit as int)
            is Some,
        value matches Some(v) ==> v <= limit && v as int == decimal_value(
            chars@.subrange(from as int, to as int),
        ),
{
    let ghost s = chars@.subrange(from as int, to as int);
    if from == to {
        return None;
    }
    let mut acc: u64 = 0;
    let mut i: usize = from;
    while i < to
        invariant
            from <= i <= to <= chars.len(),
            s == chars@.subrange(from as int, to as int),
            all_digits(s.take(i - from)),
            acc == decimal_value(s.take(i - from)),
            acc <= limit <= 0xffff_ffff_ffff,
        decreases to - i,
    {
        let ghost before = s.take(i - from);
        let ghost after = s.take(i - from + 1);
        proof {
            assert(after.drop_last() == before);
            assert(after.last() == chars@[i as int]);
        }
        match digit_of(chars[i]) {
            None => {
                proof {
                    assert(s[i - from] == chars@[i as int]);
                    assert(!is_digit(s[i - from]));
                }
                return None;
            },
            Some(d) => {
                let next: u64 = acc * 10 + d as u64;
                proof {
                    assert(next == decimal_value(after));
                    assert forall|k: int| 0 <= k < after.len() implies is_digit(
                        #[trigger] after[k],
                    ) by {
                        if k < before.len() {
                            assert(after[k] == before[k]);
                        }
                    }
                }
                if next > limit {
                    proof {
                        if all_digits(s) {
                            lemma_decimal_value_prefix(s, i - from + 1);
                        }
                    }
                    return None;
                }
                acc = next;
            },
        }
        i = i + 1;
    }
    proof {
        assert(s.take(to - from) == s);
    }
    Some(acc)
}

/// Reads `chars[from..to]` as a `u32`.
pub fn parse_u32_range(chars: &Vec<char>, from: usize, to: usize) -> (value: Option<u32>)
    requires
        from <= to <= chars.len(),
    ensures
        value == u32_of_text(chars@.subrange(from as int, to as int)),
{
    let ghost s = chars@.subrange(from as int, to as int);
    let start: usize = if from < to && chars[from] == '+' {
        from + 1
    } else {
        from
    };
    proof {
        if from < to && chars@[from as int] == '+' {
            assert(s[0] == '+');
            assert(s.drop_first() == chars@.subrange(start as int, to as int));
        } else {
            if s.len() > 0 {
                assert(s[0] == chars@[from as int]);
            }
        }
    }
    match read_digits(chars, start, to, 0xffff_ffff) {
        Some(v) => Some(v as u32),
        None => None,
    }
}

/// Reads `chars[from..to]` as an `i32`.
pub fn parse_i32_range(chars: &Vec<char>, from: usize, to: usize) -> (value: Option<i32>)
    requires
        from <= to <= chars.len(),
    ensures
        value == i32_of_text(chars@.subrange(from as int, to as int)),
{
    let ghost s = chars@.subrange(from as int, to as int);
    proof {
        if s.len() > 0 {
            assert(s[0] == chars@[from as int]);
            assert(s.drop_first() == chars@.subrange(from + 1, to as int));
        }
    }
    if from < to && chars[from] == '-' {
        match read_digits(chars, from + 1, to, 0x8000_0000) {
            Some(v) => {
                let wide: i64 = -(v as i64);
                proof {
                    lemma_decimal_value_prefix(s.drop_first(), 0);
                }
                Some(wide as i32)
            },
            None => {
                proof {
                    let digits = s.drop_first();
                    if digits.len() > 0 && all_digits(digits) {
                        lemma_decimal_value_prefix(digits, 0);
                    }
                }
                None
            },
        }
    } else {
        let start: usize = if from < to && chars[from] == '+' {
            from + 1
        } else {
            from
        };
        proof {
            let digits = chars@.subrange(start as int, to as int);
            if digits.len() > 0 && all_digits(digits) {
                lemma_decimal_value_prefix(digits, 0);
            }
        }
        match read_digits(chars, start, to, 0x7fff_ffff) {
            Some(v) => Some(v as i32),
            None => None,
        }
    }
}

/// Reads `s` as a `u32`: an optional `+`, then decimal digits, nothing else.
pub fn parse_u32(s: &str) -> (value: Option<u32>)
    ensures
        value == u32_of_text(s@),
{
    let chars = chars_of(s);
    assert(chars@.subrange(0, chars@.len() as int) == chars@);
    parse_u32_range(&chars, 0, chars.len())
}

/// Reads `s` as an `i32`: an optional sign, then decimal digits, nothing
/// else.
pub fn parse_i32(s: &str) -> (value: Option<i32>)
    ensures
        value == i32_of_text(s@),
{
    let chars = chars_of(s);
    assert(chars@.subrange(0, chars@.len() as int) == chars@);
    parse_i32_range(&chars, 0, chars.len())
}

// ---------------------------------------------------------------------
// White space
// ---------------------------------------------------------------------

/// Whether `c` is white space: one of the code points that Unicode gives
/// the property `White_Space`.
pub open spec fn is_whitespace(c: char) -> bool {
    let u = c as u32;
    (0x9 <= u <= 0xd) || u == 0x20 || u == 0x85 || u == 0xa0 || u == 0x1680 || (0x2000 <= u
        <= 0x200a) || u == 0x2028 || u == 0x2029 || u == 0x202f || u == 0x205f || u == 0x3000
}

/// Whether `c` is white space.
pub fn is_whitespace_char(c: char) -> (w: bool)
    ensures
        w == is_whitespace(c),
{
    let u: u32 = c as u32;
    (0x9 <= u && u <= 0xd) || u == 0x20 || u == 0x85 || u == 0xa0 || u == 0x1680 || (0x2000 <= u
        && u <= 0x200a) || u == 0x2028 || u == 0x2029 || u == 0x202f || u == 0x205f || u
        == 0x3000
}

/// `s` without the white space at its start.
pub open spec fn trim_start(s: Seq<char>) -> Seq<char>
    decreases s.len(),
{
    if s.len() > 0 && is_whitespace(s[0]) {
        trim_start(s.drop_first())
    } else {
        s
    }
}

/// `s` without the white space at its end.
pub open spec fn trim_end(s: Seq<char>) -> Seq<char>
    decreases s.len(),
{
    if s.len() > 0 && is_whitespace(s.last()) {
        trim_end(s.drop_last())
    } else {
        s
    }
}

/// `s` without the white space at either end.
pub open spec fn trim(s: Seq<char>) -> Seq<char> {
    trim_end(trim_start(s))
}

/// The bounds of `chars[from..to]` once the white space at either end is
/// left out.
pub fn trim_range(chars: &Vec<char>, from: usize, to: usize) -> (bounds: (usize, usize))
    requires
        from <= to <= chars.len(),
    ensures
        from <= bounds.0 <= bounds.1 <= to,
        chars@.subrange(bounds.0 as int, bounds.1 as int) == trim(
            chars@.subrange(from as int, to as int),
        ),
{
    let mut a: usize = from;
    while a < to && is_whitespace_char(chars[a])
        invariant
            from <= a <= to <= chars.len(),
            trim_start(chars@.subrange(from as int, to as int)) == trim_start(
                chars@.subrange(a as int, to as int),
            ),
        decreases to - a,
    {
        proof {
            let cur = chars@.subrange(a as int, to as int);
            assert(cur[0] == chars@[a as int]);
            assert(cur.drop_first() == chars@.subrange(a + 1, to as int));
        }
        a = a + 1;
    }
    proof {
        let cur = chars@.subrange(a as int, to as int);
        if a < to {
            assert(cur[0] == chars@[a as int]);
        }
        assert(trim_start(cur) == cur);
    }
    let mut b: usize = to;
    while a < b && is_whitespace_char(chars[b - 1])
        invariant
            a <= b <= to <= chars.len(),
            trim_end(chars@.subrange(a as int, to as int)) == trim_end(
                chars@.subrange(a as int, b as int),
            ),
        decreases b - a,
    {
        proof {
            let cur = chars@.subrange(a as int, b as int);
            assert(cur.last() == chars@[b - 1]);
            assert(cur.drop_last() == chars@.subrange(a as int, b - 1));
        }
        b = b - 1;
    }
    proof {
        let cur = chars@.subrange(a as int, b as int);
        if a < b {
            assert(cur.last() == chars@[b - 1]);
        }
        assert(trim_end(cur) == cur);
    }
    (a, b)
}

// ---------------------------------------------------------------------
// Fields
// ---------------------------------------------------------------------

/// The fields of `s` between occurrences of `sep`. There is always at least
/// one field; a separator at the start or the end, or two in a row, give an
/// empty field.
pub open spec fn split(s: Seq<char>, sep: char) -> Seq<Seq<char>>
    decreases s.len(),
{
    if s.len() == 0 {
        seq![Seq::<char>::empty()]
    } else {
        let head = split(s.drop_last(), sep);
        if s.last() == sep {
            head.push(Seq::<char>::empty())
        } else {
            head.update(head.len() - 1, head.last().push(s.last()))
        }
    }
}

/// A text always has at least one field.
pub proof fn lemma_split_nonempty(s: Seq<char>, sep: char)
    ensures
        split(s, sep).len() >= 1,
    decreases s.len(),
{
    if s.len() > 0 {
        lemma_split_nonempty(s.drop_last(), sep);
    }
}

/// Text without the separator, added after `a`, lengthens the last field
/// of `a`.
pub proof fn lemma_split_extend(a: Seq<char>, b: Seq<char>, sep: char)
    requires
        forall|i: int| 0 <= i < b.len() ==> b[i] != sep,
    ensures
        split(a + b, sep).len() == split(a, sep).len(),
        split(a + b, sep) == split(a, sep).update(
            split(a, sep).len() - 1,
            split(a, sep).last() + b,
        ),
    decreases b.len(),
{
    lemma_split_nonempty(a, sep);
    let base = split(a, sep);
    if b.len() == 0 {
        assert(a + b == a);
        assert(base.last() + b == base.last());
        assert(base.update(base.len() - 1, base.last()) == base);
    } else {
        let b0 = b.drop_last();
        lemma_split_extend(a, b0, sep);
        assert((a + b).drop_last() == a + b0);
        assert((a + b).last() == b.last());
        let mid = split(a + b0, sep);
        assert(mid.last() == base.last() + b0);
        assert((base.last() + b0).push(b.last()) == base.last() + b);
        assert(split(a + b, sep) == base.update(base.len() - 1, base.last() + b));
    }
}

/// A separator and then text without one, added after `a`, add one field.
pub proof fn lemma_split_append_field(a: Seq<char>, b: Seq<char>, sep: char)
    requires
        forall|i: int| 0 <= i < b.len() ==> b[i] != sep,
    ensures
        split(a.push(sep) + b, sep) == split(a, sep).push(b),
{
    lemma_split_nonempty(a, sep);
    let a1 = a.push(sep);
    assert(a1.drop_last() == a);
    assert(split(a1, sep) == split(a, sep).push(Seq::<char>::empty()));
    lemma_split_extend(a1, b, sep);
    assert(Seq::<char>::empty() + b == b);
    assert(split(a1 + b, sep) == split(a, sep).push(b));
}

/// The bounds of the fields of `chars` between occurrences of `sep`.
pub fn split_ranges(chars: &Vec<char>, sep: char) -> (fields: Vec<(usize, usize)>)
    ensures
        fields@.len() == split(chars@, sep).len(),
        forall|k: int|
            0 <= k < fields@.len() ==> (#[trigger] fields@[k]).0 <= fields@[k].1 <= chars@.len()
                && chars@.subrange(fields@[k].0 as int, fields@[k].1 as int) == split(
                chars@,
                sep,
            )[k],
{
    let mut fields: Vec<(usize, usize)> = Vec::new();
    let mut start: usize = 0;
    let mut i: usize = 0;
    proof {
        assert(chars@.take(0) == Seq::<char>::empty());
        assert(chars@.subrange(0, 0) == Seq::<char>::empty());
    }
    while i < chars.len()
        invariant
            start <= i <= chars.len(),
            fields@.len() + 1 == split(chars@.take(i as int), sep).len(),
            forall|k: int|
                0 <= k < fields@.len() ==> (#[trigger] fields@[k]).0 <= fields@[k].1
                    <= chars@.len() && chars@.subrange(fields@[k].0 as int, fields@[k].1 as int)
                    == split(chars@.take(i as int), sep)[k],
            chars@.subrange(start as int, i as int) == split(chars@.take(i as int), sep).last(),
        decreases chars.len() - i,
    {
        let ghost before = chars@.take(i as int);
        let ghost after = chars@.take(i + 1);
        proof {
            assert(after.drop_last() == before);
            assert(after.last() == chars@[i as int]);
            lemma_split_nonempty(before, sep);
        }
        if chars[i] == sep {
            fields.push((start, i));
            start = i + 1;
            proof {
                assert(chars@.subrange(start as int, i + 1) == Seq::<char>::empty());
            }
        } else {
            proof {
                assert(chars@.subrange(start as int, i + 1) == chars@.subrange(
                    start as int,
                    i as int,
                ).push(chars@[i as int]));
            }
        }
        i = i + 1;
    }
    proof {
        assert(chars@.take(chars@.len() as int) == chars@);
    }
    fields.push((start, i));
    fields
}

} // verus!
