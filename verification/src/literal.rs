//! The texts that are numbers.
//!
//! A number is written as the standard library's parser of floating-point
//! numbers accepts it:
//!
//! ```text
//! Number   ::= Sign? ( Decimal | 'inf' | 'infinity' | 'nan' )
//! Decimal  ::= Mantissa ( 'e' Exponent )?
//! Mantissa ::= Digit+ | Digit+ '.' Digit* | Digit* '.' Digit+
//! Exponent ::= Sign? Digit+
//! Sign     ::= '+' | '-'
//! Digit    ::= '0' ..= '9'
//! ```
//!
//! with letters in either case.
use crate::text::to_chars;
use vstd::prelude::*;
use vstd::slice::slice_subrange;

verus! {

pub open spec fn is_digit(c: char) -> bool {
    '0' <= c <= '9'
}

pub open spec fn is_sign(c: char) -> bool {
    c == '+' || c == '-'
}

pub open spec fn is_exponent_mark(c: char) -> bool {
    c == 'e' || c == 'E'
}

/// The upper-case form of the letters that the names of the special values
/// are spelt with; any other character stands for itself.
pub open spec fn upper_case(letter: char) -> char {
    if letter == 'a' {
        'A'
    } else if letter == 'f' {
        'F'
    } else if letter == 'i' {
        'I'
    } else if letter == 'n' {
        'N'
    } else if letter == 't' {
        'T'
    } else if letter == 'y' {
        'Y'
    } else {
        letter
    }
}

/// Whether `c` is `letter` in either case.
pub open spec fn is_letter(c: char, letter: char) -> bool {
    c == letter || c == upper_case(letter)
}

/// `Digit*`
pub open spec fn all_digits(s: Seq<char>) -> bool {
    forall|i: int| 0 <= i < s.len() ==> is_digit(#[trigger] s[i])
}

/// `Digit+ | Digit+ '.' Digit* | Digit* '.' Digit+`: digits with at most one
/// point before, among or after them, and at least one digit.
pub open spec fn is_mantissa(s: Seq<char>) -> bool {
    ||| s.len() > 0 && all_digits(s)
    ||| s.len() > 1 && exists|point: int|
        {
            &&& 0 <= point < s.len()
            &&& s[point] == '.'
            &&& all_digits(#[trigger] s.take(point))
            &&& all_digits(s.skip(point + 1))
        }
}

/// `Sign? Digit+`
pub open spec fn is_exponent(s: Seq<char>) -> bool {
    ||| s.len() > 0 && all_digits(s)
    ||| s.len() > 1 && is_sign(s[0]) && all_digits(s.skip(1))
}

/// `Mantissa ( 'e' Exponent )?`
pub open spec fn is_decimal(s: Seq<char>) -> bool {
    ||| is_mantissa(s)
    ||| exists|mark: int|
        {
            &&& 0 <= mark < s.len()
            &&& is_exponent_mark(s[mark])
            &&& is_mantissa(#[trigger] s.take(mark))
            &&& is_exponent(s.skip(mark + 1))
        }
}

/// Whether `s` spells `name`, in letters of either case.
pub open spec fn spells(s: Seq<char>, name: Seq<char>) -> bool {
    &&& s.len() == name.len()
    &&& forall|i: int| 0 <= i < name.len() ==> is_letter(#[trigger] s[i], name[i])
}

/// `'inf' | 'infinity' | 'nan'`
pub open spec fn is_special(s: Seq<char>) -> bool {
    ||| spells(s, seq!['i', 'n', 'f'])
    ||| spells(s, seq!['i', 'n', 'f', 'i', 'n', 'i', 't', 'y'])
    ||| spells(s, seq!['n', 'a', 'n'])
}

/// A number without its sign.
pub open spec fn is_unsigned(s: Seq<char>) -> bool {
    is_decimal(s) || is_special(s)
}

/// Whether `s` is the text of a number.
pub open spec fn is_float_literal(s: Seq<char>) -> bool {
    ||| is_unsigned(s)
    ||| s.len() > 0 && is_sign(s[0]) && is_unsigned(s.skip(1))
}

/// What a scan of `s` for a mantissa finds: the digits before the point end
/// at `point`, those after it start at `fraction` and end at `end`.
spec fn scanned(s: Seq<char>, point: int, fraction: int, end: int) -> bool {
    &&& 0 <= point <= fraction <= end <= s.len()
    &&& forall|k: int| 0 <= k < point ==> is_digit(#[trigger] s[k])
    &&& point < s.len() ==> !is_digit(s[point])
    &&& fraction == if point < s.len() && s[point] == '.' {
        point + 1
    } else {
        point
    }
    &&& forall|k: int| fraction <= k < end ==> is_digit(#[trigger] s[k])
    &&& end < s.len() ==> !is_digit(s[end])
}

/// Where the point of a mantissa stands, if the mantissa has one.
proof fn point_of(s: Seq<char>) -> (point: int)
    requires
        is_mantissa(s),
        !all_digits(s),
    ensures
        0 <= point < s.len(),
        s[point] == '.',
        all_digits(s.take(point)),
        all_digits(s.skip(point + 1)),
{
    choose|point: int|
        {
            &&& 0 <= point < s.len()
            &&& s[point] == '.'
            &&& all_digits(#[trigger] s.take(point))
            &&& all_digits(s.skip(point + 1))
        }
}

/// A scan that found a digit found a mantissa.
proof fn lemma_scan_finds_mantissa(s: Seq<char>, point: int, fraction: int, end: int)
    requires
        scanned(s, point, fraction, end),
        point + (end - fraction) > 0,
    ensures
        is_mantissa(s.take(end)),
{
    let x = s.take(end);
    if fraction == point {
        assert(all_digits(x));
    } else {
        assert(x[point] == '.');
        assert(all_digits(x.take(point)));
        assert forall|i: int| 0 <= i < x.skip(point + 1).len() implies is_digit(
            #[trigger] x.skip(point + 1)[i],
        ) by {
            assert(x.skip(point + 1)[i] == s[fraction + i]);
        }
    }
}

/// A mantissa that starts the text and ends before anything but a digit or
/// a point is the one that the scan finds.
proof fn lemma_mantissa_is_found(s: Seq<char>, point: int, fraction: int, end: int, m: int)
    requires
        scanned(s, point, fraction, end),
        0 <= m <= s.len(),
        is_mantissa(s.take(m)),
        m < s.len() ==> !is_digit(s[m]) && s[m] != '.',
    ensures
        m == end,
        point + (end - fraction) > 0,
{
    let x = s.take(m);
    if x.len() > 0 && all_digits(x) {
        assert forall|k: int| 0 <= k < m implies is_digit(s[k]) by {
            assert(x[k] == s[k]);
        }
        if point < m {
            assert(is_digit(s[point]));
        }
        if point > m {
            assert(is_digit(s[m]));
        }
        assert(point == m);
        if end > m {
            assert(is_digit(s[m]));
        }
    } else {
        let k = point_of(x);
        assert(s[k] == '.');
        assert forall|j: int| 0 <= j < k implies is_digit(s[j]) by {
            assert(x.take(k)[j] == s[j]);
        }
        assert forall|j: int| k < j < m implies is_digit(s[j]) by {
            assert(x.skip(k + 1)[j - k - 1] == s[j]);
        }
        if point < k {
            assert(is_digit(s[point]));
        }
        if point > k {
            assert(is_digit(s[k]));
        }
        assert(point == k);
        if end < m {
            assert(is_digit(s[end]));
        }
        if end > m {
            assert(is_digit(s[m]));
        }
    }
}

/// A number without its sign does not start with one.
proof fn lemma_unsigned_has_no_sign(s: Seq<char>)
    requires
        is_unsigned(s),
    ensures
        s.len() > 0,
        !is_sign(s[0]),
{
    if is_special(s) {
        assert(is_letter(s[0], 'i') || is_letter(s[0], 'n'));
    } else {
        let mantissa = if is_mantissa(s) {
            s
        } else {
            let mark = choose|mark: int|
                {
                    &&& 0 <= mark < s.len()
                    &&& is_exponent_mark(s[mark])
                    &&& is_mantissa(#[trigger] s.take(mark))
                    &&& is_exponent(s.skip(mark + 1))
                };
            s.take(mark)
        };
        assert(is_mantissa(mantissa));
        assert(mantissa.len() > 0);
        assert(mantissa[0] == s[0]);
        if mantissa.len() > 0 && all_digits(mantissa) {
            assert(is_digit(mantissa[0]));
        } else {
            let k = point_of(mantissa);
            if k > 0 {
                assert(mantissa.take(k)[0] == mantissa[0]);
            }
        }
    }
}

fn digit(c: char) -> (b: bool)
    ensures
        b == is_digit(c),
{
    '0' <= c && c <= '9'
}

fn sign(c: char) -> (b: bool)
    ensures
        b == is_sign(c),
{
    c == '+' || c == '-'
}

fn upper(letter: char) -> (c: char)
    ensures
        c == upper_case(letter),
{
    if letter == 'a' {
        'A'
    } else if letter == 'f' {
        'F'
    } else if letter == 'i' {
        'I'
    } else if letter == 'n' {
        'N'
    } else if letter == 't' {
        'T'
    } else if letter == 'y' {
        'Y'
    } else {
        letter
    }
}

/// Where the digits that start at `from` end.
fn scan_digits(s: &[char], from: usize) -> (end: usize)
    requires
        from <= s.len(),
    ensures
        from <= end <= s.len(),
        forall|k: int| from <= k < end ==> is_digit(#[trigger] s@[k]),
        end < s.len() ==> !is_digit(s@[end as int]),
{
    let mut end: usize = from;
    while end < s.len() && digit(s[end])
        invariant
            from <= end <= s.len(),
            forall|k: int| from <= k < end ==> is_digit(#[trigger] s@[k]),
        decreases s.len() - end,
    {
        end += 1;
    }
    end
}

fn spells_name(s: &[char], name: &str) -> (b: bool)
    ensures
        b == spells(s@, name@),
{
    let letters = to_chars(name);
    if s.len() != letters.len() {
        return false;
    }
    let mut i: usize = 0;
    while i < letters.len()
        invariant
            i <= letters.len(),
            letters@ == name@,
            s.len() == letters.len(),
            forall|k: int| 0 <= k < i ==> is_letter(#[trigger] s@[k], name@[k]),
        decreases letters.len() - i,
    {
        let c: char = s[i];
        let letter: char = letters[i];
        if !(c == letter || c == upper(letter)) {
            return false;
        }
        i += 1;
    }
    true
}

fn special(s: &[char]) -> (b: bool)
    ensures
        b == is_special(s@),
{
    proof {
        reveal_strlit("inf");
        reveal_strlit("infinity");
        reveal_strlit("nan");
        assert("inf"@ =~= seq!['i', 'n', 'f']);
        assert("infinity"@ =~= seq!['i', 'n', 'f', 'i', 'n', 'i', 't', 'y']);
        assert("nan"@ =~= seq!['n', 'a', 'n']);
    }
    spells_name(s, "inf") || spells_name(s, "infinity") || spells_name(s, "nan")
}

/// Whether an exponent starts at `from` and runs to the end.
fn exponent(s: &[char], from: usize) -> (b: bool)
    requires
        from <= s.len(),
    ensures
        b == is_exponent(s@.skip(from as int)),
{
    let ghost x = s@.skip(from as int);
    let digits: usize = if from < s.len() && sign(s[from]) {
        from + 1
    } else {
        from
    };
    if digits >= s.len() {
        proof {
            if x.len() > 0 {
                assert(x[0] == s@[from as int]);
            }
        }
        return false;
    }
    let end: usize = scan_digits(s, digits);
    proof {
        assert(x[0] == s@[from as int]);
        if end == s.len() {
            if digits == from {
                assert forall|i: int| 0 <= i < x.len() implies is_digit(#[trigger] x[i]) by {
                    assert(x[i] == s@[from + i]);
                }
            } else {
                assert forall|i: int| 0 <= i < x.skip(1).len() implies is_digit(
                    #[trigger] x.skip(1)[i],
                ) by {
                    assert(x.skip(1)[i] == s@[digits + i]);
                }
            }
        } else {
            assert(x[end - from] == s@[end as int]);
            if digits > from {
                assert(x.skip(1)[end - digits] == s@[end as int]);
            }
        }
    }
    end == s.len()
}

fn decimal(s: &[char]) -> (b: bool)
    ensures
        b == is_decimal(s@),
{
    let point: usize = scan_digits(s, 0);
    let fraction: usize = if point < s.len() && s[point] == '.' {
        point + 1
    } else {
        point
    };
    let end: usize = scan_digits(s, fraction);
    let found: bool = point + (end - fraction) > 0;
    let marked: bool = end < s.len() && (s[end] == 'e' || s[end] == 'E');
    let b: bool = found && (end == s.len() || (marked && exponent(s, end + 1)));
    proof {
        let t = s@;
        assert(scanned(t, point as int, fraction as int, end as int));
        assert(t.take(t.len() as int) =~= t);
        if b {
            lemma_scan_finds_mantissa(t, point as int, fraction as int, end as int);
        } else {
            if is_mantissa(t) {
                lemma_mantissa_is_found(
                    t,
                    point as int,
                    fraction as int,
                    end as int,
                    t.len() as int,
                );
            }
            assert forall|mark: int|
                0 <= mark < t.len() && is_exponent_mark(t[mark]) && is_mantissa(
                    #[trigger] t.take(mark),
                ) implies !is_exponent(t.skip(mark + 1)) by {
                lemma_mantissa_is_found(t, point as int, fraction as int, end as int, mark);
            }
        }
    }
    b
}

fn unsigned(s: &[char]) -> (b: bool)
    ensures
        b == is_unsigned(s@),
{
    decimal(s) || special(s)
}

/// Whether `s` is the text of a number.
pub fn is_string_number(s: &str) -> (b: bool)
    ensures
        b == is_float_literal(s@),
{
    let chars = to_chars(s);
    if chars.len() > 0 && sign(chars[0]) {
        proof {
            if is_unsigned(chars@) {
                lemma_unsigned_has_no_sign(chars@);
            }
            assert(chars@.subrange(1, chars.len() as int) =~= chars@.skip(1));
        }
        unsigned(slice_subrange(chars.as_slice(), 1, chars.len()))
    } else {
        unsigned(chars.as_slice())
    }
}

} // verus!
