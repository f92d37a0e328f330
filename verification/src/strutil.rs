//! Character-level string helpers: equality, search, slicing into parts,
//! decimal formatting and parsing. Everything here is verified against
//! spec functions over `Seq<char>`.

use vstd::prelude::*;

verus! {

use vstd::string::StrSliceExecFns;
use vstd::string::StringExecFns;

/// Index of the first occurrence of `c` in `s` at or after position `i`,
/// or -1 if there is none.
pub open spec fn first_index_of(s: Seq<char>, c: char, i: int) -> int
    decreases s.len() - i,
{
    if i < 0 || i >= s.len() {
        -1
    } else if s[i] == c {
        i
    } else {
        first_index_of(s, c, i + 1)
    }
}

pub proof fn lemma_first_index_bounds(s: Seq<char>, c: char, i: int)
    requires
        0 <= i <= s.len(),
    ensures
        first_index_of(s, c, i) == -1 || (i <= first_index_of(s, c, i) < s.len()
            && s[first_index_of(s, c, i)] == c),
        first_index_of(s, c, i) == -1 ==> forall|j: int| i <= j < s.len() ==> s[j] != c,
        forall|j: int| i <= j < first_index_of(s, c, i) ==> s[j] != c,
    decreases s.len() - i,
{
    if i < s.len() && s[i] != c {
        lemma_first_index_bounds(s, c, i + 1);
    }
}

/// Conversely: a position that holds `c`, with none before it, is the first one.
pub proof fn lemma_first_index_at(s: Seq<char>, c: char, i: int, j: int)
    requires
        0 <= i <= j < s.len(),
        s[j] == c,
        forall|k: int| i <= k < j ==> s[k] != c,
    ensures
        first_index_of(s, c, i) == j,
    decreases j - i,
{
    if i < j {
        lemma_first_index_at(s, c, i + 1, j);
    }
}

/// Character-wise string equality, without assuming anything about the
/// contents of either side.
pub fn str_eq(a: &str, b: &str) -> (r: bool)
    ensures
        r == (a@ == b@),
{
    let an = a.unicode_len();
    let bn = b.unicode_len();
    if an != bn {
        return false;
    }
    let mut i: usize = 0;
    while i < an
        invariant
            0 <= i <= an,
            an == a@.len(),
            an == b@.len(),
            forall|j: int| 0 <= j < i ==> a@[j] == b@[j],
        decreases an - i,
    {
        if a.get_char(i) != b.get_char(i) {
            return false;
        }
        i = i + 1;
    }
    proof {
        assert(a@ =~= b@);
    }
    true
}

/// First occurrence of `c` in `s`, scanning from the front.
pub fn find_char(s: &str, c: char) -> (r: Option<usize>)
    ensures
        match r {
            Some(i) => {
                &&& first_index_of(s@, c, 0) == i
                &&& i < s@.len()
                &&& s@[i as int] == c
                &&& forall|j: int| 0 <= j < i ==> s@[j] != c
            },
            None => {
                &&& first_index_of(s@, c, 0) == -1
                &&& forall|j: int| 0 <= j < s@.len() ==> s@[j] != c
            },
        },
{
    let n = s.unicode_len();
    let mut i: usize = 0;
    while i < n
        invariant
            0 <= i <= n,
            n == s@.len(),
            forall|j: int| 0 <= j < i ==> s@[j] != c,
        decreases n - i,
    {
        if s.get_char(i) == c {
            proof {
                lemma_first_index_at(s@, c, 0, i as int);
            }
            return Some(i);
        }
        i = i + 1;
    }
    proof {
        lemma_first_index_bounds(s@, c, 0);
        if first_index_of(s@, c, 0) != -1 {
            assert(s@[first_index_of(s@, c, 0)] == c);
        }
    }
    None
}

/// Relies on std's `String::push`: appends one character.
#[verifier::external_body]
pub fn push_char(s: &mut String, c: char)
    ensures
        final(s)@ == old(s)@.push(c),
{
    s.push(c)
}

/// The character for one decimal digit.
pub open spec fn spec_digit_char(d: int) -> char {
    if d == 0 {
        '0'
    } else if d == 1 {
        '1'
    } else if d == 2 {
        '2'
    } else if d == 3 {
        '3'
    } else if d == 4 {
        '4'
    } else if d == 5 {
        '5'
    } else if d == 6 {
        '6'
    } else if d == 7 {
        '7'
    } else if d == 8 {
        '8'
    } else {
        '9'
    }
}

/// Decimal digits of a non-negative number, most significant first.
pub open spec fn spec_digits(n: int) -> Seq<char>
    decreases n,
{
    if n < 0 {
        Seq::empty()
    } else if n < 10 {
        seq![spec_digit_char(n)]
    } else {
        spec_digits(n / 10).push(spec_digit_char(n % 10))
    }
}

/// Decimal rendering of an integer, as `str::parse` and `to_string` agree on it.
pub open spec fn spec_int_str(n: int) -> Seq<char> {
    if n < 0 {
        seq!['-'] + spec_digits(-n)
    } else {
        spec_digits(n)
    }
}

fn digit_char(d: u32) -> (c: char)
    requires
        d < 10,
    ensures
        c == spec_digit_char(d as int),
{
    if d == 0 {
        '0'
    } else if d == 1 {
        '1'
    } else if d == 2 {
        '2'
    } else if d == 3 {
        '3'
    } else if d == 4 {
        '4'
    } else if d == 5 {
        '5'
    } else if d == 6 {
        '6'
    } else if d == 7 {
        '7'
    } else if d == 8 {
        '8'
    } else {
        '9'
    }
}

fn push_digits(s: &mut String, n: u32)
    ensures
        final(s)@ == old(s)@ + spec_digits(n as int),
    decreases n,
{
    if n < 10 {
        push_char(s, digit_char(n));
    } else {
        push_digits(s, n / 10);
        push_char(s, digit_char(n % 10));
    }
    proof {
        assert(final(s)@ =~= old(s)@ + spec_digits(n as int));
    }
}

/// Decimal rendering of an `i32`, with a leading minus sign when negative.
pub fn i32_to_string(n: i32) -> (r: String)
    ensures
        r@ == spec_int_str(n as int),
{
    let mut s = String::new();
    let mag: u32 = if n < 0 {
        push_char(&mut s, '-');
        ((-(n as i64)) as u32)
    } else {
        (n as u32)
    };
    push_digits(&mut s, mag);
    proof {
        assert(s@ =~= spec_int_str(n as int));
    }
    s
}

/// Is `c` a decimal digit?
pub open spec fn spec_is_digit(c: char) -> bool {
    '0' <= c && c <= '9'
}

/// The numeric value of a digit character.
pub open spec fn spec_digit_val(c: char) -> int {
    c as int - '0' as int
}

/// Value of a digit string, most significant first.
pub open spec fn spec_digits_val(s: Seq<char>) -> int
    decreases s.len(),
{
    if s.len() == 0 {
        0
    } else {
        spec_digits_val(s.drop_last()) * 10 + spec_digit_val(s.last())
    }
}

/// Does `s` consist of decimal digits only?
pub open spec fn all_digits(s: Seq<char>) -> bool {
    forall|i: int| 0 <= i < s.len() ==> spec_is_digit(s[i])
}

/// What `str::parse::<i32>` accepts: an optional sign followed by one or
/// more digits, with a value in range.
pub open spec fn spec_parse_i32(s: Seq<char>) -> Option<int> {
    let digits = if s.len() > 0 && (s[0] == '-' || s[0] == '+') {
        s.drop_first()
    } else {
        s
    };
    let neg = s.len() > 0 && s[0] == '-';
    if digits.len() == 0 || !all_digits(digits) {
        None
    } else {
        let v = if neg {
            -spec_digits_val(digits)
        } else {
            spec_digits_val(digits)
        };
        if i32::MIN <= v <= i32::MAX {
            Some(v)
        } else {
            None
        }
    }
}

proof fn lemma_digits_val_bounds(s: Seq<char>)
    requires
        forall|i: int| 0 <= i < s.len() ==> spec_is_digit(s[i]),
    ensures
        spec_digits_val(s) >= 0,
    decreases s.len(),
{
    if s.len() > 0 {
        lemma_digits_val_bounds(s.drop_last());
    }
}

/// Parses a decimal integer the way `str::parse::<i32>` does: an optional
/// sign, then digits only, rejecting overflow.
pub fn parse_i32(s: &str) -> (r: Option<i32>)
    ensures
        match r {
            Some(v) => spec_parse_i32(s@) == Some(v as int),
            None => spec_parse_i32(s@) is None,
        },
{
    let n = s.unicode_len();
    if n == 0 {
        return None;
    }
    let first = s.get_char(0);
    let neg = first == '-';
    let start: usize = if first == '-' || first == '+' {
        1
    } else {
        0
    };
    if n == start {
        return None;
    }
    let ghost digits = if s@[0] == '-' || s@[0] == '+' {
        s@.drop_first()
    } else {
        s@
    };
    proof {
        assert(digits =~= s@.subrange(start as int, n as int));
    }
    let mut acc: i64 = 0;
    let mut i: usize = start;
    while i < n
        invariant
            start <= i <= n,
            n == s@.len(),
            start == 0 || start == 1,
            start == 1 ==> (s@[0] == '-' || s@[0] == '+'),
            start == 0 ==> !(s@[0] == '-' || s@[0] == '+'),
            digits == s@.subrange(start as int, n as int),
            forall|j: int| start <= j < i ==> spec_is_digit(s@[j]),
            acc == spec_digits_val(s@.subrange(start as int, i as int)),
            0 <= acc <= 0x8000_0000,
        decreases n - i,
    {
        let c = s.get_char(i);
        if c < '0' || c > '9' {
            proof {
                let j = i - start;
                assert(digits[j] == s@[i as int]);
                assert(0 <= j < digits.len() && !spec_is_digit(digits[j]));
                assert(!all_digits(digits));
                if s@[0] == '-' || s@[0] == '+' {
                    assert(digits =~= s@.drop_first());
                } else {
                    assert(digits =~= s@);
                }
                assert(spec_parse_i32(s@) is None);
            }
            return None;
        }
        let d = (c as u32) - ('0' as u32);
        let ghost part = s@.subrange(start as int, i + 1 as int);
        proof {
            assert(part.drop_last() =~= s@.subrange(start as int, i as int));
            assert(part.last() == c);
            assert(spec_digits_val(part) == acc * 10 + d);
        }
        if acc > 0x8000_0000 / 10 || (acc == 0x8000_0000 / 10 && d > 0x8000_0000 % 10) {
            // The value can no longer fit in an i32 either way; every digit
            // that follows only makes it larger.
            proof {
                if s@[0] == '-' || s@[0] == '+' {
                    assert(digits =~= s@.drop_first());
                } else {
                    assert(digits =~= s@);
                }
                if all_digits(digits) {
                    assert(part =~= digits.subrange(0, part.len() as int));
                    lemma_digits_grow(digits, part);
                    assert(spec_digits_val(digits) > 0x7fff_ffff);
                    assert(-spec_digits_val(digits) < i32::MIN);
                }
                assert(spec_parse_i32(s@) is None);
            }
            return None;
        }
        acc = acc * 10 + (d as i64);
        i = i + 1;
    }
    proof {
        assert forall|k: int| 0 <= k < digits.len() implies spec_is_digit(digits[k]) by {
            assert(digits[k] == s@[start + k]);
        }
        assert(all_digits(digits));
    }
    if neg {
        Some((-acc) as i32)
    } else {
        if acc > 0x7fff_ffff {
            return None;
        }
        Some(acc as i32)
    }
}

/// A digit string is at least as large as any of its prefixes.
proof fn lemma_digits_grow(full: Seq<char>, part: Seq<char>)
    requires
        forall|i: int| 0 <= i < full.len() ==> spec_is_digit(full[i]),
        part.len() <= full.len(),
        part == full.subrange(0, part.len() as int),
    ensures
        spec_digits_val(full) >= spec_digits_val(part),
    decreases full.len() - part.len(),
{
    lemma_digits_val_bounds(full);
    if part.len() < full.len() {
        let next = full.subrange(0, part.len() as int + 1);
        assert(next.drop_last() =~= part);
        assert(spec_digits_val(next) == spec_digits_val(part) * 10 + spec_digit_val(next.last()));
        lemma_digits_val_bounds(part);
        lemma_digits_grow(full, next);
    } else {
        assert(part =~= full);
    }
}

/// Unicode whitespace, the set both `char::is_whitespace` and the title
/// grammar's blank class recognise.
pub open spec fn spec_is_ws(c: char) -> bool {
    ||| c == ' '
    ||| ('\u{9}' <= c && c <= '\u{d}')
    ||| c == '\u{85}'
    ||| c == '\u{a0}'
    ||| c == '\u{1680}'
    ||| ('\u{2000}' <= c && c <= '\u{200a}')
    ||| c == '\u{2028}'
    ||| c == '\u{2029}'
    ||| c == '\u{202f}'
    ||| c == '\u{205f}'
    ||| c == '\u{3000}'
}

pub fn is_ws(c: char) -> (r: bool)
    ensures
        r == spec_is_ws(c),
{
    let u = c as u32;
    u == 0x20 || (0x9 <= u && u <= 0xd) || u == 0x85 || u == 0xa0 || u == 0x1680 || (0x2000 <= u
        && u <= 0x200a) || u == 0x2028 || u == 0x2029 || u == 0x202f || u == 0x205f || u == 0x3000
}

} // verus!

verus! {

/// Lexicographic comparison from position `i` on, by code point.
pub open spec fn lex_leq_from(a: Seq<char>, b: Seq<char>, i: int) -> bool
    decreases a.len() - i,
{
    if i < 0 || i >= a.len() {
        true
    } else if i >= b.len() {
        false
    } else if (a[i] as u32) != (b[i] as u32) {
        (a[i] as u32) < (b[i] as u32)
    } else {
        lex_leq_from(a, b, i + 1)
    }
}

/// Is `a` at or before `b` in code-point order, as `str` ordering has it?
pub open spec fn lex_leq(a: Seq<char>, b: Seq<char>) -> bool {
    lex_leq_from(a, b, 0)
}

proof fn lemma_lex_skip(a: Seq<char>, b: Seq<char>, i: int)
    requires
        0 <= i <= a.len(),
        i <= b.len(),
        forall|j: int| 0 <= j < i ==> (a[j] as u32) == (b[j] as u32),
    ensures
        lex_leq_from(a, b, 0) == lex_leq_from(a, b, i),
    decreases i,
{
    if i > 0 {
        lemma_lex_with_prefix(a, b, 0, i);
    }
}

proof fn lemma_lex_with_prefix(a: Seq<char>, b: Seq<char>, lo: int, i: int)
    requires
        0 <= lo <= i <= a.len(),
        i <= b.len(),
        forall|j: int| lo <= j < i ==> (a[j] as u32) == (b[j] as u32),
    ensures
        lex_leq_from(a, b, lo) == lex_leq_from(a, b, i),
    decreases i - lo,
{
    if lo < i {
        lemma_lex_with_prefix(a, b, lo + 1, i);
    }
}

/// Code-point order is total: two strings compare one way or the other.
pub proof fn lemma_lex_total(a: Seq<char>, b: Seq<char>)
    ensures
        lex_leq(a, b) || lex_leq(b, a),
{
    lemma_lex_total_from(a, b, 0);
}

proof fn lemma_lex_total_from(a: Seq<char>, b: Seq<char>, i: int)
    requires
        0 <= i,
    ensures
        lex_leq_from(a, b, i) || lex_leq_from(b, a, i),
    decreases a.len() - i,
{
    if i < a.len() && i < b.len() && (a[i] as u32) == (b[i] as u32) {
        lemma_lex_total_from(a, b, i + 1);
    }
}

/// Compares two strings in code-point order, the order `str` sorts by.
pub fn str_le(a: &str, b: &str) -> (r: bool)
    ensures
        r == lex_leq(a@, b@),
{
    let an = a.unicode_len();
    let bn = b.unicode_len();
    let mut i: usize = 0;
    while i < an && i < bn
        invariant
            0 <= i <= an,
            0 <= i <= bn,
            an == a@.len(),
            bn == b@.len(),
            forall|j: int| 0 <= j < i ==> (a@[j] as u32) == (b@[j] as u32),
        decreases an - i,
    {
        let ca = a.get_char(i);
        let cb = b.get_char(i);
        if (ca as u32) != (cb as u32) {
            proof {
                lemma_lex_skip(a@, b@, i as int);
            }
            return (ca as u32) < (cb as u32);
        }
        i = i + 1;
    }
    proof {
        lemma_lex_skip(a@, b@, i as int);
    }
    i == an
}

} // verus!

verus! {

/// Code-point order is transitive.
pub proof fn lemma_lex_trans(a: Seq<char>, b: Seq<char>, c: Seq<char>)
    requires
        lex_leq(a, b),
        lex_leq(b, c),
    ensures
        lex_leq(a, c),
{
    lemma_lex_trans_from(a, b, c, 0);
}

proof fn lemma_lex_trans_from(a: Seq<char>, b: Seq<char>, c: Seq<char>, i: int)
    requires
        0 <= i,
        lex_leq_from(a, b, i),
        lex_leq_from(b, c, i),
    ensures
        lex_leq_from(a, c, i),
    decreases a.len() - i,
{
    if i < a.len() && i < b.len() && i < c.len() && (a[i] as u32) == (b[i] as u32) && (b[i] as u32)
        == (c[i] as u32) {
        lemma_lex_trans_from(a, b, c, i + 1);
    }
}

} // verus!
