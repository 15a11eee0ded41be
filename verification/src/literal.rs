//! The grammars of the scalar literals that a file may hold, and of the
//! entry names that stand for array indices.
//!
//! Each grammar is stated as a function on characters, and each recogniser is
//! proved to compute it.

use crate::text::{
    all_digits, char_digit_value, char_is_digit, chars_of, decimal_text, decimal_value, is_digit,
    lemma_decimal_value_push, same_text,
};
use vstd::prelude::*;

verus! {

/// `s` without one trailing line terminator, a line feed that a carriage
/// return may precede. Text that ends otherwise is left as it is.
pub open spec fn line_ending_stripped(s: Seq<char>) -> Seq<char> {
    if s.len() >= 2 && s[s.len() - 2] == '\r' && s[s.len() - 1] == '\n' {
        s.take(s.len() - 2)
    } else if s.len() >= 1 && s[s.len() - 1] == '\n' {
        s.take(s.len() - 1)
    } else {
        s
    }
}

/// The truth value that `s` spells: exactly `true` or `false`.
pub open spec fn boolean_literal(s: Seq<char>) -> Option<bool> {
    if s == seq!['t', 'r', 'u', 'e'] {
        Some(true)
    } else if s == seq!['f', 'a', 'l', 's', 'e'] {
        Some(false)
    } else {
        None
    }
}

/// The text of a truth value.
pub open spec fn boolean_text(b: bool) -> Seq<char> {
    if b {
        seq!['t', 'r', 'u', 'e']
    } else {
        seq!['f', 'a', 'l', 's', 'e']
    }
}

/// Whether `s` is a quoted string: it begins with a double quote and ends
/// with another. Whatever stands between the two, nothing included, is its
/// content.
pub open spec fn is_quoted(s: Seq<char>) -> bool {
    &&& s.len() >= 2
    &&& s[0] == '"'
    &&& s[s.len() - 1] == '"'
}

/// What stands between the outer quotes of a quoted string, taken as it is.
pub open spec fn quoted_content(s: Seq<char>) -> Option<Seq<char>> {
    if is_quoted(s) {
        Some(s.subrange(1, s.len() - 1))
    } else {
        None
    }
}

/// `s` without a leading `+` or `-`.
pub open spec fn without_sign(s: Seq<char>) -> Seq<char> {
    if s.len() > 0 && (s[0] == '+' || s[0] == '-') {
        s.skip(1)
    } else {
        s
    }
}

/// The integer that `s` denotes: an optional sign and at least one decimal
/// digit, nothing else.
pub open spec fn signed_decimal(s: Seq<char>) -> Option<int> {
    let digits = without_sign(s);
    if digits.len() == 0 || !all_digits(digits) {
        None
    } else if s[0] == '-' {
        Some(-(decimal_value(digits) as int))
    } else {
        Some(decimal_value(digits) as int)
    }
}

/// The 64-bit signed integer that `s` denotes, if it denotes one.
pub open spec fn integer_literal(s: Seq<char>) -> Option<int> {
    match signed_decimal(s) {
        Some(v) => if i64::MIN <= v <= i64::MAX {
            Some(v)
        } else {
            None
        },
        None => None,
    }
}

/// The text of an integer: its decimal digits, after a `-` where it is
/// negative.
pub open spec fn integer_text(v: int) -> Seq<char> {
    if v < 0 {
        seq!['-'] + decimal_text((-v) as nat)
    } else {
        decimal_text(v as nat)
    }
}

/// The array index that the entry name `s` denotes: an optional `+` and at
/// least one decimal digit. Leading zeros are accepted, so two names may
/// denote one index.
pub open spec fn index_literal(s: Seq<char>) -> Option<nat> {
    let digits = if s.len() > 0 && s[0] == '+' {
        s.skip(1)
    } else {
        s
    };
    if digits.len() == 0 || !all_digits(digits) {
        None
    } else {
        Some(decimal_value(digits))
    }
}

/// Where the run of digits that starts at `from` ends: the first position
/// from there on that holds no digit, or the end of `s`.
pub open spec fn digit_run_end(s: Seq<char>, from: int) -> int
    decreases s.len() - from,
{
    if 0 <= from < s.len() && is_digit(s[from]) {
        digit_run_end(s, from + 1)
    } else {
        from
    }
}

/// The lower-case form of an ASCII capital letter; any other character
/// itself.
pub open spec fn ascii_lowercase(c: char) -> char {
    if 'A' <= c && c <= 'Z' {
        ((c as u32) + 32) as char
    } else {
        c
    }
}

/// Whether `s` spells the lower-case `word`, whatever the case of its own
/// letters.
pub open spec fn spells(s: Seq<char>, word: Seq<char>) -> bool {
    &&& s.len() == word.len()
    &&& forall|i: int| 0 <= i < s.len() ==> ascii_lowercase(#[trigger] s[i]) == word[i]
}

/// Whether `s` names an infinity or not-a-number.
pub open spec fn is_special_float(s: Seq<char>) -> bool {
    ||| spells(s, seq!['i', 'n', 'f'])
    ||| spells(s, seq!['i', 'n', 'f', 'i', 'n', 'i', 't', 'y'])
    ||| spells(s, seq!['n', 'a', 'n'])
}

/// Whether an exponent stands at `at` and reaches to the end of `s`: `e` or
/// `E`, an optional sign, and at least one digit.
pub open spec fn is_exponent(s: Seq<char>, at: int) -> bool {
    let digits = if at + 1 < s.len() && (s[at + 1] == '+' || s[at + 1] == '-') {
        at + 2
    } else {
        at + 1
    };
    &&& 0 <= at < s.len()
    &&& (s[at] == 'e' || s[at] == 'E')
    &&& digits < s.len()
    &&& digit_run_end(s, digits) == s.len()
}

/// Whether `s` is an unsigned decimal number: digits with an optional point
/// among them, before them or behind them, at least one digit in all, and an
/// optional exponent.
pub open spec fn is_decimal_float(s: Seq<char>) -> bool {
    let whole_end = digit_run_end(s, 0);
    let point = whole_end < s.len() && s[whole_end] == '.';
    let mantissa_end = if point {
        digit_run_end(s, whole_end + 1)
    } else {
        whole_end
    };
    let digits = if point {
        mantissa_end - 1
    } else {
        mantissa_end
    };
    &&& digits > 0
    &&& (mantissa_end == s.len() || is_exponent(s, mantissa_end))
}

/// Whether `s` is a floating-point literal: an optional sign, and then a
/// decimal number or the name of an infinity or of not-a-number.
pub open spec fn is_float_literal(s: Seq<char>) -> bool {
    is_special_float(without_sign(s)) || is_decimal_float(without_sign(s))
}

/// The value of a run of digits is at least the value of each of its
/// prefixes.
pub proof fn lemma_decimal_value_prefix(s: Seq<char>, k: int)
    requires
        0 <= k <= s.len(),
        all_digits(s),
    ensures
        decimal_value(s.take(k)) <= decimal_value(s),
    decreases s.len(),
{
    if k == s.len() {
        assert(s.take(k) =~= s);
    } else {
        let front = s.drop_last();
        assert(front.take(k) =~= s.take(k));
        lemma_decimal_value_prefix(front, k);
    }
}

/// The run of digits that starts at `from` reaches at least to `from`, at
/// most to the end, holds digits only, and no digit follows it.
pub proof fn lemma_digit_run_end(s: Seq<char>, from: int)
    requires
        0 <= from <= s.len(),
    ensures
        from <= digit_run_end(s, from) <= s.len(),
        forall|i: int| from <= i < digit_run_end(s, from) ==> is_digit(#[trigger] s[i]),
        digit_run_end(s, from) < s.len() ==> !is_digit(s[digit_run_end(s, from)]),
    decreases s.len() - from,
{
    if from < s.len() && is_digit(s[from]) {
        lemma_digit_run_end(s, from + 1);
    }
}

/// A run of digits that starts at `from` and fills the rest of `s` ends at
/// the end of `s`.
pub proof fn lemma_digit_run_full(s: Seq<char>, from: int)
    requires
        0 <= from <= s.len(),
        forall|i: int| from <= i < s.len() ==> is_digit(#[trigger] s[i]),
    ensures
        digit_run_end(s, from) == s.len(),
    decreases s.len() - from,
{
    if from < s.len() {
        lemma_digit_run_full(s, from + 1);
    }
}

/// An integer literal is a floating-point literal as well: only the order in
/// which the grammars are tried makes it an integer.
pub proof fn lemma_integer_is_float_literal(s: Seq<char>)
    requires
        signed_decimal(s) is Some,
    ensures
        is_float_literal(s),
{
    let u = without_sign(s);
    lemma_digit_run_full(u, 0);
}

/// A floating-point literal begins with a sign, a digit, a point or a
/// letter of `inf` or `nan`, and it ends with a digit, a point or a letter
/// of `inf`, `infinity` or `nan`.
pub proof fn lemma_float_literal_ends(s: Seq<char>)
    requires
        is_float_literal(s),
    ensures
        s.len() >= 1,
        s[0] != '"' && s[0] != 't' && s[0] != 'f',
        s[s.len() - 1] != '\n',
{
    let u = without_sign(s);
    let signed = s.len() > 0 && (s[0] == '+' || s[0] == '-');
    if signed {
        assert(u.len() == s.len() - 1);
        assert(forall|i: int| 0 <= i < u.len() ==> u[i] == s[i + 1]);
    } else {
        assert(u == s);
    }
    if is_special_float(u) {
        let inf = seq!['i', 'n', 'f'];
        let infinity = seq!['i', 'n', 'f', 'i', 'n', 'i', 't', 'y'];
        let nan = seq!['n', 'a', 'n'];
        if spells(u, inf) {
            assert(ascii_lowercase(u[0]) == inf[0]);
            assert(ascii_lowercase(u[2]) == inf[2]);
        } else if spells(u, infinity) {
            assert(ascii_lowercase(u[0]) == infinity[0]);
            assert(ascii_lowercase(u[7]) == infinity[7]);
        } else {
            assert(spells(u, nan));
            assert(ascii_lowercase(u[0]) == nan[0]);
            assert(ascii_lowercase(u[2]) == nan[2]);
        }
    } else {
        assert(is_decimal_float(u));
        let whole_end = digit_run_end(u, 0);
        lemma_digit_run_end(u, 0);
        let point = whole_end < u.len() && u[whole_end] == '.';
        if point {
            lemma_digit_run_end(u, whole_end + 1);
        }
        let mantissa_end = if point {
            digit_run_end(u, whole_end + 1)
        } else {
            whole_end
        };
        if whole_end > 0 {
            assert(is_digit(u[0]));
        } else {
            assert(point);
        }
        if mantissa_end == u.len() {
            if point && mantissa_end == whole_end + 1 {
                assert(u[u.len() - 1] == '.');
            } else {
                assert(is_digit(u[u.len() - 1]));
            }
        } else {
            assert(is_exponent(u, mantissa_end));
            let start = if mantissa_end + 1 < u.len() && (u[mantissa_end + 1] == '+'
                || u[mantissa_end + 1] == '-') {
                mantissa_end + 2
            } else {
                mantissa_end + 1
            };
            lemma_digit_run_end(u, start);
            assert(is_digit(u[u.len() - 1]));
        }
    }
}

/// `text` without one trailing line terminator.
pub fn strip_line_ending(text: &str) -> (r: &str)
    ensures
        r@ == line_ending_stripped(text@),
{
    let n = text.unicode_len();
    if n >= 1 && text.get_char(n - 1) == '\n' {
        if n >= 2 && text.get_char(n - 2) == '\r' {
            text.substring_char(0, n - 2)
        } else {
            text.substring_char(0, n - 1)
        }
    } else {
        assert(text@.subrange(0, n as int) =~= text@);
        text.substring_char(0, n)
    }
}

/// The truth value that `text` spells.
pub fn parse_boolean(text: &str) -> (r: Option<bool>)
    ensures
        r == boolean_literal(text@),
{
    proof {
        reveal_strlit("true");
        reveal_strlit("false");
        assert("true"@ =~= seq!['t', 'r', 'u', 'e']);
        assert("false"@ =~= seq!['f', 'a', 'l', 's', 'e']);
    }
    if same_text(text, "true") {
        Some(true)
    } else if same_text(text, "false") {
        Some(false)
    } else {
        None
    }
}

/// Reads the characters from `from` on as one run of decimal digits that
/// denotes at most `limit`.
pub fn parse_decimal(chars: &Vec<char>, from: usize, limit: u64) -> (r: Option<u64>)
    requires
        from <= chars.len(),
    ensures
        r == (if from < chars.len() && all_digits(chars@.skip(from as int)) && decimal_value(
            chars@.skip(from as int),
        ) <= limit {
            Some(decimal_value(chars@.skip(from as int)) as u64)
        } else {
            None
        }),
{
    let ghost digits = chars@.skip(from as int);
    if from >= chars.len() {
        return None;
    }
    let mut acc: u64 = 0;
    let mut i: usize = from;
    assert(digits.take(0) =~= Seq::<char>::empty());
    while i < chars.len()
        invariant
            from <= i <= chars.len(),
            from < chars.len(),
            digits == chars@.skip(from as int),
            all_digits(digits.take(i - from)),
            acc == decimal_value(digits.take(i - from)),
            acc <= limit,
        decreases chars.len() - i,
    {
        let c = chars[i];
        if !char_is_digit(c) {
            assert(digits[i - from] == c);
            return None;
        }
        let d = char_digit_value(c);
        let next: u128 = acc as u128 * 10 + d as u128;
        proof {
            assert(digits.take(i - from).push(c) =~= digits.take(i + 1 - from));
            lemma_decimal_value_push(digits.take(i - from), c);
            assert(next == decimal_value(digits.take(i + 1 - from)));
        }
        if next > limit as u128 {
            proof {
                if all_digits(digits) {
                    lemma_decimal_value_prefix(digits, i + 1 - from);
                }
            }
            return None;
        }
        acc = next as u64;
        i += 1;
    }
    assert(digits.take(i - from) =~= digits);
    Some(acc)
}

/// The 64-bit signed integer that `text` denotes.
pub fn parse_integer(text: &str) -> (r: Option<i64>)
    ensures
        match r {
            Some(v) => integer_literal(text@) == Some(v as int),
            None => integer_literal(text@) is None,
        },
{
    let chars = chars_of(text);
    if chars.len() == 0 {
        return None;
    }
    let first = chars[0];
    if first == '-' {
        assert(without_sign(text@) =~= chars@.skip(1));
        match parse_decimal(&chars, 1, 9223372036854775808) {
            Some(m) => if m == 9223372036854775808 {
                Some(i64::MIN)
            } else {
                Some(-(m as i64))
            },
            None => None,
        }
    } else if first == '+' {
        assert(without_sign(text@) =~= chars@.skip(1));
        match parse_decimal(&chars, 1, 9223372036854775807) {
            Some(m) => Some(m as i64),
            None => None,
        }
    } else {
        assert(without_sign(text@) =~= chars@.skip(0));
        match parse_decimal(&chars, 0, 9223372036854775807) {
            Some(m) => Some(m as i64),
            None => None,
        }
    }
}

/// The array index below `bound` that the entry name `text` denotes.
pub fn parse_index(text: &str, bound: usize) -> (r: Option<usize>)
    ensures
        match r {
            Some(k) => index_literal(text@) == Some(k as nat) && k < bound,
            None => match index_literal(text@) {
                Some(k) => k >= bound,
                None => true,
            },
        },
{
    if bound == 0 {
        return None;
    }
    let chars = chars_of(text);
    let from: usize = if chars.len() > 0 && chars[0] == '+' {
        1
    } else {
        0
    };
    assert(chars@.skip(0) =~= chars@);
    match parse_decimal(&chars, from, (bound - 1) as u64) {
        Some(k) => Some(k as usize),
        None => None,
    }
}

/// Where the run of digits that starts at `from` ends.
pub fn scan_digits(chars: &Vec<char>, from: usize) -> (end: usize)
    requires
        from <= chars.len(),
    ensures
        end == digit_run_end(chars@, from as int),
        from <= end <= chars.len(),
{
    let mut i: usize = from;
    while i < chars.len() && char_is_digit(chars[i])
        invariant
            from <= i <= chars.len(),
            digit_run_end(chars@, i as int) == digit_run_end(chars@, from as int),
        decreases chars.len() - i,
    {
        i += 1;
    }
    i
}

/// The lower-case form of an ASCII capital letter; any other character
/// itself.
fn lowercase(c: char) -> (r: char)
    ensures
        r == ascii_lowercase(c),
{
    if 'A' <= c && c <= 'Z' {
        let code: u32 = c as u32 + 32;
        assert(code == 'a' as u32 + (c as u32 - 'A' as u32));
        code as u8 as char
    } else {
        c
    }
}

/// Whether the characters from `from` on spell the lower-case `word`,
/// whatever the case of their own letters.
fn spells_word(chars: &Vec<char>, from: usize, word: &Vec<char>) -> (r: bool)
    requires
        from <= chars.len(),
    ensures
        r == spells(chars@.skip(from as int), word@),
{
    let ghost s = chars@.skip(from as int);
    if chars.len() - from != word.len() {
        return false;
    }
    let mut i: usize = 0;
    while i < word.len()
        invariant
            i <= word.len(),
            from <= chars.len(),
            chars.len() - from == word.len(),
            s == chars@.skip(from as int),
            forall|j: int| 0 <= j < i ==> ascii_lowercase(#[trigger] s[j]) == word@[j],
        decreases word.len() - i,
    {
        if lowercase(chars[from + i]) != word[i] {
            assert(s[i as int] == chars@[from + i]);
            return false;
        }
        assert(s[i as int] == chars@[from + i]);
        i += 1;
    }
    true
}

/// Whether `text` is a floating-point literal.
pub fn recognize_float(text: &str) -> (r: bool)
    ensures
        r == is_float_literal(text@),
{
    let chars = chars_of(text);
    let from: usize = if chars.len() > 0 && (chars[0] == '+' || chars[0] == '-') {
        1
    } else {
        0
    };
    let ghost s = chars@.skip(from as int);
    assert(s =~= without_sign(text@));
    if spells_word(&chars, from, &vec!['i', 'n', 'f']) || spells_word(
        &chars,
        from,
        &vec!['i', 'n', 'f', 'i', 'n', 'i', 't', 'y'],
    ) || spells_word(&chars, from, &vec!['n', 'a', 'n']) {
        return true;
    }
    assert(!is_special_float(s));
    let body = skip_chars(&chars, from);
    assert(body@ == s);
    let whole_end = scan_digits(&body, 0);
    let point = whole_end < body.len() && body[whole_end] == '.';
    let mantissa_end = if point {
        scan_digits(&body, whole_end + 1)
    } else {
        whole_end
    };
    let digits = if point {
        mantissa_end - 1
    } else {
        mantissa_end
    };
    if digits == 0 {
        return false;
    }
    if mantissa_end == body.len() {
        return true;
    }
    let mark = body[mantissa_end];
    if mark != 'e' && mark != 'E' {
        return false;
    }
    let start = if mantissa_end + 1 < body.len() && (body[mantissa_end + 1] == '+'
        || body[mantissa_end + 1] == '-') {
        mantissa_end + 2
    } else {
        mantissa_end + 1
    };
    if start >= body.len() {
        return false;
    }
    scan_digits(&body, start) == body.len()
}

/// The characters of `chars` from `from` on.
fn skip_chars(chars: &Vec<char>, from: usize) -> (r: Vec<char>)
    requires
        from <= chars.len(),
    ensures
        r@ == chars@.skip(from as int),
{
    let mut r: Vec<char> = Vec::new();
    let mut i: usize = from;
    while i < chars.len()
        invariant
            from <= i <= chars.len(),
            r@ == chars@.subrange(from as int, i as int),
        decreases chars.len() - i,
    {
        r.push(chars[i]);
        i += 1;
    }
    assert(chars@.subrange(from as int, chars.len() as int) =~= chars@.skip(from as int));
    r
}

} // verus!
