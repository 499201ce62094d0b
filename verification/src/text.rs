//! Plain text: decimal and hexadecimal numerals, comparison, and the Unicode
//! trimming and lowercasing that queries go through.

use vstd::prelude::*;

verus! {

// ---------------------------------------------------------------------------
// What std promises of strings
// ---------------------------------------------------------------------------

/// `String::push` appends one character.
pub assume_specification[ String::push ](s: &mut String, c: char)
    ensures
        final(s)@ == old(s)@.push(c),
;

/// The characters of the Unicode property `White_Space`.
pub open spec fn white_space(c: char) -> bool {
    ||| '\u{9}' <= c <= '\u{d}'
    ||| c == ' '
    ||| c == '\u{85}'
    ||| c == '\u{a0}'
    ||| c == '\u{1680}'
    ||| '\u{2000}' <= c <= '\u{200a}'
    ||| c == '\u{2028}'
    ||| c == '\u{2029}'
    ||| c == '\u{202f}'
    ||| c == '\u{205f}'
    ||| c == '\u{3000}'
}

/// `char::is_whitespace` tells whether a character has the Unicode property
/// `White_Space`.
pub assume_specification[ char::is_whitespace ](c: char) -> (white: bool)
    ensures
        white == white_space(c),
;

/// What `str::to_lowercase` makes of a text: Unicode lowercasing, in which one
/// character can become several and a final sigma is told from an inner one.
pub uninterp spec fn lowercase_of(text: Seq<char>) -> Seq<char>;

/// One ASCII character in lower case.
pub open spec fn ascii_lower_char(c: char) -> char {
    if 'A' <= c <= 'Z' {
        ((c as u32 + 32) as u32) as char
    } else {
        c
    }
}

/// A text with its ASCII letters in lower case.
pub open spec fn ascii_lower(text: Seq<char>) -> Seq<char> {
    Seq::new(text.len(), |i: int| ascii_lower_char(text[i]))
}

/// Lowercases by `str::to_lowercase`. Its result is a function of the text
/// alone; on ASCII text it changes the letters `A` to `Z` and nothing else.
#[verifier::external_body]
pub(crate) fn to_lowercase(text: &str) -> (lower: String)
    ensures
        lower@ == lowercase_of(text@),
        vstd::utf8::is_ascii_chars(text@) ==> lower@ == ascii_lower(text@),
{
    text.to_lowercase()
}

/// Decodes by `str::from_utf8`: a text comes back exactly where the bytes are
/// valid UTF-8.
#[verifier::external_body]
pub(crate) fn utf8_text(bytes: &[u8]) -> (text: Option<String>)
    ensures
        text is Some <==> vstd::utf8::valid_utf8(bytes@),
        text matches Some(t) ==> t@ == vstd::utf8::decode_utf8(bytes@),
{
    core::str::from_utf8(bytes).ok().map(|t| t.to_string())
}

/// What `String::from_utf8_lossy` makes of bytes: each ill-formed stretch
/// becomes a replacement character.
pub uninterp spec fn lossy_text(bytes: Seq<u8>) -> Seq<char>;

/// Decodes by `String::from_utf8_lossy`, which changes nothing in valid UTF-8.
#[verifier::external_body]
pub(crate) fn to_lossy_text(bytes: &[u8]) -> (text: String)
    ensures
        text@ == lossy_text(bytes@),
        vstd::utf8::valid_utf8(bytes@) ==> text@ == vstd::utf8::decode_utf8(bytes@),
{
    String::from_utf8_lossy(bytes).into_owned()
}

/// The text that `Debug` prints for a string: quoted, with escapes.
pub uninterp spec fn quoted(text: Seq<char>) -> Seq<char>;

/// Prints a string by its `Debug` impl.
#[verifier::external_body]
pub(crate) fn debug_text(text: &str) -> (shown: String)
    ensures
        shown@ == quoted(text@),
{
    format!("{:?}", text)
}

// ---------------------------------------------------------------------------
// Comparison
// ---------------------------------------------------------------------------

/// Whether two byte strings are the same.
pub(crate) fn bytes_eq(a: &[u8], b: &[u8]) -> (same: bool)
    ensures
        same == (a@ == b@),
{
    if a.len() != b.len() {
        return false;
    }
    let mut i: usize = 0;
    while i < a.len()
        invariant
            a@.len() == b@.len(),
            i <= a@.len(),
            forall|j: int| 0 <= j < i ==> a@[j] == b@[j],
        decreases a@.len() - i,
    {
        if a[i] != b[i] {
            return false;
        }
        i += 1;
    }
    assert(a@ =~= b@);
    true
}

/// Whether two texts are the same.
pub(crate) fn text_eq(a: &str, b: &str) -> (same: bool)
    ensures
        same == (a@ == b@),
{
    let same = bytes_eq(a.as_bytes(), b.as_bytes());
    proof {
        vstd::utf8::encode_utf8_decode_utf8(a@);
        vstd::utf8::encode_utf8_decode_utf8(b@);
    }
    same
}

// ---------------------------------------------------------------------------
// Case and white space
// ---------------------------------------------------------------------------

/// A text with its ASCII letters in lower case and all else unchanged.
pub fn to_ascii_lower(text: &str) -> (lower: String)
    ensures
        lower@ == ascii_lower(text@),
{
    let mut lower: String = String::new();
    for c in it: text.chars()
        invariant
            it.seq() == text@,
            lower@ == ascii_lower(text@.take(it.index() as int)),
    {
        let ghost i = it.index() as int;
        assert(text@.take(i + 1) =~= text@.take(i).push(c));
        if 'A' <= c && c <= 'Z' {
            let code: u8 = (c as u8) + 32;
            lower.push(code as char);
        } else {
            lower.push(c);
        }
        assert(lower@ =~= ascii_lower(text@.take(i + 1)));
    }
    assert(text@.take(text@.len() as int) =~= text@);
    lower
}

/// A text without its leading white space.
pub open spec fn trim_start(text: Seq<char>) -> Seq<char>
    decreases text.len(),
{
    if text.len() > 0 && white_space(text[0]) {
        trim_start(text.skip(1))
    } else {
        text
    }
}

/// A text without its trailing white space.
pub open spec fn trim_end(text: Seq<char>) -> Seq<char>
    decreases text.len(),
{
    if text.len() > 0 && white_space(text.last()) {
        trim_end(text.drop_last())
    } else {
        text
    }
}

/// A text without leading and trailing white space.
pub open spec fn trimmed(text: Seq<char>) -> Seq<char> {
    trim_end(trim_start(text))
}

/// The characters of a text.
pub(crate) fn chars_of(text: &str) -> (chars: Vec<char>)
    ensures
        chars@ == text@,
{
    let mut chars: Vec<char> = Vec::new();
    for c in it: text.chars()
        invariant
            it.seq() == text@,
            chars@ == text@.take(it.index() as int),
    {
        chars.push(c);
        assert(text@.take(it.index() + 1) =~= text@.take(it.index() as int).push(c));
    }
    assert(text@.take(text@.len() as int) =~= text@);
    chars
}

/// The text of a stretch of characters.
pub(crate) fn text_of(chars: &Vec<char>, from: usize, to: usize) -> (text: String)
    requires
        from <= to <= chars@.len(),
    ensures
        text@ == chars@.subrange(from as int, to as int),
{
    let mut text: String = String::new();
    let mut i: usize = from;
    while i < to
        invariant
            from <= i <= to <= chars@.len(),
            text@ == chars@.subrange(from as int, i as int),
        decreases to - i,
    {
        text.push(chars[i]);
        i += 1;
        assert(chars@.subrange(from as int, i as int) =~= chars@.subrange(
            from as int,
            i - 1,
        ).push(chars@[i - 1]));
    }
    text
}

/// Trims white space from both ends of a text.
pub fn trim(text: &str) -> (short: String)
    ensures
        short@ == trimmed(text@),
{
    let chars = chars_of(text);
    let mut from: usize = 0;
    assert(text@.skip(0) =~= text@);
    while from < chars.len() && chars[from].is_whitespace()
        invariant
            chars@ == text@,
            from <= text@.len(),
            trim_start(text@) == trim_start(text@.skip(from as int)),
        decreases text@.len() - from,
    {
        assert(text@.skip(from as int).skip(1) =~= text@.skip(from + 1));
        from += 1;
    }
    let ghost rest = text@.skip(from as int);
    assert(trim_start(text@) == rest);
    let mut to: usize = chars.len();
    assert(rest.take(rest.len() as int) =~= rest);
    while from < to && chars[to - 1].is_whitespace()
        invariant
            chars@ == text@,
            from <= to <= text@.len(),
            rest == text@.skip(from as int),
            trim_end(rest) == trim_end(rest.take(to - from)),
        decreases to,
    {
        assert(rest.take(to - from).drop_last() =~= rest.take(to - from - 1));
        to -= 1;
    }
    assert(rest.take(to - from) =~= text@.subrange(from as int, to as int));
    text_of(&chars, from, to)
}

/// A text has nothing left after trimming exactly when it is all white space.
pub proof fn lemma_trimmed_empty(text: Seq<char>)
    ensures
        trimmed(text).len() == 0 <==> forall|i: int|
            0 <= i < text.len() ==> white_space(#[trigger] text[i]),
    decreases text.len(),
{
    if text.len() > 0 {
        if white_space(text[0]) {
            let rest = text.skip(1);
            lemma_trimmed_empty(rest);
            if trimmed(text).len() == 0 {
                assert forall|i: int| 0 <= i < text.len() implies white_space(
                    #[trigger] text[i],
                ) by {
                    if i > 0 {
                        assert(rest[i - 1] == text[i]);
                    }
                }
            }
        } else {
            lemma_trim_end_keeps_first(text);
        }
    }
}

proof fn lemma_trim_end_keeps_first(text: Seq<char>)
    requires
        text.len() > 0,
        !white_space(text[0]),
    ensures
        trim_end(text).len() > 0,
        trim_end(text)[0] == text[0],
    decreases text.len(),
{
    if white_space(text.last()) {
        assert(text.len() > 1);
        lemma_trim_end_keeps_first(text.drop_last());
    }
}

/// Trimming a trimmed text changes nothing.
pub proof fn lemma_trimmed_twice(text: Seq<char>)
    ensures
        trimmed(trimmed(text)) == trimmed(text),
{
    let a = trim_start(text);
    lemma_trim_start_done(text);
    lemma_trim_end_done(a);
    if a.len() > 0 {
        lemma_trim_end_keeps_first(a);
    }
}

proof fn lemma_trim_start_done(text: Seq<char>)
    ensures
        trim_start(text).len() > 0 ==> !white_space(trim_start(text)[0]),
    decreases text.len(),
{
    if text.len() > 0 && white_space(text[0]) {
        lemma_trim_start_done(text.skip(1));
    }
}

proof fn lemma_trim_end_done(text: Seq<char>)
    ensures
        trim_end(text).len() > 0 ==> !white_space(trim_end(text).last()),
    decreases text.len(),
{
    if text.len() > 0 && white_space(text.last()) {
        lemma_trim_end_done(text.drop_last());
    }
}

// ---------------------------------------------------------------------------
// Numerals
// ---------------------------------------------------------------------------

/// The character of a digit below ten.
pub open spec fn digit_char(d: int) -> char {
    (d + 48) as char
}

/// The value of a digit character.
pub open spec fn digit_value(c: char) -> int {
    c as int - 48
}

/// Whether a character is an ASCII digit.
pub open spec fn is_digit(c: char) -> bool {
    '0' <= c <= '9'
}

/// The decimal numeral of a natural number, without leading zeros.
pub open spec fn digits(n: nat) -> Seq<char>
    decreases n,
{
    if n < 10 {
        seq![digit_char(n as int)]
    } else {
        digits(n / 10).push(digit_char((n % 10) as int))
    }
}

/// The decimal numeral of an integer.
pub open spec fn decimal(n: int) -> Seq<char> {
    if n < 0 {
        seq!['-'] + digits((-n) as nat)
    } else {
        digits(n as nat)
    }
}

/// The number that a string of digits stands for.
pub open spec fn digits_value(text: Seq<char>) -> nat
    decreases text.len(),
{
    if text.len() == 0 {
        0
    } else {
        digits_value(text.drop_last()) * 10 + digit_value(text.last()) as nat
    }
}

/// Whether a text is one digit or more and nothing else.
pub open spec fn all_digits(text: Seq<char>) -> bool {
    &&& text.len() > 0
    &&& forall|i: int| 0 <= i < text.len() ==> is_digit(#[trigger] text[i])
}

/// The integer that a text stands for: digits, with a sign before them or not.
pub open spec fn integer_value(text: Seq<char>) -> Option<int> {
    if text.len() > 0 && (text[0] == '-' || text[0] == '+') {
        if !all_digits(text.skip(1)) {
            None
        } else if text[0] == '-' {
            Some(-(digits_value(text.skip(1)) as int))
        } else {
            Some(digits_value(text.skip(1)) as int)
        }
    } else if all_digits(text) {
        Some(digits_value(text) as int)
    } else {
        None
    }
}

/// The decimal numeral of a natural number.
pub fn decimal_u64(n: u64) -> (text: String)
    ensures
        text@ == decimal(n as int),
    decreases n,
{
    let mut text: String = if n < 10 {
        String::new()
    } else {
        decimal_u64(n / 10)
    };
    let digit: u8 = (n % 10) as u8 + 48;
    text.push(digit as char);
    assert(text@ =~= digits(n as nat));
    text
}

/// The decimal numeral of an integer.
pub fn decimal_i64(n: i64) -> (text: String)
    ensures
        text@ == decimal(n as int),
{
    if n >= 0 {
        return decimal_u64(n as u64);
    }
    let size: u64 = if n == i64::MIN {
        0x8000_0000_0000_0000
    } else {
        (-n) as u64
    };
    let mut text: String = "-".to_string();
    text.append(decimal_u64(size).as_str());
    proof {
        reveal_strlit("-");
        assert("-"@ =~= seq!['-']);
    }
    text
}

/// Reads an integer in the range of `i64`: an optional sign, then digits.
pub fn parse_i64(text: &str) -> (n: Option<i64>)
    ensures
        n == (match integer_value(text@) {
            Some(v) if i64::MIN <= v <= i64::MAX => Some(v as i64),
            _ => None,
        }),
{
    let chars = chars_of(text);
    if chars.len() == 0 {
        return None;
    }
    let signed = chars[0] == '-' || chars[0] == '+';
    let negative = chars[0] == '-';
    let start: usize = if signed {
        1
    } else {
        0
    };
    let ghost body = if signed {
        text@.skip(1)
    } else {
        text@
    };
    if chars.len() == start {
        return None;
    }
    let limit: u64 = if negative {
        0x8000_0000_0000_0000
    } else {
        0x7fff_ffff_ffff_ffff
    };
    let mut value: u64 = 0;
    let mut over = false;
    let mut i: usize = start;
    assert(body =~= text@.skip(start as int));
    #[verifier::loop_isolation(false)]
    while i < chars.len()
        invariant
            start <= i <= chars@.len(),
            forall|j: int| 0 <= j < i - start ==> is_digit(#[trigger] body[j]),
            over <==> digits_value(body.take(i - start)) > limit,
            !over ==> value == digits_value(body.take(i - start)),
        decreases chars@.len() - i,
    {
        let c = chars[i];
        assert(body[i - start] == c);
        if !('0' <= c && c <= '9') {
            assert(!all_digits(body));
            return None;
        }
        let d: u64 = (c as u64) - 48;
        assert(body.take(i - start + 1).drop_last() =~= body.take(i - start));
        if !over {
            if value > (limit - d) / 10 {
                over = true;
                assert(value * 10 + d > limit);
            } else {
                value = value * 10 + d;
            }
        }
        i += 1;
    }
    assert(body.take(body.len() as int) =~= body);
    if over {
        None
    } else if negative {
        if value == 0x8000_0000_0000_0000 {
            Some(i64::MIN)
        } else {
            Some(-(value as i64))
        }
    } else {
        Some(value as i64)
    }
}

proof fn lemma_digits(n: nat)
    ensures
        all_digits(digits(n)),
        digits_value(digits(n)) == n,
    decreases n,
{
    if n < 10 {
        assert(digits(n).drop_last() =~= Seq::<char>::empty());
        assert(digits_value(digits(n).drop_last()) == 0);
    } else {
        lemma_digits(n / 10);
        assert(digits(n).drop_last() =~= digits(n / 10));
    }
}

/// Reading the numeral of an integer gives the integer back.
pub proof fn lemma_decimal_reads_back(n: int)
    ensures
        integer_value(decimal(n)) == Some(n),
{
    if n < 0 {
        lemma_digits((-n) as nat);
        assert(decimal(n).skip(1) =~= digits((-n) as nat));
    } else {
        lemma_digits(n as nat);
        assert(is_digit(decimal(n)[0]));
    }
}

/// A numeral holds digits and at most a leading minus sign.
pub proof fn lemma_decimal_characters(n: int)
    ensures
        decimal(n).len() > 0,
        forall|i: int|
            0 <= i < decimal(n).len() ==> is_digit(#[trigger] decimal(n)[i]) || (i == 0
                && decimal(n)[i] == '-'),
{
    if n < 0 {
        lemma_digits((-n) as nat);
        assert forall|i: int| 0 < i < decimal(n).len() implies is_digit(
            #[trigger] decimal(n)[i],
        ) by {
            assert(decimal(n)[i] == digits((-n) as nat)[i - 1]);
        }
    } else {
        lemma_digits(n as nat);
    }
}

/// The lower-case hexadecimal digit of a number below sixteen.
pub open spec fn hex_char(d: int) -> char {
    if d < 10 {
        (d + 48) as char
    } else {
        (d + 87) as char
    }
}

/// Two hexadecimal digits for each byte.
pub open spec fn hex(bytes: Seq<u8>) -> Seq<char>
    decreases bytes.len(),
{
    if bytes.len() == 0 {
        Seq::empty()
    } else {
        hex(bytes.drop_last()).push(hex_char(bytes.last() as int / 16)).push(
            hex_char(bytes.last() as int % 16),
        )
    }
}

fn hex_digit(d: u8) -> (c: char)
    requires
        d < 16,
    ensures
        c == hex_char(d as int),
{
    let code: u8 = if d < 10 {
        d + 48
    } else {
        d + 87
    };
    code as char
}

/// Writes bytes in lower-case hexadecimal.
pub fn to_hex(bytes: &[u8]) -> (text: String)
    ensures
        text@ == hex(bytes@),
{
    let mut text: String = String::new();
    let mut i: usize = 0;
    while i < bytes.len()
        invariant
            i <= bytes@.len(),
            text@ == hex(bytes@.take(i as int)),
        decreases bytes@.len() - i,
    {
        text.push(hex_digit(bytes[i] / 16));
        text.push(hex_digit(bytes[i] % 16));
        i += 1;
        assert(bytes@.take(i as int).drop_last() =~= bytes@.take(i - 1));
    }
    assert(bytes@.take(bytes@.len() as int) =~= bytes@);
    text
}

/// Whether a hexadecimal digit in lower case stands for a number below sixteen.
pub open spec fn stands_for_nibble(c: char, n: int) -> bool {
    ||| '0' <= c <= '9' && n == c as int - '0' as int
    ||| 'a' <= c <= 'f' && n == c as int - 'a' as int + 10
}

/// Each byte is written as two digits, the greater part first.
pub proof fn lemma_hex_digits(bytes: Seq<u8>)
    ensures
        hex(bytes).len() == 2 * bytes.len(),
        forall|i: int|
            0 <= i < bytes.len() ==> stands_for_nibble(
                hex(bytes)[2 * i],
                (#[trigger] bytes[i]) as int / 16,
            ) && stands_for_nibble(hex(bytes)[2 * i + 1], bytes[i] as int % 16),
    decreases bytes.len(),
{
    if bytes.len() > 0 {
        let init = bytes.drop_last();
        lemma_hex_digits(init);
        assert forall|i: int| 0 <= i < bytes.len() implies stands_for_nibble(
            hex(bytes)[2 * i],
            (#[trigger] bytes[i]) as int / 16,
        ) && stands_for_nibble(hex(bytes)[2 * i + 1], bytes[i] as int % 16) by {
            if i < init.len() {
                assert(init[i] == bytes[i]);
                assert(hex(bytes)[2 * i] == hex(init)[2 * i]);
                assert(hex(bytes)[2 * i + 1] == hex(init)[2 * i + 1]);
            }
        }
    }
}

/// Whether a text is cut at `a` and `b`: what is cut off is white space, and what is
/// left neither begins nor ends with any.
pub open spec fn cuts(text: Seq<char>, a: int, b: int) -> bool {
    &&& 0 <= a <= b <= text.len()
    &&& forall|i: int| 0 <= i < a ==> white_space(#[trigger] text[i])
    &&& forall|i: int| b <= i < text.len() ==> white_space(#[trigger] text[i])
    &&& a < b ==> !white_space(text[a]) && !white_space(text[b - 1])
}

proof fn lemma_trim_start_cut(text: Seq<char>) -> (a: int)
    ensures
        0 <= a <= text.len(),
        trim_start(text) == text.skip(a),
        forall|i: int| 0 <= i < a ==> white_space(#[trigger] text[i]),
        a < text.len() ==> !white_space(text[a]),
    decreases text.len(),
{
    if text.len() > 0 && white_space(text[0]) {
        let rest = text.skip(1);
        let a = lemma_trim_start_cut(rest);
        assert(rest.skip(a) =~= text.skip(a + 1));
        assert forall|i: int| 0 <= i < a + 1 implies white_space(#[trigger] text[i]) by {
            if i > 0 {
                assert(rest[i - 1] == text[i]);
            }
        }
        if a < rest.len() {
            assert(rest[a] == text[a + 1]);
        }
        a + 1
    } else {
        assert(text.skip(0) =~= text);
        0
    }
}

proof fn lemma_trim_end_cut(text: Seq<char>) -> (b: int)
    ensures
        0 <= b <= text.len(),
        trim_end(text) == text.take(b),
        forall|i: int| b <= i < text.len() ==> white_space(#[trigger] text[i]),
        b > 0 ==> !white_space(text[b - 1]),
    decreases text.len(),
{
    if text.len() > 0 && white_space(text.last()) {
        let init = text.drop_last();
        let b = lemma_trim_end_cut(init);
        assert(init.take(b) =~= text.take(b));
        assert forall|i: int| b <= i < text.len() implies white_space(#[trigger] text[i]) by {
            if i < init.len() {
                assert(init[i] == text[i]);
            }
        }
        if b > 0 {
            assert(init[b - 1] == text[b - 1]);
        }
        b
    } else {
        assert(text.take(text.len() as int) =~= text);
        text.len() as int
    }
}

/// Trimming takes away the white space at both ends and nothing else.
pub proof fn lemma_trimmed_cut(text: Seq<char>)
    ensures
        exists|a: int, b: int| #[trigger] cuts(text, a, b) && trimmed(text) == text.subrange(a, b),
{
    let a = lemma_trim_start_cut(text);
    let rest = text.skip(a);
    let c = lemma_trim_end_cut(rest);
    let b = a + c;
    assert(rest.take(c) =~= text.subrange(a, b));
    assert forall|i: int| b <= i < text.len() implies white_space(#[trigger] text[i]) by {
        assert(rest[i - a] == text[i]);
    }
    if a < b {
        assert(rest[c - 1] == text[b - 1]);
    }
    assert(cuts(text, a, b));
}

/// Lower case touches the letters from `A` to `Z` alone, and gives each its own.
pub proof fn lemma_ascii_lower(text: Seq<char>)
    ensures
        ascii_lower(text).len() == text.len(),
        forall|i: int|
            0 <= i < text.len() ==> #[trigger] ascii_lower(text)[i] as int == if 'A' <= text[i]
                <= 'Z' {
                text[i] as int + 32
            } else {
                text[i] as int
            },
{
}

/// A numeral has its most significant digit first, and each place counts ten times the
/// next.
pub proof fn lemma_digits_by_place(a: Seq<char>, b: Seq<char>)
    requires
        all_digits(b),
    ensures
        digits_value(a + b) == digits_value(a) * vstd::arithmetic::power::pow(10, b.len())
            + digits_value(b),
        b.len() == 1 ==> digits_value(b) == b[0] as int - '0' as int,
    decreases b.len(),
{
    assert((a + b).drop_last() =~= a + b.drop_last());
    assert((a + b).last() == b.last());
    assert(is_digit(b[b.len() - 1]));
    vstd::arithmetic::power::lemma_pow1(10);
    if b.len() == 1 {
        assert(a + b.drop_last() =~= a);
        assert(digits_value(b.drop_last()) == 0);
    } else {
        let init = b.drop_last();
        assert forall|i: int| 0 <= i < init.len() implies is_digit(#[trigger] init[i]) by {
            assert(is_digit(b[i]));
        }
        lemma_digits_by_place(a, init);
        vstd::arithmetic::power::lemma_pow_adds(10, init.len(), 1);
        let x = digits_value(a) as int;
        let p = vstd::arithmetic::power::pow(10, init.len());
        assert(x * p * 10 == x * (p * 10)) by (nonlinear_arith);
    }
}

/// A numeral has no zero in front, unless it is that of zero.
pub proof fn lemma_no_leading_zero(n: nat)
    ensures
        decimal(n as int)[0] == '0' <==> n == 0,
    decreases n,
{
    if n >= 10 {
        lemma_no_leading_zero(n / 10);
        lemma_decimal_characters((n / 10) as int);
    }
}

}
