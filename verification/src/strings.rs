//! Small operations on strings, as sequences of Unicode scalar values.

use vstd::prelude::*;
use vstd::utf8::encode_scalar;
use vstd::utf8::encode_utf8;

verus! {

/// Trusted: `String::push` appends the character it is given.
pub assume_specification[ String::push ](s: &mut String, c: char)
    ensures
        final(s)@ == old(s)@.push(c),
;

/// Trusted: `==` on `str` compares the characters of both sides.
pub assume_specification[ <str as PartialEq>::eq ](a: &str, b: &str) -> (equal: bool)
    ensures
        equal == (a@ == b@),
;

/// Trusted: `char::is_whitespace` tells whether a character has the Unicode
/// property `White_Space`.
pub assume_specification[ char::is_whitespace ](c: char) -> (space: bool)
    ensures
        space == white_space(c),
;

/// The Unicode property `White_Space`.
pub open spec fn white_space(c: char) -> bool {
    let code = c as u32;
    ||| 0x9 <= code <= 0xd
    ||| code == 0x20
    ||| code == 0x85
    ||| code == 0xa0
    ||| code == 0x1680
    ||| 0x2000 <= code <= 0x200a
    ||| code == 0x2028
    ||| code == 0x2029
    ||| code == 0x202f
    ||| code == 0x205f
    ||| code == 0x3000
}

/// The characters of each string.
pub open spec fn views(strings: Seq<String>) -> Seq<Seq<char>> {
    strings.map_values(|s: String| s@)
}

pub proof fn lemma_views_push(strings: Seq<String>, s: String)
    ensures
        views(strings.push(s)) == views(strings).push(s@),
{
    assert(views(strings.push(s)) =~= views(strings).push(s@));
}

/// Whether two strings hold the same characters.
pub fn same(a: &str, b: &str) -> (equal: bool)
    ensures
        equal == (a@ == b@),
{
    *a == *b
}

/// Whether one of `strings` holds exactly the characters of `text`.
pub fn contains(strings: &[String], text: &str) -> (found: bool)
    ensures
        found == views(strings@).contains(text@),
{
    for i in 0..strings.len()
        invariant
            forall|j: int| 0 <= j < i ==> (#[trigger] strings@[j])@ != text@,
    {
        if same(strings[i].as_str(), text) {
            assert(views(strings@)[i as int] == text@);
            return true;
        }
    }
    assert forall|j: int| 0 <= j < views(strings@).len() implies views(strings@)[j] != text@ by {
        assert(views(strings@)[j] == strings@[j]@);
    }
    false
}

/// An independent copy of a list of strings.
pub fn copy_of(strings: &[String]) -> (copy: Vec<String>)
    ensures
        copy@ == strings@,
{
    let mut copy: Vec<String> = Vec::new();
    for i in 0..strings.len()
        invariant
            copy@ == strings@.take(i as int),
    {
        copy.push(strings[i].clone());
        assert(copy@ =~= strings@.take(i + 1));
    }
    assert(strings@.take(strings@.len() as int) =~= strings@);
    copy
}

/// The characters of a string, in order.
pub fn chars_of(text: &str) -> (chars: Vec<char>)
    ensures
        chars@ == text@,
{
    let mut chars: Vec<char> = Vec::new();
    for c in it: text.chars()
        invariant
            chars@ == text@.take(it.index()),
            it.seq() == text@,
    {
        chars.push(c);
    }
    chars
}

/// The string made of the characters in `from..to`.
pub fn text_of(chars: &[char], from: usize, to: usize) -> (text: String)
    requires
        from <= to <= chars@.len(),
    ensures
        text@ == chars@.subrange(from as int, to as int),
{
    let mut text: String = String::new();
    let mut i: usize = from;
    while i < to
        invariant
            from <= i <= to <= chars@.len(),
            text@ == chars@.subrange(from as int, i as int),
        decreases to - i,
    {
        text.push(chars[i]);
        i = i + 1;
        assert(text@ =~= chars@.subrange(from as int, i as int));
    }
    text
}

/// Appends the characters of `tail` to `text`.
pub fn append(text: &mut String, tail: &str)
    ensures
        final(text)@ == old(text)@ + tail@,
{
    for c in it: tail.chars()
        invariant
            text@ == old(text)@ + tail@.take(it.index()),
            it.seq() == tail@,
    {
        text.push(c);
        assert(tail@.take(it.index() + 1) =~= tail@.take(it.index()).push(c));
        assert(text@ =~= old(text)@ + tail@.take(it.index() + 1));
    }
    assert(tail@.take(tail@.len() as int) =~= tail@);
}

// ---------------------------------------------------------------- numerals

/// The decimal digit that stands for `d`.
pub open spec fn digit(d: nat) -> char {
    ('0' as u32 + d) as char
}

/// The value of a decimal digit, or `None` for any other character.
pub open spec fn digit_value(c: char) -> Option<nat> {
    if '0' <= c <= '9' {
        Some((c as u32 - '0' as u32) as nat)
    } else {
        None
    }
}

/// The shortest decimal numeral of `n`.
pub open spec fn numeral(n: nat) -> Seq<char>
    decreases n,
{
    if n < 10 {
        seq![digit(n)]
    } else {
        numeral(n / 10).push(digit(n % 10))
    }
}

/// The number that a sequence of decimal digits denotes.
pub open spec fn numeral_value(digits: Seq<char>) -> nat
    decreases digits.len(),
{
    if digits.len() == 0 {
        0
    } else {
        10 * numeral_value(digits.drop_last()) + digit_value(digits.last()).unwrap_or(0)
    }
}

pub open spec fn all_digits(chars: Seq<char>) -> bool {
    forall|i: int| 0 <= i < chars.len() ==> digit_value(#[trigger] chars[i]) is Some
}

pub proof fn lemma_digit_value(d: nat)
    requires
        d < 10,
    ensures
        digit_value(digit(d)) == Some(d),
{
}

/// A numeral denotes the number it was written for, in digits alone.
pub proof fn lemma_numeral_value(n: nat)
    ensures
        numeral_value(numeral(n)) == n,
        all_digits(numeral(n)),
        numeral(n).len() > 0,
    decreases n,
{
    lemma_digit_value(n % 10);
    reveal_with_fuel(numeral_value, 2);
    if n >= 10 {
        lemma_numeral_value(n / 10);
        assert(numeral(n).drop_last() =~= numeral(n / 10));
    } else {
        assert(numeral(n).drop_last() =~= Seq::<char>::empty());
    }
}

/// The decimal digit for `d`.
fn digit_char(d: u64) -> (c: char)
    requires
        d < 10,
    ensures
        c == digit(d as nat),
{
    let code: u8 = 48 + d as u8;
    code as char
}

/// The shortest decimal numeral of `n`, as text.
pub fn decimal(n: u64) -> (text: String)
    ensures
        text@ == numeral(n as nat),
    decreases n,
{
    let mut text: String = if n < 10 {
        String::new()
    } else {
        decimal(n / 10)
    };
    text.push(digit_char(n % 10));
    assert(text@ =~= numeral(n as nat));
    text
}

/// Whether `text` is an unsigned decimal numeral: one or more digits, with at
/// most a plus sign before them.
pub open spec fn is_unsigned_numeral(text: Seq<char>) -> bool {
    all_digits(unsigned_digits(text)) && unsigned_digits(text).len() > 0
}

/// `text` without a leading plus sign.
pub open spec fn unsigned_digits(text: Seq<char>) -> Seq<char> {
    if text.len() > 0 && text[0] == '+' {
        text.drop_first()
    } else {
        text
    }
}

pub proof fn lemma_numeral_value_monotone(digits: Seq<char>, k: int)
    requires
        0 <= k <= digits.len(),
    ensures
        numeral_value(digits.take(k)) <= numeral_value(digits),
    decreases digits.len(),
{
    if k < digits.len() {
        lemma_numeral_value_monotone(digits.drop_last(), k);
        assert(digits.drop_last().take(k) =~= digits.take(k));
    } else {
        assert(digits.take(k) =~= digits);
    }
}

/// Reads an unsigned decimal number: `Some` exactly for a numeral whose value
/// fits.
pub fn parse_unsigned(text: &str) -> (parsed: Option<usize>)
    ensures
        parsed is Some <==> is_unsigned_numeral(text@) && numeral_value(unsigned_digits(text@))
            <= usize::MAX,
        parsed matches Some(n) ==> n == numeral_value(unsigned_digits(text@)),
{
    let chars: Vec<char> = chars_of(text);
    let mut i: usize = 0;
    if chars.len() > 0 && chars[0] == '+' {
        i = 1;
    }
    let start: usize = i;
    let ghost digits = unsigned_digits(text@);
    assert(digits =~= chars@.skip(start as int));
    if i >= chars.len() {
        return None;
    }
    let mut n: usize = 0;
    while i < chars.len()
        invariant
            start <= i <= chars.len(),
            digits == chars@.skip(start as int),
            digits == unsigned_digits(text@),
            all_digits(digits.take(i - start)),
            n == numeral_value(digits.take(i - start)),
        decreases chars.len() - i,
    {
        let c: char = chars[i];
        let ghost seen = digits.take(i - start);
        assert(digits[i - start] == c);
        assert(digits.take(i + 1 - start).drop_last() =~= seen);
        assert(digits.take(i + 1 - start).last() == c);
        if !('0' <= c && c <= '9') {
            assert(digit_value(digits[i - start]) is None);
            return None;
        }
        let d: usize = (c as u32 - 48) as usize;
        proof {
            lemma_numeral_value_monotone(digits, i + 1 - start);
        }
        if n > usize::MAX / 10 {
            return None;
        }
        let tens: usize = n * 10;
        if d > usize::MAX - tens {
            return None;
        }
        n = tens + d;
        i = i + 1;
        assert forall|j: int| 0 <= j < i - start implies digit_value(
            #[trigger] digits.take(i - start)[j],
        ) is Some by {
            if j < i - start - 1 {
                assert(digits.take(i - start)[j] == seen[j]);
            }
        }
    }
    assert(digits.take(i - start) =~= digits);
    Some(n)
}

// ---------------------------------------------------------------- encodings

/// How many bytes a character takes in UTF-8.
pub open spec fn utf8_width(c: char) -> nat {
    let code = c as u32;
    if code <= 0x7f {
        1
    } else if code <= 0x7ff {
        2
    } else if code <= 0xffff {
        3
    } else {
        4
    }
}

/// How many code units a character takes in UTF-16.
pub open spec fn utf16_width(c: char) -> nat {
    if c as u32 <= 0xffff {
        1
    } else {
        2
    }
}

/// [`utf8_width`] is the length of the character's encoding.
pub proof fn lemma_utf8_width(c: char)
    ensures
        encode_scalar(c as u32).len() == utf8_width(c),
{
}

pub fn utf8_len(c: char) -> (width: u8)
    ensures
        width == utf8_width(c),
{
    let code: u32 = c as u32;
    if code <= 0x7f {
        1
    } else if code <= 0x7ff {
        2
    } else if code <= 0xffff {
        3
    } else {
        4
    }
}

pub fn utf16_len(c: char) -> (width: usize)
    ensures
        width == utf16_width(c),
{
    if c as u32 <= 0xffff {
        1
    } else {
        2
    }
}

/// The UTF-8 width of each character.
pub open spec fn utf8_widths(text: Seq<char>) -> Seq<u8> {
    text.map_values(|c: char| utf8_width(c) as u8)
}

/// The sum of a sequence of bytes.
pub open spec fn byte_sum(bytes: Seq<u8>) -> nat
    decreases bytes.len(),
{
    if bytes.len() == 0 {
        0
    } else {
        bytes[0] as nat + byte_sum(bytes.drop_first())
    }
}

/// The widths of a text's characters add up to its length in bytes.
pub proof fn law_utf8_widths_sum_to_byte_length(text: Seq<char>)
    ensures
        byte_sum(utf8_widths(text)) == encode_utf8(text).len(),
    decreases text.len(),
{
    if text.len() > 0 {
        law_utf8_widths_sum_to_byte_length(text.drop_first());
        lemma_utf8_width(text[0]);
        assert(utf8_widths(text).drop_first() =~= utf8_widths(text.drop_first()));
    }
}

// ---------------------------------------------------------------- order

/// Whether `a` comes before `b`, character by character, in the order of code
/// points; this is the order of their UTF-8 encodings too.
pub open spec fn precedes(a: Seq<char>, b: Seq<char>) -> bool
    decreases a.len(),
{
    if b.len() == 0 {
        false
    } else if a.len() == 0 {
        true
    } else if a[0] != b[0] {
        (a[0] as int) < (b[0] as int)
    } else {
        precedes(a.drop_first(), b.drop_first())
    }
}

/// The order is total: of two different texts exactly one comes first, and no
/// text comes before itself.
pub proof fn law_order_is_total(a: Seq<char>, b: Seq<char>)
    ensures
        a == b ==> !precedes(a, b),
        a != b ==> precedes(a, b) == !precedes(b, a),
    decreases a.len(),
{
    if a.len() == 0 || b.len() == 0 {
        if a.len() == b.len() {
            assert(a =~= b);
        }
    } else if a[0] == b[0] {
        law_order_is_total(a.drop_first(), b.drop_first());
        if a.drop_first() == b.drop_first() {
            assert(a =~= seq![a[0]] + a.drop_first());
            assert(b =~= seq![b[0]] + b.drop_first());
        }
    }
}

/// The order is transitive.
pub proof fn law_order_is_transitive(a: Seq<char>, b: Seq<char>, c: Seq<char>)
    requires
        precedes(a, b),
        precedes(b, c),
    ensures
        precedes(a, c),
    decreases a.len(),
{
    if a.len() > 0 && b.len() > 0 && c.len() > 0 && a[0] == b[0] && b[0] == c[0] {
        law_order_is_transitive(a.drop_first(), b.drop_first(), c.drop_first());
    }
}

proof fn lemma_precedes_suffix(a: Seq<char>, b: Seq<char>, i: int)
    requires
        0 <= i <= a.len(),
        i <= b.len(),
        a.take(i) == b.take(i),
    ensures
        precedes(a, b) == precedes(a.skip(i), b.skip(i)),
    decreases i,
{
    if i == 0 {
        assert(a.skip(0) =~= a);
        assert(b.skip(0) =~= b);
    } else {
        assert(a[0] == a.take(i)[0] && b[0] == b.take(i)[0]);
        let (p, q) = (a.drop_first(), b.drop_first());
        assert forall|j: int| 0 <= j < i - 1 implies p[j] == q[j] by {
            assert(a.take(i)[j + 1] == b.take(i)[j + 1]);
            assert(p[j] == a.take(i)[j + 1] && q[j] == b.take(i)[j + 1]);
        }
        assert(p.take(i - 1) =~= q.take(i - 1));
        lemma_precedes_suffix(p, q, i - 1);
        assert(p.skip(i - 1) =~= a.skip(i));
        assert(q.skip(i - 1) =~= b.skip(i));
    }
}

/// The code point of `c`.
fn code_of(c: char) -> (code: u32)
    ensures
        code == c as int,
{
    c as u32
}

/// Whether `a` comes before `b`; see [`precedes`].
pub fn comes_before(a: &str, b: &str) -> (before: bool)
    ensures
        before == precedes(a@, b@),
{
    let p: Vec<char> = chars_of(a);
    let q: Vec<char> = chars_of(b);
    let mut i: usize = 0;
    while i < p.len() && i < q.len() && p[i] == q[i]
        invariant
            i <= p.len(),
            i <= q.len(),
            p@ == a@,
            q@ == b@,
            p@.take(i as int) == q@.take(i as int),
        decreases p.len() - i,
    {
        assert(p@.take(i + 1) =~= p@.take(i as int).push(p@[i as int]));
        assert(q@.take(i + 1) =~= q@.take(i as int).push(q@[i as int]));
        i = i + 1;
    }
    proof {
        lemma_precedes_suffix(p@, q@, i as int);
    }
    if i >= q.len() {
        false
    } else if i >= p.len() {
        true
    } else {
        let (c, d): (char, char) = (p[i], q[i]);
        assert(p@.skip(i as int)[0] == c && q@.skip(i as int)[0] == d);
        code_of(c) < code_of(d)
    }
}

/// Whether `text` starts with `prefix`.
pub fn starts_with(text: &str, prefix: &str) -> (starts: bool)
    ensures
        starts == prefix@.is_prefix_of(text@),
{
    let chars: Vec<char> = chars_of(text);
    let wanted: Vec<char> = chars_of(prefix);
    if wanted.len() > chars.len() {
        return false;
    }
    let mut i: usize = 0;
    while i < wanted.len()
        invariant
            i <= wanted.len() <= chars.len(),
            chars@ == text@,
            wanted@ == prefix@,
            forall|j: int| 0 <= j < i ==> chars@[j] == #[trigger] wanted@[j],
        decreases wanted.len() - i,
    {
        if chars[i] != wanted[i] {
            assert(text@.subrange(0, prefix@.len() as int)[i as int] != prefix@[i as int]);
            return false;
        }
        i = i + 1;
    }
    assert(prefix@ =~= text@.subrange(0, prefix@.len() as int));
    true
}

/// How often `c` occurs in `text`.
pub open spec fn occurrences(text: Seq<char>, c: char) -> nat
    decreases text.len(),
{
    if text.len() == 0 {
        0
    } else {
        occurrences(text.drop_last(), c) + if text.last() == c {
            1nat
        } else {
            0
        }
    }
}

/// How often `c` occurs in `text`.
pub fn count_of(text: &str, c: char) -> (count: usize)
    ensures
        count == occurrences(text@, c),
{
    let chars: Vec<char> = chars_of(text);
    let mut count: usize = 0;
    for i in 0..chars.len()
        invariant
            count == occurrences(chars@.take(i as int), c),
            count <= i,
    {
        assert(chars@.take(i + 1).drop_last() =~= chars@.take(i as int));
        if chars[i] == c {
            count = count + 1;
        }
    }
    assert(chars@.take(chars@.len() as int) =~= chars@);
    count
}

/// A text comes before every longer one that begins with it.
pub proof fn law_a_prefix_comes_first(text: Seq<char>, more: Seq<char>)
    requires
        more.len() > 0,
    ensures
        precedes(text, text + more),
    decreases text.len(),
{
    if text.len() > 0 {
        law_a_prefix_comes_first(text.drop_first(), more);
        assert((text + more).drop_first() =~= text.drop_first() + more);
    }
}

/// Where two texts part, the one with the lower character comes first.
pub proof fn law_the_lower_character_comes_first(
    common: Seq<char>,
    a: char,
    b: char,
    rest: Seq<char>,
    other: Seq<char>,
)
    requires
        (a as u32) < (b as u32),
    ensures
        precedes(common.push(a) + rest, common.push(b) + other),
    decreases common.len(),
{
    let (x, y) = (common.push(a) + rest, common.push(b) + other);
    if common.len() > 0 {
        let tail = common.drop_first();
        law_the_lower_character_comes_first(tail, a, b, rest, other);
        assert(x.drop_first() =~= tail.push(a) + rest);
        assert(y.drop_first() =~= tail.push(b) + other);
        assert(x[0] == common[0] && y[0] == common[0]);
    } else {
        assert(x[0] == a && y[0] == b);
    }
}

/// A character occurs in two texts as often as in each, and in itself once.
pub proof fn law_occurrences_add_up(a: Seq<char>, b: Seq<char>, c: char, other: char)
    ensures
        occurrences(a + b, c) == occurrences(a, c) + occurrences(b, c),
        occurrences(seq![c], c) == 1,
        other != c ==> occurrences(seq![other], c) == 0,
        occurrences(Seq::empty(), c) == 0,
    decreases b.len(),
{
    reveal_with_fuel(occurrences, 2);
    assert(seq![c].drop_last() =~= Seq::<char>::empty());
    assert(seq![other].drop_last() =~= Seq::<char>::empty());
    if b.len() > 0 {
        law_occurrences_add_up(a, b.drop_last(), c, other);
        assert((a + b).drop_last() =~= a + b.drop_last());
    } else {
        assert(a + b =~= a);
    }
}

/// A numeral has the last digit of its number last, the rest before it, and no zero in
/// front of other digits.
pub proof fn law_numerals_are_decimal(n: nat, d: nat)
    requires
        d < 10,
    ensures
        numeral(d) == seq![('0' as u32 + d) as char],
        n > 0 ==> numeral(10 * n + d) == numeral(n).push(('0' as u32 + d) as char),
        n > 0 ==> numeral(n)[0] != '0',
    decreases n,
{
    assert((10 * n + d) / 10 == n && (10 * n + d) % 10 == d) by (nonlinear_arith)
        requires
            d < 10,
            n >= 0,
    ;
    if n >= 10 {
        law_numerals_are_decimal(n / 10, n % 10);
        lemma_numeral_value(n / 10);
        assert(numeral(n)[0] == numeral(n / 10)[0]);
    }
}

} // verus!
