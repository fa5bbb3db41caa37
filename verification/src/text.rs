//! Text as sequences of characters: the string operations that the parsers
//! and path rules are made of, each with its exact meaning.
use vstd::prelude::*;

verus! {

/// `String::push` appends one character.
pub assume_specification[ String::push ](text: &mut String, c: char)
    ensures
        final(text)@ == old(text)@.push(c),
;

/// The characters of `text` as a vector.
pub fn chars_of(text: &str) -> (chars: Vec<char>)
    ensures
        chars@ == text@,
{
    let mut chars: Vec<char> = Vec::new();
    for c in it: text.chars()
        invariant
            chars@ == it.seq().take(it.index()),
            it.seq() == text@,
    {
        chars.push(c);
    }
    chars
}

/// The string with the given characters.
pub fn string_of(chars: &[char]) -> (text: String)
    ensures
        text@ == chars@,
{
    let mut text: String = String::new();
    let mut i: usize = 0;
    while i < chars.len()
        invariant
            i <= chars.len(),
            text@ == chars@.take(i as int),
        decreases chars.len() - i,
    {
        text.push(chars[i]);
        i += 1;
        assert(chars@.take(i as int) == chars@.take(i - 1).push(chars@[i - 1]));
    }
    assert(chars@.take(i as int) == chars@);
    text
}

/// Appends `tail` to `text`.
pub fn push_text(text: &mut String, tail: &str)
    ensures
        final(text)@ == old(text)@ + tail@,
{
    let ghost start = text@;
    for c in it: tail.chars()
        invariant
            text@ == start + it.seq().take(it.index()),
            it.seq() == tail@,
    {
        text.push(c);
        assert(it.seq().take(it.index() + 1) == it.seq().take(it.index() as int).push(c));
    }
    assert(tail@.take(tail@.len() as int) == tail@);
}

/// `first` followed by `second`.
pub fn joined(first: &str, second: &str) -> (text: String)
    ensures
        text@ == first@ + second@,
{
    let mut text: String = first.to_owned();
    push_text(&mut text, second);
    text
}

/// Whether the two texts hold the same characters.
pub fn same_text(a: &str, b: &str) -> (same: bool)
    ensures
        same == (a@ == b@),
{
    let left: String = a.to_owned();
    let right: String = b.to_owned();
    left == right
}

// ---------------------------------------------------------------------------
// ASCII case
// ---------------------------------------------------------------------------

/// `c` with ASCII capital letters made small.
pub open spec fn lower_char(c: char) -> char {
    if 'A' <= c <= 'Z' {
        (c as u32 + 32) as char
    } else {
        c
    }
}

/// `text` with ASCII capital letters made small.
pub open spec fn lower(text: Seq<char>) -> Seq<char> {
    text.map_values(|c: char| lower_char(c))
}

pub fn to_lower_char(c: char) -> (small: char)
    ensures
        small == lower_char(c),
{
    if 'A' <= c && c <= 'Z' {
        (c as u8 + 32) as char
    } else {
        c
    }
}

pub fn to_lower(text: &str) -> (small: String)
    ensures
        small@ == lower(text@),
{
    let mut small: String = String::new();
    for c in it: text.chars()
        invariant
            small@ == lower(it.seq().take(it.index())),
            it.seq() == text@,
    {
        small.push(to_lower_char(c));
        assert(lower(it.seq().take(it.index() + 1)) == small@);
    }
    assert(text@.take(text@.len() as int) == text@);
    small
}

/// The text in lower case, as Unicode defines it.
pub uninterp spec fn lowercase(text: Seq<char>) -> Seq<char>;

/// Calls `str::to_lowercase`. Claims that the result depends on the text
/// alone, and that on ASCII text it is the text with `A` to `Z` made small.
#[verifier::external_body]
fn to_lowercase(text: &str) -> (small: String)
    ensures
        small@ == lowercase(text@),
        (forall|i: int| 0 <= i < text@.len() ==> (#[trigger] text@[i]) <= '\u{7f}') ==> small@
            == lower(text@),
{
    text.to_lowercase()
}

/// The text holds ASCII alone.
pub open spec fn all_ascii(text: Seq<char>) -> bool {
    forall|i: int| 0 <= i < text.len() ==> (#[trigger] text[i]) <= '\u{7f}'
}

/// The text in lower case: `A` to `Z` made small where it is ASCII, else as
/// Unicode defines it.
pub open spec fn lower_text(text: Seq<char>) -> Seq<char> {
    if all_ascii(text) {
        lower(text)
    } else {
        lowercase(text)
    }
}

/// The text in lower case.
pub fn lowercase_of(text: &str) -> (small: String)
    ensures
        small@ == lower_text(text@),
{
    to_lowercase(text)
}

/// An ASCII letter made large.
pub open spec fn upper_char(c: char) -> char {
    if 'a' <= c <= 'z' {
        ((c as u32 - 32) as u32) as char
    } else {
        c
    }
}

/// The text with `a` to `z` made large.
pub open spec fn upper(text: Seq<char>) -> Seq<char> {
    text.map_values(|c: char| upper_char(c))
}

/// The text in upper case, as Unicode defines it.
pub uninterp spec fn uppercase(text: Seq<char>) -> Seq<char>;

/// Calls `str::to_uppercase`. Claims that the result depends on the text
/// alone, and that on ASCII text it is the text with `a` to `z` made large.
#[verifier::external_body]
fn to_uppercase(text: &str) -> (large: String)
    ensures
        large@ == uppercase(text@),
        (forall|i: int| 0 <= i < text@.len() ==> (#[trigger] text@[i]) <= '\u{7f}') ==> large@
            == upper(text@),
{
    text.to_uppercase()
}

/// The text in upper case: `a` to `z` made large where it is ASCII, else as
/// Unicode defines it.
pub open spec fn upper_text(text: Seq<char>) -> Seq<char> {
    if all_ascii(text) {
        upper(text)
    } else {
        uppercase(text)
    }
}

/// The text in upper case.
pub fn uppercase_of(text: &str) -> (large: String)
    ensures
        large@ == upper_text(text@),
{
    to_uppercase(text)
}

// ---------------------------------------------------------------------------
// Searching
// ---------------------------------------------------------------------------

/// `text` begins with `prefix`.
pub open spec fn begins_with(text: Seq<char>, prefix: Seq<char>) -> bool {
    prefix.len() <= text.len() && text.take(prefix.len() as int) == prefix
}

/// `part` stands in `text` at position `at`.
pub open spec fn stands_at(text: Seq<char>, part: Seq<char>, at: int) -> bool {
    0 <= at && at + part.len() <= text.len() && text.subrange(at, at + part.len()) == part
}

/// `part` stands somewhere in `text`.
pub open spec fn has_part(text: Seq<char>, part: Seq<char>) -> bool {
    exists|at: int| stands_at(text, part, at)
}

/// Whether `part` stands in `text` at `at`.
pub fn part_at(text: &[char], part: &[char], at: usize) -> (found: bool)
    requires
        at <= text.len(),
    ensures
        found == stands_at(text@, part@, at as int),
{
    if text.len() - at < part.len() {
        return false;
    }
    let mut i: usize = 0;
    while i < part.len()
        invariant
            i <= part.len(),
            at + part.len() <= text.len(),
            forall|j: int| 0 <= j < i ==> text@[at + j] == part@[j],
        decreases part.len() - i,
    {
        if text[at + i] != part[i] {
            assert(text@.subrange(at as int, at + part@.len())[i as int] != part@[i as int]);
            return false;
        }
        i += 1;
    }
    assert(text@.subrange(at as int, at + part@.len()) =~= part@);
    true
}

/// Whether `text` begins with `prefix`.
pub fn has_prefix(text: &str, prefix: &str) -> (found: bool)
    ensures
        found == begins_with(text@, prefix@),
{
    let text_chars: Vec<char> = chars_of(text);
    let prefix_chars: Vec<char> = chars_of(prefix);
    let found: bool = part_at(&text_chars, &prefix_chars, 0);
    assert(prefix@.len() <= text@.len() ==> text@.subrange(0, prefix@.len() as int) =~= text@.take(
        prefix@.len() as int,
    ));
    found
}

/// The first position from `from` on at which `part` stands in `text`.
pub fn find_part(text: &[char], part: &[char], from: usize) -> (found: Option<usize>)
    requires
        from <= text.len(),
    ensures
        match found {
            Some(at) => {
                &&& from <= at <= text.len()
                &&& stands_at(text@, part@, at as int)
                &&& forall|k: int| from <= k < at ==> !stands_at(text@, part@, k)
            },
            None => forall|k: int| from <= k ==> !stands_at(text@, part@, k),
        },
{
    let mut at: usize = from;
    while at < text.len()
        invariant
            from <= at <= text.len(),
            forall|k: int| from <= k < at ==> !stands_at(text@, part@, k),
        decreases text.len() - at,
    {
        if part_at(text, part, at) {
            return Some(at);
        }
        at += 1;
    }
    if part_at(text, part, at) {
        return Some(at);
    }
    None
}

/// `text` ends with `suffix`.
pub open spec fn ends_with(text: Seq<char>, suffix: Seq<char>) -> bool {
    suffix.len() <= text.len() && text.skip(text.len() - suffix.len()) == suffix
}

/// Whether `text` ends with `suffix`.
pub fn has_suffix(text: &[char], suffix: &[char]) -> (found: bool)
    ensures
        found == ends_with(text@, suffix@),
{
    if text.len() < suffix.len() {
        return false;
    }
    let at: usize = text.len() - suffix.len();
    assert(text@.subrange(at as int, at + suffix@.len()) =~= text@.skip(at as int));
    part_at(text, suffix, at)
}

/// Whether `part` stands somewhere in `text`.
pub fn contains_text(text: &str, part: &str) -> (found: bool)
    ensures
        found == has_part(text@, part@),
{
    let text_chars: Vec<char> = chars_of(text);
    let part_chars: Vec<char> = chars_of(part);
    match find_part(&text_chars, &part_chars, 0) {
        Some(at) => {
            assert(stands_at(text@, part@, at as int));
            true
        },
        None => false,
    }
}

/// The first position of `c` in `text`, or its length where there is none.
pub open spec fn first_of(text: Seq<char>, c: char) -> int
    decreases text.len(),
{
    if text.len() == 0 || text[0] == c {
        0
    } else {
        1 + first_of(text.drop_first(), c)
    }
}

/// Where the first `c` stands.
pub proof fn lemma_first_of(text: Seq<char>, c: char)
    ensures
        0 <= first_of(text, c) <= text.len(),
        forall|i: int| 0 <= i < first_of(text, c) ==> text[i] != c,
        first_of(text, c) < text.len() ==> text[first_of(text, c)] == c,
    decreases text.len(),
{
    if text.len() != 0 && text[0] != c {
        lemma_first_of(text.drop_first(), c);
        assert forall|i: int| 0 <= i < first_of(text, c) implies text[i] != c by {
            if i > 0 {
                assert(text.drop_first()[i - 1] == text[i]);
            }
        }
    }
}

/// A position with these properties is the first one.
pub proof fn lemma_first_of_is(text: Seq<char>, c: char, at: int)
    requires
        0 <= at <= text.len(),
        forall|i: int| 0 <= i < at ==> text[i] != c,
        at < text.len() ==> text[at] == c,
    ensures
        first_of(text, c) == at,
{
    lemma_first_of(text, c);
    let first = first_of(text, c);
    if first < at {
        assert(text[first] != c);
    }
}

/// The first position of `c` in `text`, or its length where there is none.
pub fn find_char(text: &[char], c: char) -> (at: usize)
    ensures
        at == first_of(text@, c),
        at <= text.len(),
{
    let mut at: usize = 0;
    while at < text.len()
        invariant
            at <= text.len(),
            forall|i: int| 0 <= i < at ==> text@[i] != c,
        decreases text.len() - at,
    {
        if text[at] == c {
            proof {
                lemma_first_of_is(text@, c, at as int);
            }
            return at;
        }
        at += 1;
    }
    proof {
        lemma_first_of_is(text@, c, at as int);
    }
    at
}

/// Whether `c` stands in `text`.
pub fn contains_char(text: &str, c: char) -> (found: bool)
    ensures
        found == text@.contains(c),
{
    let chars: Vec<char> = chars_of(text);
    let at: usize = find_char(&chars, c);
    proof {
        lemma_first_of(text@, c);
        if text@.contains(c) {
            let i: int = choose|i: int| 0 <= i < text@.len() && text@[i] == c;
            assert(!(i < at));
        }
    }
    at < chars.len()
}

// ---------------------------------------------------------------------------
// White space
// ---------------------------------------------------------------------------

/// The characters with the Unicode property `White_Space`.
pub open spec fn white_space(c: char) -> bool {
    ||| '\u{9}' <= c <= '\u{d}'
    ||| c == ' '
    ||| c == '\u{85}'
    ||| c == '\u{a0}'
    ||| c == '\u{1680}'
    ||| '\u{2000}' <= c <= '\u{200a}'
    ||| c == '\u{2028}'
    ||| c == '\u{2029}'
    ||| c == '\u{202f}'
    ||| c == '\u{205f}'
    ||| c == '\u{3000}'
}

pub fn is_white_space(c: char) -> (white: bool)
    ensures
        white == white_space(c),
{
    ('\u{9}' <= c && c <= '\u{d}') || c == ' ' || c == '\u{85}' || c == '\u{a0}' || c == '\u{1680}'
        || ('\u{2000}' <= c && c <= '\u{200a}') || c == '\u{2028}' || c == '\u{2029}' || c
        == '\u{202f}' || c == '\u{205f}' || c == '\u{3000}'
}

/// `text` without leading white space.
pub open spec fn trim_start(text: Seq<char>) -> Seq<char>
    decreases text.len(),
{
    if text.len() > 0 && white_space(text[0]) {
        trim_start(text.drop_first())
    } else {
        text
    }
}

/// `text` without trailing white space.
pub open spec fn trim_end(text: Seq<char>) -> Seq<char>
    decreases text.len(),
{
    if text.len() > 0 && white_space(text.last()) {
        trim_end(text.drop_last())
    } else {
        text
    }
}

/// `text` without white space at either end.
pub open spec fn trimmed(text: Seq<char>) -> Seq<char> {
    trim_end(trim_start(text))
}

/// `text` without white space at either end.
pub fn trim_text(text: &[char]) -> (inner: Vec<char>)
    ensures
        inner@ == trimmed(text@),
{
    let mut start: usize = 0;
    assert(text@.skip(0) == text@);
    while start < text.len() && is_white_space(text[start])
        invariant
            start <= text.len(),
            trim_start(text@) == trim_start(text@.skip(start as int)),
        decreases text.len() - start,
    {
        assert(text@.skip(start as int).drop_first() == text@.skip(start + 1));
        start += 1;
    }
    assert(trim_start(text@) == text@.skip(start as int));
    let mut inner: Vec<char> = Vec::new();
    let mut i: usize = start;
    while i < text.len()
        invariant
            start <= i <= text.len(),
            inner@ == text@.subrange(start as int, i as int),
        decreases text.len() - i,
    {
        inner.push(text[i]);
        i += 1;
    }
    assert(inner@ == text@.skip(start as int));
    let ghost whole = inner@;
    while inner.len() > 0 && is_white_space(inner[inner.len() - 1])
        invariant
            trim_end(whole) == trim_end(inner@),
        decreases inner.len(),
    {
        let ghost before = inner@;
        inner.pop();
        assert(inner@ == before.drop_last());
    }
    inner
}

// ---------------------------------------------------------------------------
// Numbers
// ---------------------------------------------------------------------------

/// The decimal digit with the given value.
pub open spec fn digit_char(value: int) -> char {
    (value + 48) as char
}

/// `value` in decimal.
pub open spec fn decimal(value: nat) -> Seq<char>
    decreases value,
{
    if value < 10 {
        seq![digit_char(value as int)]
    } else {
        decimal(value / 10).push(digit_char((value % 10) as int))
    }
}

/// Appends `value` to `text` in decimal.
pub fn push_decimal(text: &mut String, value: u64)
    ensures
        final(text)@ == old(text)@ + decimal(value as nat),
{
    push_wide_decimal(text, value as u128);
}

/// Appends `value` to `text` in decimal.
pub fn push_wide_decimal(text: &mut String, value: u128)
    ensures
        final(text)@ == old(text)@ + decimal(value as nat),
    decreases value,
{
    let ghost start = text@;
    if value >= 10 {
        push_wide_decimal(text, value / 10);
    }
    text.push(((value % 10) as u8 + 48) as char);
    assert(text@ == start + decimal(value as nat));
}

/// The hexadecimal digit with the given value.
pub open spec fn hex_char(value: int) -> char {
    if value < 10 {
        ((value + 48) as u32) as char
    } else {
        ((value + 87) as u32) as char
    }
}

/// Appends the hexadecimal digit with the given value.
pub fn push_hex_digit(text: &mut String, value: u8)
    requires
        value < 16,
    ensures
        final(text)@ == old(text)@.push(hex_char(value as int)),
{
    let c: char = if value < 10 {
        (value + 48) as char
    } else {
        (value + 87) as char
    };
    text.push(c);
}

/// A number in hexadecimal, with small letters.
pub open spec fn hexadecimal(value: nat) -> Seq<char>
    decreases value,
{
    if value < 16 {
        seq![hex_char(value as int)]
    } else {
        hexadecimal(value / 16).push(hex_char((value % 16) as int))
    }
}

/// Appends `value` to `text` in hexadecimal.
pub fn push_hexadecimal(text: &mut String, value: u64)
    ensures
        final(text)@ == old(text)@ + hexadecimal(value as nat),
    decreases value,
{
    let ghost before = text@;
    if value < 16 {
        push_hex_digit(text, value as u8);
        assert(text@ =~= before + hexadecimal(value as nat));
    } else {
        push_hexadecimal(text, value / 16);
        push_hex_digit(text, (value % 16) as u8);
        assert(text@ =~= before + hexadecimal(value as nat));
    }
}

/// A number in hexadecimal, with zeros before it where it has fewer digits.
pub open spec fn padded_hexadecimal(value: nat, width: nat) -> Seq<char> {
    let digits = hexadecimal(value);
    if digits.len() < width {
        Seq::new((width - digits.len()) as nat, |i: int| '0') + digits
    } else {
        digits
    }
}

/// A number in hexadecimal, with zeros before it where it has fewer digits.
pub fn padded_hex(value: u64, width: usize) -> (text: String)
    ensures
        text@ == padded_hexadecimal(value as nat, width as nat),
{
    let mut digits: String = String::new();
    push_hexadecimal(&mut digits, value);
    assert(digits@ =~= hexadecimal(value as nat));
    let count: usize = chars_of(&digits).len();
    let mut text: String = String::new();
    let mut missing: usize = 0;
    while count < width && missing < width - count
        invariant
            count == digits@.len(),
            missing == 0 || missing <= width - count,
            text@ == Seq::new(missing as nat, |i: int| '0'),
        decreases width - missing,
    {
        text.push('0');
        missing += 1;
        assert(text@ =~= Seq::new(missing as nat, |i: int| '0'));
    }
    push_text(&mut text, &digits);
    assert(text@ =~= padded_hexadecimal(value as nat, width as nat));
    text
}

/// A text with others before and behind it.
pub fn surrounded(before: &str, middle: &str, behind: &str) -> (text: String)
    ensures
        text@ == before@ + middle@ + behind@,
{
    let mut text: String = before.to_owned();
    push_text(&mut text, middle);
    push_text(&mut text, behind);
    text
}

/// A number in decimal with texts before and behind it.
pub fn noted(before: &str, value: u64, behind: &str) -> (text: String)
    ensures
        text@ == before@ + decimal(value as nat) + behind@,
{
    let mut text: String = before.to_owned();
    push_decimal(&mut text, value);
    push_text(&mut text, behind);
    text
}

/// How a character stands in a text between quotation marks.
pub open spec fn quoted_char(c: char) -> Seq<char> {
    if c == '"' || c == '\\' {
        seq!['\\', c]
    } else if c == '\n' {
        seq!['\\', 'n']
    } else if c == '\r' {
        seq!['\\', 'r']
    } else if c == '\t' {
        seq!['\\', 't']
    } else if c == '\0' {
        seq!['\\', '0']
    } else if c < ' ' || c == '\u{7f}' {
        seq!['\\', 'u', '{'] + hexadecimal(c as nat) + seq!['}']
    } else {
        seq![c]
    }
}

/// The first `count` characters as they stand between quotation marks.
pub open spec fn quoted(text: Seq<char>, count: int) -> Seq<char>
    decreases count,
{
    if count <= 0 {
        Seq::empty()
    } else {
        quoted(text, count - 1) + quoted_char(text[count - 1])
    }
}

fn push_quoted_char(text: &mut String, c: char)
    ensures
        final(text)@ == old(text)@ + quoted_char(c),
{
    let ghost before = text@;
    if c == '"' || c == '\\' {
        text.push('\\');
        text.push(c);
    } else if c == '\n' {
        text.push('\\');
        text.push('n');
    } else if c == '\r' {
        text.push('\\');
        text.push('r');
    } else if c == '\t' {
        text.push('\\');
        text.push('t');
    } else if c == '\0' {
        text.push('\\');
        text.push('0');
    } else if c < ' ' || c == '\u{7f}' {
        text.push('\\');
        text.push('u');
        text.push('{');
        push_hexadecimal(text, c as u64);
        text.push('}');
    } else {
        text.push(c);
    }
    assert(text@ =~= before + quoted_char(c));
}

/// Appends `part` between quotation marks.
pub fn push_quoted(text: &mut String, part: &str)
    ensures
        final(text)@ == old(text)@ + seq!['"'] + quoted(part@, part@.len() as int) + seq!['"'],
{
    let ghost before = text@.push('"');
    let chars: Vec<char> = chars_of(part);
    text.push('"');
    let mut i: usize = 0;
    assert(text@ =~= before + quoted(part@, 0));
    while i < chars.len()
        invariant
            i <= chars.len(),
            chars@ == part@,
            text@ == before + quoted(part@, i as int),
        decreases chars.len() - i,
    {
        push_quoted_char(text, chars[i]);
        assert(text@ =~= before + quoted(part@, i + 1));
        i += 1;
    }
    text.push('"');
    assert(text@ =~= old(text)@ + seq!['"'] + quoted(part@, part@.len() as int) + seq!['"']);
}

/// The value of `text` read as decimal digits.
pub open spec fn decimal_value(text: Seq<char>) -> nat
    decreases text.len(),
{
    if text.len() == 0 {
        0
    } else {
        (decimal_value(text.drop_last()) * 10 + (text.last() as int - 48)) as nat
    }
}

/// Every character of `text` is a decimal digit.
pub open spec fn all_digits(text: Seq<char>) -> bool {
    forall|i: int| 0 <= i < text.len() ==> '0' <= #[trigger] text[i] <= '9'
}

/// Reading a number back gives the number that was written.
pub proof fn lemma_decimal_reads_back(value: nat)
    ensures
        all_digits(decimal(value)),
        decimal(value).len() > 0,
        decimal_value(decimal(value)) == value,
    decreases value,
{
    if value < 10 {
        let text = decimal(value);
        assert(text.drop_last() == Seq::<char>::empty());
        assert(decimal_value(text.drop_last()) == 0);
    } else {
        lemma_decimal_reads_back(value / 10);
        assert(decimal(value).drop_last() == decimal(value / 10));
    }
}

/// Letters lose their case and nothing else changes: a small letter stays, a
/// large one becomes the small one of the same place in the alphabet, and the
/// other way round. So texts that differ in the case of letters become the same.
pub proof fn lemma_case_of_letters(place: int, c: char)
    requires
        0 <= place < 26,
    ensures
        lower_char(('A' as int + place) as char) == ('a' as int + place) as char,
        upper_char(('a' as int + place) as char) == ('A' as int + place) as char,
        lower_char(('a' as int + place) as char) == ('a' as int + place) as char,
        upper_char(('A' as int + place) as char) == ('A' as int + place) as char,
        !('A' <= c <= 'Z') && !('a' <= c <= 'z') ==> lower_char(c) == c && upper_char(c) == c,
        lower_char(upper_char(c)) == lower_char(c),
        upper_char(lower_char(c)) == upper_char(c),
{
}

/// A text in small letters is as long as it was, and its characters are those
/// of the text in their places.
pub proof fn lemma_lower_in_place(text: Seq<char>, i: int)
    requires
        0 <= i < text.len(),
    ensures
        lower(text).len() == text.len(),
        lower(text)[i] == lower_char(text[i]),
        upper(text).len() == text.len(),
        upper(text)[i] == upper_char(text[i]),
        lower(upper(text)) == lower(text),
        upper(lower(text)) == upper(text),
{
    assert forall|k: int| 0 <= k < text.len() implies lower(upper(text))[k] == lower(text)[k] by {
        lemma_case_of_letters(0, text[k]);
    }
    assert forall|k: int| 0 <= k < text.len() implies upper(lower(text))[k] == upper(text)[k] by {
        lemma_case_of_letters(0, text[k]);
    }
    assert(lower(upper(text)) =~= lower(text));
    assert(upper(lower(text)) =~= upper(text));
}

/// White space around a text is taken away and nothing else: what stays neither
/// begins nor ends with white space, and stood in the text with nothing but
/// white space before and behind it.
pub proof fn lemma_trimmed_part(text: Seq<char>)
    ensures
        exists|from: int, to: int| #[trigger] trims_to(text, from, to) && trimmed(text)
            == text.subrange(from, to),
        trimmed(text).len() > 0 ==> !white_space(trimmed(text)[0]) && !white_space(
            trimmed(text).last(),
        ),
{
    let from = lemma_trim_start(text);
    let rest = trim_start(text);
    let count = lemma_trim_end(rest);
    let to = from + count;
    assert(trimmed(text) =~= text.subrange(from, to));
    assert(trims_to(text, from, to)) by {
        assert forall|i: int| to <= i < text.len() implies white_space(#[trigger] text[i]) by {
            assert(rest[i - from] == text[i]);
        }
    }
    if trimmed(text).len() > 0 {
        assert(trimmed(text)[0] == rest[0]);
    }
}

/// All but the part between `from` and `to` is white space.
pub open spec fn trims_to(text: Seq<char>, from: int, to: int) -> bool {
    &&& 0 <= from <= to <= text.len()
    &&& forall|i: int| 0 <= i < from ==> white_space(#[trigger] text[i])
    &&& forall|i: int| to <= i < text.len() ==> white_space(#[trigger] text[i])
}

proof fn lemma_trim_start(text: Seq<char>) -> (from: int)
    ensures
        0 <= from <= text.len(),
        trim_start(text) == text.skip(from),
        forall|i: int| 0 <= i < from ==> white_space(#[trigger] text[i]),
        from < text.len() ==> !white_space(text[from]),
    decreases text.len(),
{
    if text.len() > 0 && white_space(text[0]) {
        let rest = text.drop_first();
        let from = lemma_trim_start(rest);
        assert(rest.skip(from) =~= text.skip(from + 1));
        assert forall|i: int| 0 <= i < from + 1 implies white_space(#[trigger] text[i]) by {
            if i > 0 {
                assert(rest[i - 1] == text[i]);
            }
        }
        from + 1
    } else {
        assert(text.skip(0) =~= text);
        0
    }
}

proof fn lemma_trim_end(text: Seq<char>) -> (to: int)
    ensures
        0 <= to <= text.len(),
        trim_end(text) == text.take(to),
        forall|i: int| to <= i < text.len() ==> white_space(#[trigger] text[i]),
        to > 0 ==> !white_space(text[to - 1]),
    decreases text.len(),
{
    if text.len() > 0 && white_space(text.last()) {
        let front = text.drop_last();
        let to = lemma_trim_end(front);
        assert(front.take(to) =~= text.take(to));
        assert forall|i: int| to <= i < text.len() implies white_space(#[trigger] text[i]) by {
            if i < front.len() {
                assert(front[i] == text[i]);
            }
        }
        to
    } else {
        assert(text.take(text.len() as int) =~= text);
        text.len() as int
    }
}

/// The value of a hexadecimal digit in small letters.
pub open spec fn hex_digit_value(c: char) -> int {
    if '0' <= c <= '9' {
        c as int - '0' as int
    } else {
        10 + (c as int - 'a' as int)
    }
}

/// The number that a text of hexadecimal digits writes.
pub open spec fn hexadecimal_value(text: Seq<char>) -> int
    decreases text.len(),
{
    if text.len() == 0 {
        0
    } else {
        16 * hexadecimal_value(text.drop_last()) + hex_digit_value(text.last())
    }
}

/// A hexadecimal number is written in the digits 0 to 9 and a to f, without a
/// leading zero, and reads back; filled up to a width it has at least that many
/// digits and reads back just as well.
pub proof fn lemma_hexadecimal_reads_back(value: nat, width: nat)
    ensures
        hexadecimal(value).len() > 0,
        forall|i: int|
            0 <= i < hexadecimal(value).len() ==> ('0' <= #[trigger] hexadecimal(value)[i]
                && hexadecimal(value)[i] <= '9') || ('a' <= hexadecimal(value)[i]
                && hexadecimal(value)[i] <= 'f'),
        value > 0 ==> hexadecimal(value)[0] != '0',
        hexadecimal_value(hexadecimal(value)) == value,
        padded_hexadecimal(value, width).len() >= width,
        padded_hexadecimal(value, width).len() == width || padded_hexadecimal(value, width)
            == hexadecimal(value),
        hexadecimal_value(padded_hexadecimal(value, width)) == value,
    decreases value,
{
    if value >= 16 {
        lemma_hexadecimal_reads_back(value / 16, 0);
        let front = hexadecimal(value / 16);
        assert(hexadecimal(value).drop_last() =~= front);
        assert(hexadecimal(value)[0] == front[0]);
        assert(hexadecimal(value).last() == hex_char((value % 16) as int));
    } else {
        assert(hexadecimal(value).drop_last() =~= Seq::<char>::empty());
        assert(hexadecimal_value(Seq::<char>::empty()) == 0);
        assert(hexadecimal(value).last() == hex_char(value as int));
    }
    let digits = hexadecimal(value);
    if digits.len() < width {
        lemma_zeros_in_front((width - digits.len()) as nat, digits);
    }
}

proof fn lemma_zeros_in_front(count: nat, digits: Seq<char>)
    ensures
        hexadecimal_value(Seq::new(count, |i: int| '0') + digits) == hexadecimal_value(digits),
    decreases count + digits.len(),
{
    let zeros = Seq::new(count, |i: int| '0');
    let whole = zeros + digits;
    if digits.len() > 0 {
        lemma_zeros_in_front(count, digits.drop_last());
        assert(whole.drop_last() =~= zeros + digits.drop_last());
    } else if count > 0 {
        lemma_zeros_in_front((count - 1) as nat, digits);
        assert(whole.drop_last() =~= Seq::new((count - 1) as nat, |i: int| '0') + digits);
    } else {
        assert(whole =~= digits);
    }
}

/// A quoted text holds no quotation mark and no control character of its own: a
/// mark or a backslash stands behind a backslash, and what prints as itself is
/// kept.
pub proof fn lemma_quoted_char(c: char)
    ensures
        c >= ' ' && c != '\u{7f}' && c != '"' && c != '\\' ==> quoted_char(c) == seq![c],
        c < ' ' || c == '\u{7f}' || c == '"' || c == '\\' ==> quoted_char(c).len() >= 2
            && quoted_char(c)[0] == '\\',
        c == '"' || c == '\\' ==> quoted_char(c)[1] == c,
        forall|i: int|
            0 <= i < quoted_char(c).len() ==> (#[trigger] quoted_char(c)[i]) >= ' '
                && quoted_char(c)[i] != '\u{7f}',
{
    lemma_hexadecimal_reads_back(c as nat, 0);
}

} // verus!
