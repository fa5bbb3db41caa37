//! Text in UTF-16 units.
use vstd::prelude::*;

verus! {

/// `char::from_u32`: the character with the given scalar value.
#[verifier::external_body]
fn char_with_value(value: u32) -> (c: Option<char>)
    ensures
        match c {
            Some(c) => c as u32 == value,
            None => value > 0x10ffff || 0xd800 <= value <= 0xdfff,
        },
{
    char::from_u32(value)
}

/// A unit that opens a pair.
pub open spec fn opens_pair(unit: u16) -> bool {
    0xd800 <= unit <= 0xdbff
}

/// A unit that closes a pair.
pub open spec fn closes_pair(unit: u16) -> bool {
    0xdc00 <= unit <= 0xdfff
}

/// The character that the pair of units stands for.
pub open spec fn paired(first: u16, second: u16) -> char {
    ((0x1_0000 + (first - 0xd800) * 0x400 + (second - 0xdc00)) as u32) as char
}

/// The character at the start of `units` and the number of units it takes;
/// no character where the first unit belongs to a pair that is not there.
pub open spec fn first_char(units: Seq<u16>) -> (Option<char>, int)
    recommends
        units.len() > 0,
{
    if !opens_pair(units[0]) && !closes_pair(units[0]) {
        (Some((units[0] as u32) as char), 1)
    } else if opens_pair(units[0]) && units.len() > 1 && closes_pair(units[1]) {
        (Some(paired(units[0], units[1])), 2)
    } else {
        (None, 1)
    }
}

/// The text of the units, with U+FFFD for each unit that stands for nothing.
pub open spec fn decoded_lossy(units: Seq<u16>) -> Seq<char>
    decreases units.len(),
{
    if units.len() == 0 {
        Seq::empty()
    } else {
        let (c, width) = first_char(units);
        seq![
            match c {
                Some(c) => c,
                None => '\u{fffd}',
            },
        ] + decoded_lossy(units.skip(width))
    }
}

/// The text of the units, if each stands for something.
pub open spec fn decoded(units: Seq<u16>) -> Option<Seq<char>>
    decreases units.len(),
{
    if units.len() == 0 {
        Some(Seq::empty())
    } else {
        match first_char(units) {
            (None, _) => None,
            (Some(c), width) => match decoded(units.skip(width)) {
                None => None,
                Some(rest) => Some(seq![c] + rest),
            },
        }
    }
}

/// The units of a character.
pub open spec fn units_of_char(c: char) -> Seq<u16> {
    if c as u32 <= 0xffff {
        seq![(c as u32) as u16]
    } else {
        seq![
            (0xd800 + (c as u32 - 0x1_0000) / 0x400) as u16,
            (0xdc00 + (c as u32 - 0x1_0000) % 0x400) as u16,
        ]
    }
}

/// The units of a text.
pub open spec fn encoded(text: Seq<char>) -> Seq<u16>
    decreases text.len(),
{
    if text.len() == 0 {
        Seq::empty()
    } else {
        encoded(text.drop_last()) + units_of_char(text.last())
    }
}

proof fn lemma_encoded_front(text: Seq<char>)
    requires
        text.len() > 0,
    ensures
        encoded(text) == units_of_char(text[0]) + encoded(text.skip(1)),
    decreases text.len(),
{
    if text.len() == 1 {
        assert(text.drop_last() =~= Seq::<char>::empty());
        assert(text.skip(1) =~= Seq::<char>::empty());
        assert(encoded(text) =~= units_of_char(text[0]) + encoded(text.skip(1)));
    } else {
        let front = text.drop_last();
        lemma_encoded_front(front);
        assert(front.skip(1) =~= text.skip(1).drop_last());
        assert(encoded(text) =~= units_of_char(text[0]) + encoded(text.skip(1)));
    }
}

/// Decoding gives back every text that was encoded.
pub proof fn lemma_decoded_encoded(text: Seq<char>)
    ensures
        decoded(encoded(text)) == Some(text),
    decreases text.len(),
{
    if text.len() > 0 {
        lemma_encoded_front(text);
        lemma_decoded_encoded(text.skip(1));
        let units = encoded(text);
        let head = units_of_char(text[0]);
        vstd::utf8::char_is_scalar(text[0]);
        vstd::utf8::char_u32_cast(text[0], text[0] as u32);
        assert(units.skip(head.len() as int) =~= encoded(text.skip(1)));
        assert(first_char(units) == (Some(text[0]), head.len() as int));
        assert(seq![text[0]] + text.skip(1) =~= text);
    }
}

/// Where every unit stands for something, both readings give the same text.
pub proof fn lemma_lossy_agrees(units: Seq<u16>)
    ensures
        decoded(units) matches Some(text) ==> decoded_lossy(units) == text,
    decreases units.len(),
{
    if units.len() > 0 {
        lemma_lossy_agrees(units.skip(first_char(units).1));
    }
}

fn read_char(units: &[u16], at: usize) -> (read: (Option<char>, usize))
    requires
        at < units.len(),
    ensures
        read.0 == first_char(units@.skip(at as int)).0,
        read.1 == first_char(units@.skip(at as int)).1,
        1 <= read.1 <= 2,
        at + read.1 <= units.len(),
{
    let unit: u16 = units[at];
    if unit < 0xd800 || unit > 0xdfff {
        let c: Option<char> = char_with_value(unit as u32);
        proof {
            if let Some(shown) = c {
                vstd::utf8::char_u32_cast(shown, unit as u32);
            }
        }
        return (c, 1);
    }
    if unit <= 0xdbff && units.len() - at > 1 {
        let second: u16 = units[at + 1];
        if 0xdc00 <= second && second <= 0xdfff {
            let value: u32 = 0x1_0000 + (unit as u32 - 0xd800) * 0x400 + (second as u32 - 0xdc00);
            let c: Option<char> = char_with_value(value);
            proof {
                if let Some(shown) = c {
                    vstd::utf8::char_u32_cast(shown, value);
                }
            }
            return (c, 2);
        }
    }
    (None, 1)
}

/// The text of the units, with U+FFFD for each unit that stands for nothing.
pub fn decode_lossy(units: &[u16]) -> (text: String)
    ensures
        text@ == decoded_lossy(units@),
{
    let mut text: String = String::new();
    let mut at: usize = 0;
    assert(units@.skip(0) =~= units@);
    while at < units.len()
        invariant
            at <= units.len(),
            decoded_lossy(units@) == text@ + decoded_lossy(units@.skip(at as int)),
        decreases units.len() - at,
    {
        let (c, width) = read_char(units, at);
        let ghost before = text@;
        let shown: char = match c {
            Some(c) => c,
            None => '\u{fffd}',
        };
        text.push(shown);
        proof {
            let here = units@.skip(at as int);
            assert(here.skip(width as int) =~= units@.skip(at + width));
            assert(before + (seq![shown] + decoded_lossy(units@.skip(at + width)))
                =~= before.push(shown) + decoded_lossy(units@.skip(at + width)));
        }
        at += width;
    }
    assert(text@ + Seq::<char>::empty() =~= text@);
    text
}

/// The text of the units, if each stands for something.
pub fn decode(units: &[u16]) -> (text: Option<String>)
    ensures
        match text {
            Some(text) => decoded(units@) == Some(text@),
            None => decoded(units@) is None,
        },
{
    let mut text: String = String::new();
    let mut at: usize = 0;
    assert(units@.skip(0) =~= units@);
    proof {
        if let Some(rest) = decoded(units@) {
            assert(text@ + rest =~= rest);
        }
    }
    while at < units.len()
        invariant
            at <= units.len(),
            decoded(units@) == (match decoded(units@.skip(at as int)) {
                None => None,
                Some(rest) => Some(text@ + rest),
            }),
        decreases units.len() - at,
    {
        let (c, width) = read_char(units, at);
        match c {
            None => {
                return None;
            },
            Some(c) => {
                let ghost before = text@;
                text.push(c);
                proof {
                    let here = units@.skip(at as int);
                    assert(here.skip(width as int) =~= units@.skip(at + width));
                    if let Some(rest) = decoded(units@.skip(at + width)) {
                        assert(before + (seq![c] + rest) =~= before.push(c) + rest);
                    }
                }
                at += width;
            },
        }
    }
    assert(text@ + Seq::<char>::empty() =~= text@);
    Some(text)
}

/// The units of a text.
pub fn encode(text: &str) -> (units: Vec<u16>)
    ensures
        units@ == encoded(text@),
{
    let mut units: Vec<u16> = Vec::new();
    for c in it: text.chars()
        invariant
            units@ == encoded(it.seq().take(it.index())),
            it.seq() == text@,
    {
        proof {
            vstd::utf8::char_is_scalar(c);
        }
        let value: u32 = c as u32;
        if value <= 0xffff {
            units.push(value as u16);
        } else {
            units.push((0xd800 + (value - 0x1_0000) / 0x400) as u16);
            units.push((0xdc00 + (value - 0x1_0000) % 0x400) as u16);
        }
        proof {
            let now = it.seq().take(it.index() + 1);
            assert(now.drop_last() =~= it.seq().take(it.index() as int));
            assert(units@ =~= encoded(now.drop_last()) + units_of_char(c));
        }
    }
    assert(text@.take(text@.len() as int) =~= text@);
    units
}

/// A character up to U+FFFF is one unit with its number; any other is two, the
/// first of which opens and the second closes a pair. What is decoded from a
/// pair counts from U+10000 on, 1024 for each step of the first.
pub proof fn lemma_units_of_char(c: char)
    ensures
        c as u32 <= 0xffff ==> units_of_char(c).len() == 1 && units_of_char(c)[0] as u32 == c as u32,
        c as u32 > 0xffff ==> {
            let units = units_of_char(c);
            &&& units.len() == 2
            &&& 0xd800 <= units[0] <= 0xdbff
            &&& 0xdc00 <= units[1] <= 0xdfff
            &&& c as u32 == 0x1_0000 + 0x400 * (units[0] - 0xd800) + (units[1] - 0xdc00)
        },
{
}

/// Decoding takes units in order: a unit outside the pairs is one character,
/// two that make a pair are one character, and a half that stands alone is
/// shown by U+FFFD, while the strict reading refuses the text.
pub proof fn lemma_decoded_first(units: Seq<u16>)
    requires
        units.len() > 0,
    ensures
        units[0] < 0xd800 || units[0] > 0xdfff ==> decoded_lossy(units) == seq![
            (units[0] as u32) as char,
        ] + decoded_lossy(units.skip(1)),
        0xd800 <= units[0] <= 0xdbff && units.len() > 1 && 0xdc00 <= units[1] <= 0xdfff ==> {
            let c = ((0x1_0000 + 0x400 * (units[0] - 0xd800) + (units[1] - 0xdc00)) as u32) as char;
            decoded_lossy(units) == seq![c] + decoded_lossy(units.skip(2))
        },
        0xdc00 <= units[0] <= 0xdfff || 0xd800 <= units[0] <= 0xdbff && (units.len() == 1
            || !(0xdc00 <= units[1] <= 0xdfff)) ==> decoded_lossy(units) == seq!['\u{fffd}']
            + decoded_lossy(units.skip(1)) && decoded(units) is None,
{
    if 0xd800 <= units[0] <= 0xdbff && units.len() > 1 && 0xdc00 <= units[1] <= 0xdfff {
        assert(0x1_0000 + (units[0] - 0xd800) * 0x400 + (units[1] - 0xdc00) == 0x1_0000 + 0x400 * (
        units[0] - 0xd800) + (units[1] - 0xdc00));
    }
}

} // verus!
