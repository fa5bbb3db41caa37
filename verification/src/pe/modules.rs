//! Module names and the texts that forward an export to another module.
use crate::bytes::{invalid, invalid_for};
use crate::error::{agrees, AppResult, ReasonCode};
use crate::pe::types::{ImportSymbol, ImportSymbolModel};
use crate::text::{
    all_digits, chars_of, contains_char, decimal, decimal_value, find_char, first_of,
    lemma_decimal_reads_back, lemma_first_of_is, lower, lower_char, push_text, string_of, to_lower,
    trim_end, trim_start, trim_text, trimmed, white_space,
};
use vstd::prelude::*;

verus! {

/// The name under which a module is known: without white space around it, in
/// small letters, and with the extension of a library where it has none.
pub open spec fn normalized(name: Seq<char>) -> Seq<char> {
    let small = lower(trimmed(name));
    if small.contains('.') {
        small
    } else {
        small + ".dll"@
    }
}

/// The name under which a module is known.
pub fn normalize_module_name(value: &str) -> (name: String)
    ensures
        name@ == normalized(value@),
{
    let chars: Vec<char> = chars_of(value);
    let inner: Vec<char> = trim_text(&chars);
    let mut name: String = to_lower(&string_of(&inner));
    if !contains_char(&name, '.') {
        push_text(&mut name, ".dll");
    }
    name
}

/// No white space at either end.
pub open spec fn tight(text: Seq<char>) -> bool {
    text.len() > 0 ==> !white_space(text[0]) && !white_space(text.last())
}

proof fn lemma_trim_start(text: Seq<char>)
    ensures
        trim_start(text).len() > 0 ==> !white_space(trim_start(text)[0]),
    decreases text.len(),
{
    if text.len() > 0 && white_space(text[0]) {
        lemma_trim_start(text.drop_first());
    }
}

proof fn lemma_trim_end(text: Seq<char>)
    ensures
        trim_end(text).len() > 0 ==> !white_space(trim_end(text).last()),
        trim_end(text).len() > 0 ==> trim_end(text)[0] == text[0],
        trim_end(text).len() <= text.len(),
    decreases text.len(),
{
    if text.len() > 0 && white_space(text.last()) {
        lemma_trim_end(text.drop_last());
    }
}

/// What is left after trimming has no white space at either end.
pub proof fn lemma_trimmed_is_tight(text: Seq<char>)
    ensures
        tight(trimmed(text)),
{
    lemma_trim_start(text);
    lemma_trim_end(trim_start(text));
}

/// Trimming changes nothing where there is no white space at either end.
pub proof fn lemma_trimmed_of_tight(text: Seq<char>)
    requires
        tight(text),
    ensures
        trimmed(text) == text,
{
}

/// Making letters small a second time changes nothing.
pub proof fn lemma_lower_twice(text: Seq<char>)
    ensures
        lower(lower(text)) == lower(text),
{
    assert(lower(lower(text)) =~= lower(text)) by {
        assert forall|i: int| 0 <= i < text.len() implies lower(lower(text))[i] == lower(
            text,
        )[i] by {
            let c = text[i];
            assert(lower_char(lower_char(c)) == lower_char(c));
        }
    }
}

/// A module's name is known under itself.
pub proof fn lemma_normalized_twice(name: Seq<char>)
    ensures
        normalized(normalized(name)) == normalized(name),
{
    let inner = trimmed(name);
    let small = lower(inner);
    reveal_strlit(".dll");
    lemma_trimmed_is_tight(name);
    assert(tight(small)) by {
        if small.len() > 0 {
            let first = inner[0];
            let last = inner.last();
            assert(small[0] == lower_char(first));
            assert(small.last() == lower_char(last));
        }
    }
    let full = normalized(name);
    assert(tight(full)) by {
        if !small.contains('.') {
            assert(full.last() == 'l');
            if small.len() > 0 {
                assert(full[0] == small[0]);
            } else {
                assert(full[0] == '.');
            }
        }
    }
    lemma_trimmed_of_tight(full);
    lemma_lower_twice(inner);
    assert(lower(full) =~= full) by {
        assert forall|i: int| 0 <= i < full.len() implies lower(full)[i] == full[i] by {
            if i < small.len() {
                assert(full[i] == small[i]);
                assert(lower(small)[i] == small[i]);
            }
        }
    }
    assert(full.contains('.')) by {
        if !small.contains('.') {
            assert(full[small.len() as int] == '.');
        }
    }
}

// ---------------------------------------------------------------------------
// Forwarders
// ---------------------------------------------------------------------------

/// The 16-bit number that `text` spells in decimal, a leading plus allowed.
pub open spec fn ordinal_of(text: Seq<char>) -> Option<u16> {
    let digits = if text.len() > 0 && text[0] == '+' {
        text.drop_first()
    } else {
        text
    };
    if digits.len() == 0 || !all_digits(digits) || decimal_value(digits) > u16::MAX {
        None
    } else {
        Some(decimal_value(digits) as u16)
    }
}

/// The module and the symbol that a forwarder text names: the module up to
/// the first dot, behind it a name, or a number behind `#`.
pub open spec fn forwarded(text: Seq<char>) -> Option<(Seq<char>, ImportSymbolModel)> {
    let dot = first_of(text, '.');
    if dot >= text.len() {
        None
    } else {
        let module = normalized(text.take(dot));
        let symbol = text.skip(dot + 1);
        if symbol.len() > 0 && symbol[0] == '#' {
            match ordinal_of(symbol.drop_first()) {
                None => None,
                Some(ordinal) => Some((module, ImportSymbolModel::ByOrdinal { ordinal })),
            }
        } else {
            Some((module, ImportSymbolModel::ByName { hint: 0, name: symbol }))
        }
    }
}

proof fn lemma_value_grows(text: Seq<char>, i: int)
    requires
        all_digits(text),
        0 <= i <= text.len(),
    ensures
        decimal_value(text.take(i)) <= decimal_value(text),
    decreases text.len() - i,
{
    if i < text.len() {
        lemma_value_grows(text, i + 1);
        let longer = text.take(i + 1);
        assert(longer.drop_last() =~= text.take(i));
        assert('0' <= text[i] <= '9');
    } else {
        assert(text.take(i) =~= text);
    }
}

/// The number that `text` spells, or why it spells none.
fn parse_ordinal(text: &[char]) -> (ordinal: Result<u16, &'static str>)
    ensures
        match ordinal {
            Ok(number) => ordinal_of(text@) == Some(number),
            Err(_) => ordinal_of(text@) is None,
        },
{
    let start: usize = if text.len() > 0 && text[0] == '+' {
        1
    } else {
        0
    };
    let ghost digits = text@.skip(start as int);
    assert(start == 1 ==> digits =~= text@.drop_first());
    assert(start == 0 ==> digits =~= text@);
    if start == text.len() {
        return Err(
            if start == 0 {
                "cannot parse integer from empty string"
            } else {
                "invalid digit found in string"
            },
        );
    }
    let mut value: u32 = 0;
    let mut i: usize = start;
    assert(digits.take(0) =~= Seq::<char>::empty());
    while i < text.len()
        invariant
            start <= i <= text.len(),
            digits == text@.skip(start as int),
            digits == (if text@.len() > 0 && text@[0] == '+' {
                text@.drop_first()
            } else {
                text@
            }),
            digits.len() > 0,
            value <= u16::MAX,
            value == decimal_value(digits.take(i - start)),
            forall|j: int| 0 <= j < i - start ==> '0' <= #[trigger] digits[j] <= '9',
        decreases text.len() - i,
    {
        let c: char = text[i];
        assert(digits[i - start] == c);
        if c < '0' || c > '9' {
            assert(!all_digits(digits));
            return Err("invalid digit found in string");
        }
        proof {
            let longer = digits.take(i - start + 1);
            assert(longer.drop_last() =~= digits.take(i - start));
            assert(longer.last() == c);
        }
        value = value * 10 + (c as u32 - 48);
        i += 1;
        if value > 0xffff {
            proof {
                if all_digits(digits) {
                    lemma_value_grows(digits, i - start);
                }
            }
            return Err("number too large to fit in target type");
        }
    }
    assert(digits.take(i - start) =~= digits);
    assert(all_digits(digits));
    Ok(value as u16)
}

/// The module and the symbol that a forwarder text names.
pub fn parse_forwarder_string(value: &str) -> (outcome: AppResult<(String, ImportSymbol)>)
    ensures
        agrees(outcome, ReasonCode::RcPeParseInvalid, forwarded(value@)),
{
    let chars: Vec<char> = chars_of(value);
    let dot: usize = find_char(&chars, '.');
    if dot >= chars.len() {
        return invalid("forwarder string is missing the module separator");
    }
    let module_part: &[char] = vstd::slice::slice_subrange(&chars, 0, dot);
    let symbol: &[char] = vstd::slice::slice_subrange(&chars, dot + 1, chars.len());
    assert(module_part@ =~= value@.take(dot as int));
    assert(symbol@ =~= value@.skip(dot + 1));
    let module: String = normalize_module_name(&string_of(module_part));
    if symbol.len() > 0 && symbol[0] == '#' {
        let rest: &[char] = vstd::slice::slice_subrange(symbol, 1, symbol.len());
        assert(rest@ =~= symbol@.drop_first());
        match parse_ordinal(rest) {
            Err(reason) => invalid_for("forwarder ordinal is not numeric", reason.to_owned()),
            Ok(ordinal) => Ok((module, ImportSymbol::ByOrdinal { ordinal })),
        }
    } else {
        Ok((module, ImportSymbol::ByName { hint: 0, name: string_of(symbol) }))
    }
}

/// A name without white space around it and without a dot is a library; one
/// with a dot keeps its ending. Either way its letters become small.
pub proof fn lemma_library_named(name: Seq<char>)
    requires
        tight(name),
    ensures
        !name.contains('.') ==> normalized(name) == lower(name) + ".dll"@,
        name.contains('.') ==> normalized(name) == lower(name),
{
    lemma_trimmed_of_tight(name);
    let small = lower(name);
    if name.contains('.') {
        let i = choose|i: int| 0 <= i < name.len() && name[i] == '.';
        assert(small[i] == '.');
    } else if small.contains('.') {
        let i = choose|i: int| 0 <= i < small.len() && small[i] == '.';
        assert(lower_char(name[i]) == '.');
        assert(name[i] == '.');
    }
}

/// A forwarder is read as it was written: the library in front of the dot, and
/// behind it a name or, after a number sign, an ordinal.
pub proof fn lemma_forwarder_reads_back(module: Seq<char>, symbol: Seq<char>, ordinal: u16)
    requires
        tight(module),
        !module.contains('.'),
    ensures
        symbol.len() == 0 || symbol[0] != '#' ==> forwarded(module + seq!['.'] + symbol) == Some(
            (lower(module) + ".dll"@, ImportSymbolModel::ByName { hint: 0, name: symbol }),
        ),
        forwarded(module + seq!['.', '#'] + decimal(ordinal as nat)) == Some(
            (lower(module) + ".dll"@, ImportSymbolModel::ByOrdinal { ordinal }),
        ),
        forwarded(module) is None,
{
    lemma_library_named(module);
    let named = module + seq!['.'] + symbol;
    let dot = module.len() as int;
    assert forall|i: int| 0 <= i < dot implies module[i] != '.' by {
        assert(module.contains(module[i]));
    }
    assert(named[dot] == '.');
    lemma_first_of_is(named, '.', dot);
    assert(named.take(dot) =~= module);
    assert(named.skip(dot + 1) =~= symbol);
    let digits = decimal(ordinal as nat);
    let numbered = module + seq!['.', '#'] + digits;
    assert(numbered[dot] == '.' && numbered[dot + 1] == '#');
    lemma_first_of_is(numbered, '.', dot);
    assert(numbered.take(dot) =~= module);
    assert(numbered.skip(dot + 1).drop_first() =~= digits);
    lemma_decimal_reads_back(ordinal as nat);
    assert('0' <= digits[0] <= '9');
    lemma_first_of_is(module, '.', dot);
}

} // verus!
