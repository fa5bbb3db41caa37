//! The files that hold alternate streams where the host knows none: beside the
//! file, in a directory `.casa1_ads`, under the name of the file and that of
//! the stream.
use crate::fs::resolver::{join_path, path_in};
use crate::text::{chars_of, find_part, hex_char, push_text, stands_at, string_of, upper_char};
use vstd::prelude::*;

verus! {

/// The directory of the streams.
pub const ADS_DIRECTORY: &'static str = ".casa1_ads";

// ---------------------------------------------------------------------------
// Underscores
// ---------------------------------------------------------------------------

/// A character as it stands in a name with no underscore of its own.
pub open spec fn escaped_char(c: char) -> Seq<char> {
    if c == '_' {
        seq!['_', '5', 'f']
    } else if c == '%' {
        seq!['_', '2', '5']
    } else {
        seq![c]
    }
}

/// The text with every underscore and percent sign escaped.
pub open spec fn escaped(text: Seq<char>) -> Seq<char>
    decreases text.len(),
{
    if text.len() == 0 {
        Seq::empty()
    } else {
        escaped_char(text[0]) + escaped(text.drop_first())
    }
}

/// The text with the escapes undone. Three characters from an underscore on
/// that are no escape stay as they are.
pub open spec fn unescaped(text: Seq<char>) -> Seq<char>
    decreases text.len(),
{
    if text.len() == 0 {
        Seq::empty()
    } else if text[0] != '_' {
        seq![text[0]] + unescaped(text.drop_first())
    } else if text.len() < 3 {
        text
    } else if text[1] == '5' && text[2] == 'f' {
        seq!['_'] + unescaped(text.skip(3))
    } else if text[1] == '2' && text[2] == '5' {
        seq!['%'] + unescaped(text.skip(3))
    } else {
        text.take(3) + unescaped(text.skip(3))
    }
}

/// Undoing the escapes gives the text back.
pub proof fn lemma_unescaped_escaped(text: Seq<char>)
    ensures
        unescaped(escaped(text)) == text,
    decreases text.len(),
{
    if text.len() > 0 {
        let c = text[0];
        let rest = escaped(text.drop_first());
        let whole = escaped(text);
        lemma_unescaped_escaped(text.drop_first());
        if c == '_' || c == '%' {
            assert(whole.skip(3) =~= rest);
        } else {
            assert(whole.drop_first() =~= rest);
        }
        assert(seq![c] + text.drop_first() =~= text);
    } else {
        assert(unescaped(escaped(text)) =~= text);
    }
}

/// In an escaped text every underscore is followed by a digit.
pub proof fn lemma_escaped_underscores(text: Seq<char>)
    ensures
        forall|i: int|
            0 <= i < escaped(text).len() && #[trigger] escaped(text)[i] == '_' ==> i + 1
                < escaped(text).len() && escaped(text)[i + 1] != '_',
    decreases text.len(),
{
    if text.len() > 0 {
        let head = escaped_char(text[0]);
        let rest = escaped(text.drop_first());
        lemma_escaped_underscores(text.drop_first());
        assert forall|i: int|
            0 <= i < escaped(text).len() && #[trigger] escaped(text)[i] == '_' implies i + 1
            < escaped(text).len() && escaped(text)[i + 1] != '_' by {
            if i >= head.len() {
                assert(rest[i - head.len()] == '_');
            }
        }
    }
}

/// Escapes the underscores and percent signs of a text.
pub fn escape_sidecar_component(component: &str) -> (text: String)
    ensures
        text@ == escaped(component@),
{
    let chars: Vec<char> = chars_of(component);
    let mut text: String = String::new();
    let mut i: usize = 0;
    assert(chars@.skip(0) =~= chars@);
    assert(text@ + escaped(chars@) =~= escaped(chars@));
    while i < chars.len()
        invariant
            i <= chars.len(),
            text@ + escaped(chars@.skip(i as int)) == escaped(chars@),
        decreases chars.len() - i,
    {
        let c: char = chars[i];
        let ghost before = text@;
        if c == '_' {
            push_text(&mut text, "_5f");
        } else if c == '%' {
            push_text(&mut text, "_25");
        } else {
            text.push(c);
        }
        proof {
            reveal_strlit("_5f");
            reveal_strlit("_25");
            assert(text@ =~= before + escaped_char(c));
            assert(chars@.skip(i as int).drop_first() =~= chars@.skip(i + 1));
            assert(before + (escaped_char(c) + escaped(chars@.skip(i + 1))) =~= text@ + escaped(
                chars@.skip(i + 1),
            ));
        }
        i += 1;
    }
    assert(escaped(chars@.skip(i as int)) =~= Seq::<char>::empty());
    assert(text@ + Seq::<char>::empty() =~= text@);
    text
}

/// Undoes the escapes of a text.
pub fn unescape_sidecar_component(component: &str) -> (text: String)
    ensures
        text@ == unescaped(component@),
{
    let chars: Vec<char> = chars_of(component);
    let mut out: Vec<char> = Vec::new();
    let mut i: usize = 0;
    assert(chars@.skip(0) =~= chars@);
    assert(out@ + unescaped(chars@) =~= unescaped(chars@));
    while i < chars.len()
        invariant
            i <= chars.len(),
            chars@ == component@,
            out@ + unescaped(chars@.skip(i as int)) == unescaped(chars@),
        decreases chars.len() - i,
    {
        let ghost before = out@;
        let ghost rest = chars@.skip(i as int);
        if chars[i] != '_' {
            out.push(chars[i]);
            proof {
                assert(rest.drop_first() =~= chars@.skip(i + 1));
                assert(before + (seq![rest[0]] + unescaped(rest.drop_first())) =~= out@
                    + unescaped(chars@.skip(i + 1)));
            }
            i += 1;
        } else if chars.len() - i < 3 {
            while i < chars.len()
                invariant
                    i <= chars.len(),
                    out@ + chars@.skip(i as int) == unescaped(chars@),
                decreases chars.len() - i,
            {
                let ghost now = out@;
                out.push(chars[i]);
                assert(now + chars@.skip(i as int) =~= out@ + chars@.skip(i + 1));
                i += 1;
            }
            assert(out@ + chars@.skip(i as int) =~= out@);
            return string_of(&out);
        } else {
            if chars[i + 1] == '5' && chars[i + 2] == 'f' {
                out.push('_');
                assert(out@ =~= before + seq!['_']);
            } else if chars[i + 1] == '2' && chars[i + 2] == '5' {
                out.push('%');
                assert(out@ =~= before + seq!['%']);
            } else {
                out.push(chars[i]);
                out.push(chars[i + 1]);
                out.push(chars[i + 2]);
                assert(out@ =~= before + rest.take(3));
            }
            proof {
                assert(rest.skip(3) =~= chars@.skip(i + 3));
                let tail = unescaped(chars@.skip(i + 3));
                let head = out@.skip(before.len() as int);
                assert(out@ =~= before + head);
                assert(before + (head + tail) =~= out@ + tail);
                if rest[1] == '5' && rest[2] == 'f' {
                    assert(head =~= seq!['_']);
                } else if rest[1] == '2' && rest[2] == '5' {
                    assert(head =~= seq!['%']);
                } else {
                    assert(head =~= rest.take(3));
                }
            }
            i += 3;
        }
    }
    assert(unescaped(chars@.skip(i as int)) =~= Seq::<char>::empty());
    assert(out@ + Seq::<char>::empty() =~= out@);
    string_of(&out)
}

// ---------------------------------------------------------------------------
// Percent signs
// ---------------------------------------------------------------------------

/// A character as it stands in the name of a stream: what could lead out of
/// the directory is written with a percent sign.
pub open spec fn percent_char(c: char) -> Seq<char> {
    if c == '%' {
        seq!['%', '2', '5']
    } else if c == '/' {
        seq!['%', '2', 'F']
    } else if c == '\\' {
        seq!['%', '5', 'C']
    } else if c == ':' {
        seq!['%', '3', 'A']
    } else if c == '\0' {
        seq!['%', '0', '0']
    } else {
        seq![c]
    }
}

/// The text with percent signs for what could lead out of the directory.
pub open spec fn percent_encoded(text: Seq<char>) -> Seq<char>
    decreases text.len(),
{
    if text.len() == 0 {
        Seq::empty()
    } else {
        percent_char(text[0]) + percent_encoded(text.drop_first())
    }
}

/// The value of a hexadecimal digit.
pub open spec fn hex_value(c: char) -> Option<int> {
    if '0' <= c <= '9' {
        Some(c as int - '0' as int)
    } else if 'a' <= c <= 'f' {
        Some(c as int - 'a' as int + 10)
    } else if 'A' <= c <= 'F' {
        Some(c as int - 'A' as int + 10)
    } else {
        None
    }
}

/// The value of two hexadecimal digits; the first may be a plus sign.
pub open spec fn hex_pair(first: char, second: char) -> Option<int> {
    match (hex_value(first), hex_value(second)) {
        (Some(high), Some(low)) => Some(16 * high + low),
        (None, Some(low)) => if first == '+' {
            Some(low)
        } else {
            None
        },
        _ => None,
    }
}

/// The text with a character for each percent sign and two digits.
pub open spec fn percent_decoded(text: Seq<char>) -> Seq<char>
    decreases text.len(),
{
    if text.len() == 0 {
        Seq::empty()
    } else if text[0] == '%' && text.len() >= 3 && hex_pair(text[1], text[2]) is Some {
        seq![(hex_pair(text[1], text[2])->0 as u32) as char] + percent_decoded(text.skip(3))
    } else {
        seq![text[0]] + percent_decoded(text.drop_first())
    }
}

proof fn lemma_char_values()
    ensures
        (0x25u32) as char == '%',
        (0x2fu32) as char == '/',
        (0x5cu32) as char == '\\',
        (0x3au32) as char == ':',
        (0x00u32) as char == '\0',
{
}

/// Decoding the percent signs gives the text back.
pub proof fn lemma_percent_decoded_encoded(text: Seq<char>)
    ensures
        percent_decoded(percent_encoded(text)) == text,
    decreases text.len(),
{
    if text.len() > 0 {
        let c = text[0];
        let rest = percent_encoded(text.drop_first());
        let whole = percent_encoded(text);
        lemma_percent_decoded_encoded(text.drop_first());
        lemma_char_values();
        if percent_char(c).len() == 3 {
            assert(whole.skip(3) =~= rest);
            assert(whole[0] == percent_char(c)[0] && whole[1] == percent_char(c)[1] && whole[2]
                == percent_char(c)[2]);
            assert(hex_pair(whole[1], whole[2]) == Some(c as int));
        } else {
            assert(whole.drop_first() =~= rest);
        }
        assert(seq![c] + text.drop_first() =~= text);
    } else {
        assert(percent_decoded(percent_encoded(text)) =~= text);
    }
}

/// The name of a stream, as it stands in the name of its file.
pub open spec fn stream_encoded(name: Seq<char>) -> Seq<char> {
    escaped(percent_encoded(name))
}

/// The name of a stream, by how it stands in the name of its file.
pub open spec fn stream_decoded(text: Seq<char>) -> Seq<char> {
    percent_decoded(unescaped(text))
}

/// Decoding the name of a stream gives it back.
pub proof fn lemma_stream_decoded_encoded(name: Seq<char>)
    ensures
        stream_decoded(stream_encoded(name)) == name,
{
    lemma_unescaped_escaped(percent_encoded(name));
    lemma_percent_decoded_encoded(name);
}

/// A character that could lead out of the directory.
pub open spec fn leads_out(c: char) -> bool {
    c == '/' || c == '\\' || c == ':' || c == '\0'
}

proof fn lemma_percent_safe(name: Seq<char>)
    ensures
        forall|i: int|
            0 <= i < percent_encoded(name).len() ==> !leads_out(
                #[trigger] percent_encoded(name)[i],
            ),
    decreases name.len(),
{
    if name.len() > 0 {
        let head = percent_char(name[0]);
        let rest = percent_encoded(name.drop_first());
        lemma_percent_safe(name.drop_first());
        assert forall|i: int| 0 <= i < percent_encoded(name).len() implies !leads_out(
            #[trigger] percent_encoded(name)[i],
        ) by {
            if i >= head.len() {
                assert(!leads_out(rest[i - head.len()]));
            }
        }
    }
}

proof fn lemma_escaped_safe(text: Seq<char>)
    requires
        forall|i: int| 0 <= i < text.len() ==> !leads_out(#[trigger] text[i]),
    ensures
        forall|i: int| 0 <= i < escaped(text).len() ==> !leads_out(#[trigger] escaped(text)[i]),
    decreases text.len(),
{
    if text.len() > 0 {
        let head = escaped_char(text[0]);
        let front = text.drop_first();
        let rest = escaped(front);
        assert(!leads_out(text[0]));
        assert forall|i: int| 0 <= i < front.len() implies !leads_out(#[trigger] front[i]) by {
            assert(!leads_out(text[i + 1]));
        }
        lemma_escaped_safe(front);
        assert forall|i: int| 0 <= i < escaped(text).len() implies !leads_out(
            #[trigger] escaped(text)[i],
        ) by {
            if i >= head.len() {
                assert(!leads_out(rest[i - head.len()]));
            }
        }
    }
}

/// The encoded name of a stream holds nothing that could lead out of the
/// directory.
pub proof fn lemma_stream_stays_inside(name: Seq<char>)
    ensures
        forall|i: int|
            0 <= i < stream_encoded(name).len() ==> !leads_out(#[trigger] stream_encoded(name)[i]),
{
    lemma_percent_safe(name);
    lemma_escaped_safe(percent_encoded(name));
}

fn encode_percent(text: &str) -> (out: String)
    ensures
        out@ == percent_encoded(text@),
{
    let chars: Vec<char> = chars_of(text);
    let mut out: String = String::new();
    let mut i: usize = 0;
    assert(chars@.skip(0) =~= chars@);
    assert(out@ + percent_encoded(chars@) =~= percent_encoded(chars@));
    while i < chars.len()
        invariant
            i <= chars.len(),
            out@ + percent_encoded(chars@.skip(i as int)) == percent_encoded(chars@),
        decreases chars.len() - i,
    {
        let c: char = chars[i];
        let ghost before = out@;
        if c == '%' {
            push_text(&mut out, "%25");
        } else if c == '/' {
            push_text(&mut out, "%2F");
        } else if c == '\\' {
            push_text(&mut out, "%5C");
        } else if c == ':' {
            push_text(&mut out, "%3A");
        } else if c == '\0' {
            push_text(&mut out, "%00");
        } else {
            out.push(c);
        }
        proof {
            reveal_strlit("%25");
            reveal_strlit("%2F");
            reveal_strlit("%5C");
            reveal_strlit("%3A");
            reveal_strlit("%00");
            assert(out@ =~= before + percent_char(c));
            assert(chars@.skip(i as int).drop_first() =~= chars@.skip(i + 1));
            assert(before + (percent_char(c) + percent_encoded(chars@.skip(i + 1))) =~= out@
                + percent_encoded(chars@.skip(i + 1)));
        }
        i += 1;
    }
    assert(percent_encoded(chars@.skip(i as int)) =~= Seq::<char>::empty());
    assert(out@ + Seq::<char>::empty() =~= out@);
    out
}

fn digit_of(c: char) -> (digit: Option<u8>)
    ensures
        match digit {
            Some(value) => value < 16 && hex_value(c) == Some(value as int),
            None => hex_value(c) is None,
        },
{
    proof {
        vstd::utf8::char_is_scalar(c);
    }
    let code: u32 = c as u32;
    if '0' <= c && c <= '9' {
        Some((code - 48) as u8)
    } else if 'a' <= c && c <= 'f' {
        Some((code - 87) as u8)
    } else if 'A' <= c && c <= 'F' {
        Some((code - 55) as u8)
    } else {
        None
    }
}

fn pair_of(first: char, second: char) -> (value: Option<u8>)
    ensures
        match value {
            Some(byte) => hex_pair(first, second) == Some(byte as int),
            None => hex_pair(first, second) is None,
        },
{
    match digit_of(second) {
        None => None,
        Some(low) => match digit_of(first) {
            Some(high) => Some(16 * high + low),
            None => if first == '+' {
                Some(low)
            } else {
                None
            },
        },
    }
}

fn decode_percent(text: &str) -> (out: String)
    ensures
        out@ == percent_decoded(text@),
{
    let chars: Vec<char> = chars_of(text);
    let mut out: Vec<char> = Vec::new();
    let mut i: usize = 0;
    assert(chars@.skip(0) =~= chars@);
    assert(out@ + percent_decoded(chars@) =~= percent_decoded(chars@));
    while i < chars.len()
        invariant
            i <= chars.len(),
            out@ + percent_decoded(chars@.skip(i as int)) == percent_decoded(chars@),
        decreases chars.len() - i,
    {
        let ghost before = out@;
        let ghost rest = chars@.skip(i as int);
        let value: Option<u8> = if chars[i] == '%' && chars.len() - i >= 3 {
            pair_of(chars[i + 1], chars[i + 2])
        } else {
            None
        };
        match value {
            Some(byte) => {
                out.push(byte as char);
                proof {
                    assert(rest.skip(3) =~= chars@.skip(i + 3));
                    assert(byte as char == (byte as u32) as char);
                    let tail = percent_decoded(chars@.skip(i + 3));
                    assert(before + (seq![byte as char] + tail) =~= out@ + tail);
                }
                i += 3;
            },
            None => {
                out.push(chars[i]);
                proof {
                    assert(rest.drop_first() =~= chars@.skip(i + 1));
                    let tail = percent_decoded(chars@.skip(i + 1));
                    assert(before + (seq![rest[0]] + tail) =~= out@ + tail);
                }
                i += 1;
            },
        }
    }
    assert(percent_decoded(chars@.skip(i as int)) =~= Seq::<char>::empty());
    assert(out@ + Seq::<char>::empty() =~= out@);
    string_of(&out)
}

/// The name of a stream, as it stands in the name of its file.
pub fn encode_stream_name_for_sidecar(stream_name: &str) -> (text: String)
    ensures
        text@ == stream_encoded(stream_name@),
{
    escape_sidecar_component(&encode_percent(stream_name))
}

/// The name of a stream, by how it stands in the name of its file.
pub fn decode_stream_name_from_sidecar(encoded: &str) -> (name: String)
    ensures
        name@ == stream_decoded(encoded@),
{
    decode_percent(&unescape_sidecar_component(encoded))
}

// ---------------------------------------------------------------------------
// The files
// ---------------------------------------------------------------------------

/// The name of the file that holds a stream.
pub open spec fn sidecar_name(file_name: Seq<char>, stream_name: Seq<char>) -> Seq<char> {
    escaped(file_name) + "__"@ + stream_encoded(stream_name)
}

/// The path of the file that holds a stream.
pub open spec fn sidecar_path(
    directory: Seq<char>,
    file_name: Seq<char>,
    stream_name: Seq<char>,
) -> Seq<char> {
    path_in(path_in(directory, ADS_DIRECTORY@), sidecar_name(file_name, stream_name))
}

/// The path of the file that holds a stream of the named file of a directory.
pub fn ads_sidecar_path_for(directory: &str, file_name: &str, stream_name: &str) -> (path: String)
    ensures
        path@ == sidecar_path(directory@, file_name@, stream_name@),
{
    let mut name: String = escape_sidecar_component(file_name);
    push_text(&mut name, "__");
    push_text(&mut name, &encode_stream_name_for_sidecar(stream_name));
    join_path(&join_path(directory, ADS_DIRECTORY), &name)
}

/// The first place from `from` on at which two underscores stand; the length
/// of the text where they do not.
pub open spec fn first_separator(text: Seq<char>, from: int) -> int
    decreases text.len() - from,
{
    if from < 0 || from >= text.len() {
        text.len() as int
    } else if stands_at(text, "__"@, from) {
        from
    } else {
        first_separator(text, from + 1)
    }
}

/// The file and the stream that the name of a file of streams stands for:
/// what is in front of the first two underscores, and what is behind.
pub open spec fn sidecar_parts(name: Seq<char>) -> Option<(Seq<char>, Seq<char>)> {
    let at = first_separator(name, 0);
    if at >= name.len() || name.skip(at + 2).len() == 0 {
        None
    } else {
        Some((unescaped(name.take(at)), stream_decoded(name.skip(at + 2))))
    }
}

proof fn lemma_first_separator(text: Seq<char>, from: int, at: int)
    requires
        0 <= from <= at <= text.len(),
        forall|k: int| from <= k < at ==> !stands_at(text, "__"@, k),
        at < text.len() ==> stands_at(text, "__"@, at),
    ensures
        first_separator(text, from) == at,
    decreases at - from,
{
    if from < at {
        lemma_first_separator(text, from + 1, at);
    }
}

/// The name of a file of streams stands for the file and the stream that it
/// was made of.
pub proof fn lemma_sidecar_round_trip(file_name: Seq<char>, stream_name: Seq<char>)
    requires
        stream_name.len() > 0,
    ensures
        sidecar_parts(sidecar_name(file_name, stream_name)) == Some((file_name, stream_name)),
{
    reveal_strlit("__");
    let base = escaped(file_name);
    let stream = stream_encoded(stream_name);
    let name = sidecar_name(file_name, stream_name);
    let at = base.len() as int;
    lemma_escaped_underscores(file_name);
    assert forall|k: int| 0 <= k < at implies !stands_at(name, "__"@, k) by {
        if stands_at(name, "__"@, k) {
            assert(name.subrange(k, k + 2)[0] == name[k] && name.subrange(k, k + 2)[1] == name[k
                + 1]);
            assert(base[k] == '_');
            assert(base[k + 1] != '_');
        }
    }
    assert(name.subrange(at, at + 2) =~= "__"@);
    lemma_first_separator(name, 0, at);
    assert(name.take(at) =~= base);
    assert(name.skip(at + 2) =~= stream);
    lemma_unescaped_escaped(file_name);
    lemma_stream_decoded_encoded(stream_name);
    if stream.len() == 0 {
        assert(stream_decoded(stream) =~= Seq::<char>::empty());
    }
}

/// The file and the stream that the name of a file of streams stands for.
pub fn ads_sidecar_to_stream(name: &str) -> (parts: Option<(String, String)>)
    ensures
        match parts {
            Some((file, stream)) => sidecar_parts(name@) == Some((file@, stream@)),
            None => sidecar_parts(name@) is None,
        },
{
    let chars: Vec<char> = chars_of(name);
    let separator: Vec<char> = chars_of("__");
    proof {
        reveal_strlit("__");
    }
    match find_part(&chars, &separator, 0) {
        None => {
            proof {
                lemma_first_separator(name@, 0, name@.len() as int);
            }
            None
        },
        Some(at) => {
            proof {
                lemma_first_separator(name@, 0, at as int);
            }
            if chars.len() - at <= 2 {
                return None;
            }
            let mut base: Vec<char> = chars_of(name);
            base.truncate(at);
            let mut stream: Vec<char> = Vec::new();
            let mut i: usize = at + 2;
            while i < chars.len()
                invariant
                    at + 2 <= i <= chars.len(),
                    chars@ == name@,
                    stream@ == chars@.subrange(at + 2, i as int),
                decreases chars.len() - i,
            {
                stream.push(chars[i]);
                assert(stream@ =~= chars@.subrange(at + 2, i + 1));
                i += 1;
            }
            assert(base@ =~= name@.take(at as int));
            assert(stream@ =~= name@.skip(at + 2));
            Some(
                (
                    unescape_sidecar_component(&string_of(&base)),
                    decode_stream_name_from_sidecar(&string_of(&stream)),
                ),
            )
        },
    }
}

/// A character that is written by its number in hexadecimal is written by its
/// own number, behind a percent sign or, in the escapes, an underscore; every
/// other character stands for itself.
pub proof fn lemma_written_by_number(c: char)
    ensures
        percent_char(c).len() == 3 ==> percent_char(c)[0] == '%' && hex_pair(
            percent_char(c)[1],
            percent_char(c)[2],
        ) == Some(c as int),
        percent_char(c).len() == 3 <==> c == '%' || c == '/' || c == '\\' || c == ':' || c == '\0',
        percent_char(c).len() != 3 ==> percent_char(c) == seq![c],
        escaped_char(c).len() == 3 ==> escaped_char(c)[0] == '_' && hex_pair(
            escaped_char(c)[1],
            escaped_char(c)[2],
        ) == Some(c as int),
        escaped_char(c).len() == 3 <==> c == '_' || c == '%',
        escaped_char(c).len() != 3 ==> escaped_char(c) == seq![c],
{
}

/// Two hexadecimal digits write a number below 256, the first counting
/// sixteens; small and large letters count alike.
pub proof fn lemma_hex_pair(high: int, low: int)
    requires
        0 <= high < 16,
        0 <= low < 16,
    ensures
        hex_value(hex_char(low)) == Some(low),
        hex_pair(hex_char(high), hex_char(low)) == Some(16 * high + low),
        hex_value(upper_char(hex_char(low))) == Some(low),
        hex_pair('+', hex_char(low)) == Some(low),
{
}

} // verus!
