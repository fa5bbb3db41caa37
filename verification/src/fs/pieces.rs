//! The pieces of a path between its separators.
use crate::text::{chars_of, push_text, same_text, string_of};
use vstd::prelude::*;

verus! {

/// A separator of a path.
pub open spec fn separator(c: char) -> bool {
    c == '/' || c == '\\'
}

/// The pieces between the separators, without empty ones.
pub open spec fn pieces(text: Seq<char>) -> Seq<Seq<char>>
    decreases text.len(),
{
    if text.len() == 0 {
        Seq::empty()
    } else {
        let front = pieces(text.drop_last());
        if separator(text.last()) {
            front
        } else if text.len() == 1 || separator(text[text.len() - 2]) {
            front.push(seq![text.last()])
        } else {
            front.drop_last().push(front.last().push(text.last()))
        }
    }
}

/// The first `count` pieces, without those that are `.`; one that is `..`
/// takes the one before it away.
pub open spec fn kept(parts: Seq<Seq<char>>, count: int) -> Seq<Seq<char>>
    decreases count,
{
    if count <= 0 {
        Seq::empty()
    } else {
        let before = kept(parts, count - 1);
        if parts[count - 1] == "."@ {
            before
        } else if parts[count - 1] == ".."@ {
            if before.len() > 0 {
                before.drop_last()
            } else {
                before
            }
        } else {
            before.push(parts[count - 1])
        }
    }
}

/// The pieces with backslashes between them.
pub open spec fn rejoined(parts: Seq<Seq<char>>) -> Seq<char>
    decreases parts.len(),
{
    if parts.len() == 0 {
        Seq::empty()
    } else if parts.len() == 1 {
        parts[0]
    } else {
        rejoined(parts.drop_last()).push('\\') + parts.last()
    }
}

/// The path with one backslash between its pieces, and without `.` and `..`.
pub open spec fn normalized_path(path: Seq<char>) -> Seq<char> {
    rejoined(kept(pieces(path), pieces(path).len() as int))
}

/// A piece is not empty and holds no separator.
pub open spec fn whole_piece(part: Seq<char>) -> bool {
    part.len() > 0 && forall|i: int| 0 <= i < part.len() ==> !separator(#[trigger] part[i])
}

/// A piece that stays: it is whole, and neither `.` nor `..`.
pub open spec fn clean_piece(part: Seq<char>) -> bool {
    whole_piece(part) && part != "."@ && part != ".."@
}

/// All the pieces are whole.
pub open spec fn all_whole(parts: Seq<Seq<char>>) -> bool {
    forall|i: int| 0 <= i < parts.len() ==> whole_piece(#[trigger] parts[i])
}

/// All the pieces stay.
pub open spec fn all_clean(parts: Seq<Seq<char>>) -> bool {
    forall|i: int| 0 <= i < parts.len() ==> clean_piece(#[trigger] parts[i])
}

/// The pieces of a path are whole.
pub proof fn lemma_pieces_whole(text: Seq<char>)
    ensures
        all_whole(pieces(text)),
        text.len() > 0 && !separator(text.last()) ==> pieces(text).len() > 0,
    decreases text.len(),
{
    if text.len() > 0 {
        lemma_pieces_whole(text.drop_last());
        let front = pieces(text.drop_last());
        let c = text.last();
        if !separator(c) {
            if text.len() == 1 || separator(text[text.len() - 2]) {
                assert(whole_piece(seq![c]));
            } else {
                let longer = front.last().push(c);
                assert(whole_piece(front.last()));
                assert(whole_piece(longer)) by {
                    assert forall|i: int| 0 <= i < longer.len() implies !separator(
                        #[trigger] longer[i],
                    ) by {
                        if i < front.last().len() {
                            assert(!separator(front.last()[i]));
                        }
                    }
                }
                assert forall|i: int| 0 <= i < pieces(text).len() implies whole_piece(
                    #[trigger] pieces(text)[i],
                ) by {
                    if i < front.len() - 1 {
                        assert(whole_piece(front[i]));
                    }
                }
            }
        }
    }
}

/// What stays of whole pieces is clean.
pub proof fn lemma_kept_clean(parts: Seq<Seq<char>>, count: int)
    requires
        all_whole(parts),
        0 <= count <= parts.len(),
    ensures
        all_clean(kept(parts, count)),
    decreases count,
{
    if count > 0 {
        lemma_kept_clean(parts, count - 1);
        assert(whole_piece(parts[count - 1]));
    }
}

/// Of clean pieces all stay.
pub proof fn lemma_clean_kept(parts: Seq<Seq<char>>, count: int)
    requires
        all_clean(parts),
        0 <= count <= parts.len(),
    ensures
        kept(parts, count) == parts.take(count),
    decreases count,
{
    if count > 0 {
        lemma_clean_kept(parts, count - 1);
        assert(clean_piece(parts[count - 1]));
        assert(parts.take(count) =~= parts.take(count - 1).push(parts[count - 1]));
    } else {
        assert(parts.take(0) =~= Seq::<Seq<char>>::empty());
    }
}

/// A whole piece behind a separator is a piece of its own.
proof fn lemma_one_more_piece(front: Seq<char>, part: Seq<char>, count: int)
    requires
        whole_piece(part),
        1 <= count <= part.len(),
    ensures
        pieces(front.push('\\') + part.take(count)) == pieces(front).push(part.take(count)),
    decreases count,
{
    let text = front.push('\\') + part.take(count);
    let c = part[count - 1];
    assert(!separator(c));
    assert(text.last() == c);
    if count == 1 {
        assert(text.drop_last() =~= front.push('\\'));
        assert(front.push('\\').drop_last() =~= front);
        assert(pieces(front.push('\\')) == pieces(front));
        assert(part.take(1) =~= seq![c]);
        assert(text[text.len() - 2] == '\\');
    } else {
        lemma_one_more_piece(front, part, count - 1);
        assert(text.drop_last() =~= front.push('\\') + part.take(count - 1));
        assert(text[text.len() - 2] == part[count - 2]);
        let before = pieces(front).push(part.take(count - 1));
        assert(before.drop_last() =~= pieces(front));
        assert(part.take(count - 1).push(c) =~= part.take(count));
    }
}

proof fn lemma_first_piece(part: Seq<char>, count: int)
    requires
        whole_piece(part),
        1 <= count <= part.len(),
    ensures
        pieces(part.take(count)) == seq![part.take(count)],
    decreases count,
{
    let text = part.take(count);
    let c = part[count - 1];
    assert(!separator(c));
    if count == 1 {
        assert(pieces(text.drop_last()) =~= Seq::<Seq<char>>::empty());
        assert(text =~= seq![c]);
        assert(pieces(text) =~= seq![text]);
    } else {
        lemma_first_piece(part, count - 1);
        assert(text.drop_last() =~= part.take(count - 1));
        assert(!separator(part[count - 2]));
        assert(part.take(count - 1).push(c) =~= text);
        assert(pieces(text) =~= seq![text]);
    }
}

/// Whole pieces that were joined come apart again.
pub proof fn lemma_rejoined_pieces(parts: Seq<Seq<char>>)
    requires
        all_whole(parts),
    ensures
        pieces(rejoined(parts)) == parts,
    decreases parts.len(),
{
    if parts.len() == 0 {
        assert(pieces(rejoined(parts)) =~= parts);
    } else {
        let last = parts.last();
        assert(whole_piece(last));
        assert(last.take(last.len() as int) =~= last);
        if parts.len() == 1 {
            lemma_first_piece(last, last.len() as int);
            assert(parts =~= seq![last]);
        } else {
            let front = parts.drop_last();
            assert(all_whole(front));
            lemma_rejoined_pieces(front);
            lemma_one_more_piece(rejoined(front), last, last.len() as int);
            assert(front.push(last) =~= parts);
        }
    }
}

/// The pieces of a normalized path are clean, and normalizing it again changes
/// nothing.
pub proof fn lemma_normalized_path(path: Seq<char>)
    ensures
        all_clean(pieces(normalized_path(path))),
        normalized_path(normalized_path(path)) == normalized_path(path),
{
    let parts = pieces(path);
    let stay = kept(parts, parts.len() as int);
    lemma_pieces_whole(path);
    lemma_kept_clean(parts, parts.len() as int);
    assert(all_whole(stay));
    lemma_rejoined_pieces(stay);
    lemma_clean_kept(stay, stay.len() as int);
    assert(stay.take(stay.len() as int) =~= stay);
}

/// The pieces of the rest of a path are the last pieces of the path, but for
/// the first of them, which can be the rest of a piece.
pub proof fn lemma_pieces_of_rest(text: Seq<char>, start: int)
    requires
        0 <= start <= text.len(),
    ensures
        all_whole(pieces(text.skip(start))),
        pieces(text.skip(start)).len() <= pieces(text).len(),
        forall|i: int|
            1 <= i < pieces(text.skip(start)).len() ==> #[trigger] pieces(text.skip(start))[i]
                == pieces(text)[pieces(text).len() - pieces(text.skip(start)).len() + i],
        start == 0 ==> pieces(text.skip(start)) == pieces(text),
    decreases text.len(),
{
    let rest = text.skip(start);
    lemma_pieces_whole(rest);
    lemma_pieces_whole(text);
    if start == 0 {
        assert(rest =~= text);
    } else if start < text.len() {
        let shorter = text.drop_last();
        assert(rest.drop_last() =~= shorter.skip(start));
        lemma_pieces_of_rest(shorter, start);
        lemma_pieces_whole(shorter);
        lemma_pieces_whole(rest.drop_last());
        assert(rest.last() == text.last());
        if rest.len() > 1 {
            assert(rest[rest.len() - 2] == text[text.len() - 2]);
        }
    }
}

/// A text that is cut beside a separator has the pieces of both parts.
pub proof fn lemma_pieces_apart(text: Seq<char>, at: int)
    requires
        0 <= at <= text.len(),
        at == 0 || at == text.len() || separator(text[at]) || separator(text[at - 1]),
    ensures
        pieces(text) == pieces(text.take(at)) + pieces(text.skip(at)),
    decreases text.len(),
{
    let head = text.take(at);
    let rest = text.skip(at);
    if at == text.len() {
        assert(head =~= text);
        assert(pieces(rest) =~= Seq::<Seq<char>>::empty());
        assert(pieces(head) + pieces(rest) =~= pieces(text));
    } else if at == 0 {
        assert(rest =~= text);
        assert(pieces(head) =~= Seq::<Seq<char>>::empty());
        assert(pieces(head) + pieces(rest) =~= pieces(text));
    } else {
        let shorter = text.drop_last();
        lemma_pieces_apart(shorter, at);
        assert(shorter.take(at) =~= head);
        assert(shorter.skip(at) =~= rest.drop_last());
        lemma_pieces_whole(rest.drop_last());
        assert(rest.last() == text.last());
        if rest.len() > 1 {
            assert(rest[rest.len() - 2] == text[text.len() - 2]);
        } else {
            assert(pieces(rest.drop_last()) =~= Seq::<Seq<char>>::empty());
        }
        assert(pieces(text) =~= pieces(head) + pieces(rest));
    }
}

/// What was joined begins with the first piece.
pub proof fn lemma_rejoined_front(parts: Seq<Seq<char>>)
    requires
        parts.len() > 0,
    ensures
        rejoined(parts) == (if parts.len() == 1 {
            parts[0]
        } else {
            parts[0].push('\\') + rejoined(parts.drop_first())
        }),
    decreases parts.len(),
{
    if parts.len() > 1 {
        let front = parts.drop_last();
        let back = parts.drop_first();
        lemma_rejoined_front(front);
        if parts.len() > 2 {
            assert(front.drop_first() =~= back.drop_last());
        }
        assert(rejoined(parts) =~= parts[0].push('\\') + rejoined(back));
    }
}

/// The pieces between the separators, without empty ones.
pub fn split_pieces(text: &str) -> (list: Vec<String>)
    ensures
        list.deep_view() == pieces(text@),
{
    let chars: Vec<char> = chars_of(text);
    let mut list: Vec<String> = Vec::new();
    let mut current: Vec<char> = Vec::new();
    let mut i: usize = 0;
    proof {
        assert(chars@.take(0) =~= Seq::<char>::empty());
        assert(list.deep_view() =~= Seq::<Seq<char>>::empty());
    }
    while i < chars.len()
        invariant
            i <= chars.len(),
            current.len() > 0 <==> i > 0 && !separator(chars@[i - 1]),
            pieces(chars@.take(i as int)) == (if current.len() > 0 {
                list.deep_view().push(current@)
            } else {
                list.deep_view()
            }),
        decreases chars.len() - i,
    {
        let c: char = chars[i];
        proof {
            let longer = chars@.take(i + 1);
            assert(longer.drop_last() =~= chars@.take(i as int));
            assert(longer.last() == c);
            if i > 0 {
                assert(longer[longer.len() - 2] == chars@[i - 1]);
            }
        }
        if c == '/' || c == '\\' {
            if current.len() > 0 {
                let ghost before = list.deep_view();
                list.push(string_of(&current));
                assert(list.deep_view() =~= before.push(current@));
                current = Vec::new();
            }
        } else {
            let ghost before = current@;
            current.push(c);
            proof {
                let finished = list.deep_view();
                if before.len() > 0 {
                    assert(finished.push(before).drop_last() =~= finished);
                } else {
                    assert(current@ =~= seq![c]);
                }
            }
        }
        i += 1;
    }
    assert(chars@.take(i as int) =~= chars@);
    if current.len() > 0 {
        let ghost before = list.deep_view();
        list.push(string_of(&current));
        assert(list.deep_view() =~= before.push(current@));
    }
    list
}

fn keep_pieces(parts: &Vec<String>) -> (list: Vec<String>)
    ensures
        list.deep_view() == kept(parts.deep_view(), parts.len() as int),
{
    let ghost all = parts.deep_view();
    let mut list: Vec<String> = Vec::new();
    let mut i: usize = 0;
    assert(list.deep_view() =~= Seq::<Seq<char>>::empty());
    while i < parts.len()
        invariant
            i <= parts.len(),
            all == parts.deep_view(),
            list.deep_view() == kept(all, i as int),
        decreases parts.len() - i,
    {
        assert(all[i as int] == parts@[i as int]@);
        let ghost before = list.deep_view();
        if same_text(&parts[i], ".") {
        } else if same_text(&parts[i], "..") {
            if list.len() > 0 {
                list.pop();
                assert(list.deep_view() =~= before.drop_last());
            }
        } else {
            list.push(parts[i].clone());
            assert(list.deep_view() =~= before.push(parts@[i as int]@));
        }
        i += 1;
    }
    list
}

fn join_pieces(parts: &Vec<String>) -> (text: String)
    ensures
        text@ == rejoined(parts.deep_view()),
{
    let ghost all = parts.deep_view();
    if parts.len() == 0 {
        return String::new();
    }
    let mut text: String = parts[0].clone();
    let mut i: usize = 1;
    assert(all.take(1)[0] == parts@[0]@);
    while i < parts.len()
        invariant
            1 <= i <= parts.len(),
            all == parts.deep_view(),
            text@ == rejoined(all.take(i as int)),
        decreases parts.len() - i,
    {
        let ghost before = text@;
        push_text(&mut text, "\\");
        push_text(&mut text, &parts[i]);
        proof {
            reveal_strlit("\\");
            assert(all.take(i + 1).drop_last() =~= all.take(i as int));
            assert(all.take(i + 1).last() == parts@[i as int]@);
            assert(text@ =~= before.push('\\') + parts@[i as int]@);
        }
        i += 1;
    }
    assert(all.take(i as int) =~= all);
    text
}

/// The path with one backslash between its pieces, and without `.` and `..`.
pub fn normalize_windows_path(path: &str) -> (normal: String)
    ensures
        normal@ == normalized_path(path@),
{
    let parts: Vec<String> = split_pieces(path);
    let stay: Vec<String> = keep_pieces(&parts);
    join_pieces(&stay)
}

/// Going into a directory and up again leads back, a dot stays where it is, and
/// above the top there is nothing to go up to.
pub proof fn lemma_up_and_down(parts: Seq<Seq<char>>, name: Seq<char>)
    requires
        clean_piece(name),
    ensures
        ({
            let here = kept(parts, parts.len() as int);
            let inner = parts.push(name);
            let back = inner.push(".."@);
            let stay = parts.push("."@);
            let up = parts.push(".."@);
            &&& kept(inner, inner.len() as int) == here.push(name)
            &&& kept(back, back.len() as int) == here
            &&& kept(stay, stay.len() as int) == here
            &&& here.len() == 0 ==> kept(up, up.len() as int) == here
            &&& here.len() > 0 ==> kept(up, up.len() as int) == here.drop_last()
        }),
{
    reveal_strlit(".");
    reveal_strlit("..");
    let n = parts.len() as int;
    let inner = parts.push(name);
    let back = inner.push(".."@);
    let stay = parts.push("."@);
    let up = parts.push(".."@);
    assert("."@.len() == 1 && ".."@.len() == 2);
    lemma_kept_prefix(inner, parts, n);
    lemma_kept_prefix(back, inner, n + 1);
    lemma_kept_prefix(stay, parts, n);
    lemma_kept_prefix(up, parts, n);
    let here = kept(parts, n);
    assert(here.push(name).drop_last() =~= here);
}

proof fn lemma_kept_prefix(longer: Seq<Seq<char>>, shorter: Seq<Seq<char>>, count: int)
    requires
        0 <= count <= shorter.len() <= longer.len(),
        forall|i: int| 0 <= i < shorter.len() ==> longer[i] == #[trigger] shorter[i],
    ensures
        kept(longer, count) == kept(shorter, count),
    decreases count,
{
    if count > 0 {
        lemma_kept_prefix(longer, shorter, count - 1);
        assert(longer[count - 1] == shorter[count - 1]);
    }
}

} // verus!
