//! Print jobs as PDF documents.
use crate::text::{
    chars_of, decimal, hex_char, hex_digit_value, push_decimal, push_hex_digit, push_text,
    push_wide_decimal,
};
use vstd::prelude::*;
use vstd::utf8::encode_utf8;

verus! {

// ---------------------------------------------------------------------------
// The objects of a document
// ---------------------------------------------------------------------------

/// A character of a PDF string: backslashes and brackets have a backslash
/// before them.
pub open spec fn escaped_char(c: char) -> Seq<char> {
    if c == '\\' || c == '(' || c == ')' {
        seq!['\\', c]
    } else {
        seq![c]
    }
}

/// A text as it stands in a PDF string.
pub open spec fn escaped(text: Seq<char>) -> Seq<char>
    decreases text.len(),
{
    if text.len() == 0 {
        Seq::empty()
    } else {
        escaped(text.drop_last()) + escaped_char(text.last())
    }
}

fn escape(text: &str) -> (result: String)
    ensures
        result@ == escaped(text@),
{
    let chars: Vec<char> = chars_of(text);
    let mut result = String::new();
    let mut i: usize = 0;
    assert(chars@.take(0) =~= Seq::<char>::empty());
    while i < chars.len()
        invariant
            i <= chars@.len(),
            chars@ == text@,
            result@ == escaped(chars@.take(i as int)),
        decreases chars@.len() - i,
    {
        let c: char = chars[i];
        let ghost before = result@;
        if c == '\\' || c == '(' || c == ')' {
            result.push('\\');
        }
        result.push(c);
        proof {
            assert(chars@.take(i + 1).drop_last() =~= chars@.take(i as int));
            assert(result@ =~= before + escaped_char(c));
        }
        i += 1;
    }
    assert(chars@.take(i as int) =~= text@);
    result
}

/// Bytes in hexadecimal, two digits each.
pub open spec fn hex_bytes(bytes: Seq<u8>) -> Seq<char>
    decreases bytes.len(),
{
    if bytes.len() == 0 {
        Seq::empty()
    } else {
        hex_bytes(bytes.drop_last()) + seq![
            hex_char(bytes.last() as int / 16),
            hex_char(bytes.last() as int % 16),
        ]
    }
}

fn hex_of(bytes: &[u8]) -> (text: String)
    ensures
        text@ == hex_bytes(bytes@),
{
    let mut text = String::new();
    let mut i: usize = 0;
    assert(bytes@.take(0) =~= Seq::<u8>::empty());
    while i < bytes.len()
        invariant
            i <= bytes@.len(),
            text@ == hex_bytes(bytes@.take(i as int)),
        decreases bytes@.len() - i,
    {
        let ghost before = text@;
        push_hex_digit(&mut text, bytes[i] / 16);
        push_hex_digit(&mut text, bytes[i] % 16);
        proof {
            let byte = bytes@[i as int];
            assert(bytes@.take(i + 1).drop_last() =~= bytes@.take(i as int));
            assert(text@ =~= before + seq![hex_char(byte as int / 16), hex_char(byte as int % 16)]);
        }
        i += 1;
    }
    assert(bytes@.take(i as int) =~= bytes@);
    text
}

/// The number of pages of a document: at least one.
pub open spec fn pages_of(page_count: u32) -> nat {
    if page_count == 0 {
        1
    } else {
        page_count as nat
    }
}

/// The number of the object that is page `page`, counted from 0.
pub open spec fn page_number(page: int) -> nat {
    (3 + 2 * page) as nat
}

/// The number of the object that holds what page `page` shows.
pub open spec fn content_number(page: int) -> nat {
    (4 + 2 * page) as nat
}

/// The number of the object that is the font of page `page`.
pub open spec fn font_number(pages: nat, page: int) -> nat {
    (3 + 2 * pages + page) as nat
}

pub open spec fn catalog_text() -> Seq<char> {
    "<< /Type /Catalog /Pages 2 0 R >>"@
}

pub open spec fn font_text() -> Seq<char> {
    "<< /Type /Font /Subtype /Type1 /BaseFont /Helvetica >>"@
}

/// References to the first `count` pages, with a space between two of them.
pub open spec fn page_references(count: nat) -> Seq<char>
    decreases count,
{
    if count == 0 {
        Seq::empty()
    } else {
        page_references((count - 1) as nat) + (if count == 1 {
            Seq::empty()
        } else {
            " "@
        }) + decimal(page_number(count - 1)) + " 0 R"@
    }
}

/// The node that lists the pages.
pub open spec fn page_tree_text(pages: nat) -> Seq<char> {
    "<< /Type /Pages /Kids ["@ + page_references(pages) + "] /Count "@ + decimal(pages) + " >>"@
}

/// A page: its size, what it shows and its font.
pub open spec fn page_text(pages: nat, page: int) -> Seq<char> {
    "<< /Type /Page /Parent 2 0 R /MediaBox [0 0 612 792] /Contents "@ + decimal(
        content_number(page),
    ) + " 0 R /Resources << /Font << /F1 "@ + decimal(font_number(pages, page))
        + " 0 R >> >> >>"@
}

/// The line of a page that holds the spooled bytes.
pub open spec fn spool_line(spool: Seq<u8>) -> Seq<char> {
    if spool.len() == 0 {
        Seq::empty()
    } else {
        "BT /F1 8 Tf 100 650 Td (Spool data: "@ + hex_bytes(spool) + ") Tj ET"@
    }
}

/// The length that the content of a page is declared with. `title` is the name
/// of the document as it stands in a PDF string.
pub open spec fn declared_length(title: Seq<char>, spool: Seq<u8>, pages: nat) -> nat {
    let base = encode_utf8(title).len();
    if pages == 1 {
        120 + base + if spool.len() == 0 {
            0nat
        } else {
            2 * spool.len() + 50
        }
    } else {
        80 + base
    }
}

/// What a page shows: the name of the document and the page's number. The only
/// page of a document shows the spooled bytes too.
pub open spec fn content_text(title: Seq<char>, spool: Seq<u8>, pages: nat, page: int) -> Seq<char> {
    let head = "<< /Length "@ + decimal(declared_length(title, spool, pages)) + " >> stream\n"@
        + "BT /F1 12 Tf 100 700 Td (Printed from Casa1 - "@ + title + ") Tj ET\n"@
        + "BT /F1 10 Tf 100 680 Td (Page "@ + decimal((page + 1) as nat);
    if pages == 1 {
        head + ") Tj ET\n"@ + spool_line(spool) + "\nendstream"@
    } else {
        head + " of "@ + decimal(pages) + ") Tj ET\n"@ + "endstream"@
    }
}

/// The objects of a document before its pages.
pub open spec fn opening_objects(pages: nat) -> Seq<Seq<char>> {
    seq![catalog_text(), page_tree_text(pages)]
}

/// The first `count` pages, each with what it shows behind it.
pub open spec fn page_objects(title: Seq<char>, spool: Seq<u8>, pages: nat, count: nat) -> Seq<
    Seq<char>,
>
    decreases count,
{
    if count == 0 {
        Seq::empty()
    } else {
        page_objects(title, spool, pages, (count - 1) as nat) + seq![
            page_text(pages, count - 1),
            content_text(title, spool, pages, count - 1),
        ]
    }
}

/// The objects of a document: the catalog, the list of pages, the pages with
/// what they show, and a font for each page.
pub open spec fn document_objects(name: Seq<char>, spool: Seq<u8>, pages: nat) -> Seq<Seq<char>> {
    opening_objects(pages) + page_objects(escaped(name), spool, pages, pages) + Seq::new(
        pages,
        |page: int| font_text(),
    )
}

proof fn lemma_page_objects(title: Seq<char>, spool: Seq<u8>, pages: nat, count: nat)
    ensures
        page_objects(title, spool, pages, count).len() == 2 * count,
        forall|page: int|
            0 <= page < count ==> #[trigger] page_objects(title, spool, pages, count)[2 * page]
                == page_text(pages, page),
        forall|page: int|
            0 <= page < count ==> #[trigger] page_objects(title, spool, pages, count)[2 * page + 1]
                == content_text(title, spool, pages, page),
    decreases count,
{
    if count > 0 {
        let fewer = (count - 1) as nat;
        lemma_page_objects(title, spool, pages, fewer);
        let front = page_objects(title, spool, pages, fewer);
        let all = page_objects(title, spool, pages, count);
        assert forall|page: int| 0 <= page < count implies #[trigger] all[2 * page] == page_text(
            pages,
            page,
        ) by {
            if page < fewer {
                assert(all[2 * page] == front[2 * page]);
            }
        }
        assert forall|page: int| 0 <= page < count implies #[trigger] all[2 * page + 1]
            == content_text(title, spool, pages, page) by {
            if page < fewer {
                assert(all[2 * page + 1] == front[2 * page + 1]);
            }
        }
    }
}

/// The numbers in a document lead where they should: the catalog is object 1
/// and names object 2, the list of pages; each page, what it shows and its
/// font stand under the numbers by which they are referred to. (The object
/// with number `n` is the `n - 1`th of the list.)
pub proof fn lemma_references_lead_right(name: Seq<char>, spool: Seq<u8>, pages: nat, page: int)
    requires
        0 <= page < pages,
    ensures
        ({
            let objects = document_objects(name, spool, pages);
            &&& objects.len() == 2 + 3 * pages
            &&& objects[0] == catalog_text()
            &&& objects[1] == page_tree_text(pages)
            &&& objects[page_number(page) - 1] == page_text(pages, page)
            &&& objects[content_number(page) - 1] == content_text(
                escaped(name),
                spool,
                pages,
                page,
            )
            &&& objects[font_number(pages, page) - 1] == font_text()
        }),
{
    lemma_page_objects(escaped(name), spool, pages, pages);
    let inner = page_objects(escaped(name), spool, pages, pages);
    let objects = document_objects(name, spool, pages);
    assert(objects[page_number(page) - 1] == inner[2 * page]);
    assert(objects[content_number(page) - 1] == inner[2 * page + 1]);
}

fn page_tree(pages: u64) -> (text: String)
    requires
        pages <= u32::MAX,
    ensures
        text@ == page_tree_text(pages as nat),
{
    let mut text = "<< /Type /Pages /Kids [".to_owned();
    let ghost start = text@;
    let mut page: u64 = 0;
    assert(text@ =~= start + page_references(0));
    while page < pages
        invariant
            page <= pages,
            pages <= u32::MAX,
            text@ == start + page_references(page as nat),
        decreases pages - page,
    {
        let ghost before = text@;
        if page > 0 {
            push_text(&mut text, " ");
        }
        push_decimal(&mut text, 3 + 2 * page);
        push_text(&mut text, " 0 R");
        assert(text@ =~= start + page_references((page + 1) as nat));
        page += 1;
    }
    push_text(&mut text, "] /Count ");
    push_decimal(&mut text, pages);
    push_text(&mut text, " >>");
    assert(text@ =~= page_tree_text(pages as nat));
    text
}

fn page_object(pages: u64, page: u64) -> (text: String)
    requires
        page < pages <= u32::MAX,
    ensures
        text@ == page_text(pages as nat, page as int),
{
    let mut text = "<< /Type /Page /Parent 2 0 R /MediaBox [0 0 612 792] /Contents ".to_owned();
    push_decimal(&mut text, 4 + 2 * page);
    push_text(&mut text, " 0 R /Resources << /Font << /F1 ");
    push_decimal(&mut text, 3 + 2 * pages + page);
    push_text(&mut text, " 0 R >> >> >>");
    assert(text@ =~= page_text(pages as nat, page as int));
    text
}

fn content_object(title: &str, spool: &[u8], pages: u64, page: u64) -> (text: String)
    requires
        page < pages <= u32::MAX,
    ensures
        text@ == content_text(title@, spool@, pages as nat, page as int),
{
    let base: u128 = title.as_bytes().len() as u128;
    let spooled: u128 = spool.len() as u128;
    let length: u128 = if pages == 1 {
        120 + base + if spooled == 0 {
            0
        } else {
            2 * spooled + 50
        }
    } else {
        80 + base
    };
    let mut text = "<< /Length ".to_owned();
    push_wide_decimal(&mut text, length);
    push_text(&mut text, " >> stream\n");
    push_text(&mut text, "BT /F1 12 Tf 100 700 Td (Printed from Casa1 - ");
    push_text(&mut text, title);
    push_text(&mut text, ") Tj ET\n");
    push_text(&mut text, "BT /F1 10 Tf 100 680 Td (Page ");
    push_decimal(&mut text, page + 1);
    if pages == 1 {
        push_text(&mut text, ") Tj ET\n");
        if spool.len() > 0 {
            push_text(&mut text, "BT /F1 8 Tf 100 650 Td (Spool data: ");
            push_text(&mut text, hex_of(spool).as_str());
            push_text(&mut text, ") Tj ET");
        }
        push_text(&mut text, "\nendstream");
    } else {
        push_text(&mut text, " of ");
        push_decimal(&mut text, pages);
        push_text(&mut text, ") Tj ET\n");
        push_text(&mut text, "endstream");
    }
    assert(text@ =~= content_text(title@, spool@, pages as nat, page as int));
    text
}

/// The objects of the document that a print job becomes.
pub fn build_pdf_objects(spool_data: &[u8], doc_name: &str, page_count: u32) -> (objects: Vec<
    String,
>)
    ensures
        objects.deep_view() == document_objects(doc_name@, spool_data@, pages_of(page_count)),
{
    let title = escape(doc_name);
    let pages: u64 = if page_count == 0 {
        1
    } else {
        page_count as u64
    };
    let mut objects: Vec<String> = Vec::new();
    objects.push("<< /Type /Catalog /Pages 2 0 R >>".to_owned());
    objects.push(page_tree(pages));
    let ghost opening = opening_objects(pages as nat);
    assert(objects.deep_view() =~= opening);
    let mut page: u64 = 0;
    assert(objects.deep_view() =~= opening + page_objects(title@, spool_data@, pages as nat, 0));
    while page < pages
        invariant
            page <= pages <= u32::MAX,
            opening == opening_objects(pages as nat),
            title@ == escaped(doc_name@),
            objects.deep_view() == opening + page_objects(
                title@,
                spool_data@,
                pages as nat,
                page as nat,
            ),
        decreases pages - page,
    {
        let ghost before = objects.deep_view();
        objects.push(page_object(pages, page));
        objects.push(content_object(title.as_str(), spool_data, pages, page));
        proof {
            assert(objects.deep_view() =~= before + seq![
                page_text(pages as nat, page as int),
                content_text(title@, spool_data@, pages as nat, page as int),
            ]);
            assert(objects.deep_view() =~= opening + page_objects(
                title@,
                spool_data@,
                pages as nat,
                (page + 1) as nat,
            ));
        }
        page += 1;
    }
    let ghost paged = objects.deep_view();
    let mut font: u64 = 0;
    assert(objects.deep_view() =~= paged + Seq::new(0nat, |page: int| font_text()));
    while font < pages
        invariant
            font <= pages <= u32::MAX,
            objects.deep_view() == paged + Seq::new(font as nat, |page: int| font_text()),
        decreases pages - font,
    {
        let ghost before = objects.deep_view();
        objects.push("<< /Type /Font /Subtype /Type1 /BaseFont /Helvetica >>".to_owned());
        proof {
            assert(objects.deep_view() =~= before.push(font_text()));
            assert(objects.deep_view() =~= paged + Seq::new(
                (font + 1) as nat,
                |page: int| font_text(),
            ));
        }
        font += 1;
    }
    assert(objects.deep_view() =~= document_objects(doc_name@, spool_data@, pages as nat));
    objects
}

// ---------------------------------------------------------------------------
// The file
// ---------------------------------------------------------------------------

/// An object as it stands in the file.
pub open spec fn object_text(number: nat, body: Seq<char>) -> Seq<char> {
    decimal(number) + " 0 obj\n"@ + body + "\nendobj\n"@
}

/// The file up to the end of its first `count` objects.
pub open spec fn front_part(objects: Seq<Seq<char>>, count: nat) -> Seq<u8>
    decreases count,
{
    if count == 0 {
        encode_utf8("%PDF-1.4\n"@)
    } else {
        front_part(objects, (count - 1) as nat) + encode_utf8(
            object_text(count, objects[count - 1]),
        )
    }
}

/// Where in the file the object with index `i` starts.
pub open spec fn offset_of(objects: Seq<Seq<char>>, i: int) -> nat {
    front_part(objects, i as nat).len()
}

/// A text with zeros before it, so that it has at least `width` characters.
pub open spec fn zero_padded(text: Seq<char>, width: nat) -> Seq<char> {
    if text.len() < width {
        Seq::new((width - text.len()) as nat, |i: int| '0') + text
    } else {
        text
    }
}

/// The table entries of the first `count` objects.
pub open spec fn table_entries(objects: Seq<Seq<char>>, count: nat) -> Seq<char>
    decreases count,
{
    if count == 0 {
        Seq::empty()
    } else {
        table_entries(objects, (count - 1) as nat) + zero_padded(
            decimal(offset_of(objects, count - 1)),
            10,
        ) + " 00000 n \n"@
    }
}

/// The file behind its objects: the table that says where each object starts,
/// and the trailer that says where the table starts.
pub open spec fn back_part(objects: Seq<Seq<char>>) -> Seq<char> {
    "xref\n0 "@ + decimal(objects.len() + 1) + "\n0000000000 65535 f \n"@ + table_entries(
        objects,
        objects.len(),
    ) + "trailer\n<< /Size "@ + decimal(objects.len() + 1) + " /Root 1 0 R >>\nstartxref\n"@
        + decimal(offset_of(objects, objects.len() as int)) + "\n%%EOF\n"@
}

/// The file that consists of the given objects.
pub open spec fn pdf_file(objects: Seq<Seq<char>>) -> Seq<u8> {
    front_part(objects, objects.len()) + encode_utf8(back_part(objects))
}

proof fn lemma_front_grows(objects: Seq<Seq<char>>, few: nat, many: nat)
    requires
        few <= many,
    ensures
        front_part(objects, few).len() <= front_part(objects, many).len(),
        front_part(objects, many).take(front_part(objects, few).len() as int) == front_part(
            objects,
            few,
        ),
    decreases many,
{
    let short = front_part(objects, few);
    let long = front_part(objects, many);
    if few == many {
        assert(long.take(short.len() as int) =~= short);
    } else {
        lemma_front_grows(objects, few, (many - 1) as nat);
        let middle = front_part(objects, (many - 1) as nat);
        assert(long.take(short.len() as int) =~= middle.take(short.len() as int));
    }
}

/// The table leads right: at the offset that it gives for an object, the
/// object stands in the file.
pub proof fn lemma_table_leads_right(objects: Seq<Seq<char>>, i: int)
    requires
        0 <= i < objects.len(),
    ensures
        offset_of(objects, i) <= offset_of(objects, i + 1) <= pdf_file(objects).len(),
        pdf_file(objects).subrange(
            offset_of(objects, i) as int,
            offset_of(objects, i + 1) as int,
        ) == encode_utf8(object_text((i + 1) as nat, objects[i])),
{
    let next = (i + 1) as nat;
    let file = pdf_file(objects);
    let front = front_part(objects, objects.len());
    lemma_front_grows(objects, next, objects.len());
    let upto = front_part(objects, next);
    let start = offset_of(objects, i) as int;
    let end = offset_of(objects, i + 1) as int;
    assert(file.take(end) =~= upto) by {
        assert(file.take(end) =~= front.take(end));
    }
    assert(upto == front_part(objects, i as nat) + encode_utf8(
        object_text((i + 1) as nat, objects[i]),
    ));
    assert(file.subrange(start, end) =~= file.take(end).subrange(start, end));
    assert(upto.subrange(start, end) =~= encode_utf8(object_text((i + 1) as nat, objects[i])));
}

/// The trailer leads right: the table stands at the offset that it gives.
pub proof fn lemma_trailer_leads_right(objects: Seq<Seq<char>>)
    ensures
        pdf_file(objects).skip(offset_of(objects, objects.len() as int) as int) == encode_utf8(
            back_part(objects),
        ),
{
    assert(pdf_file(objects).skip(offset_of(objects, objects.len() as int) as int) =~= encode_utf8(
        back_part(objects),
    ));
}

fn push_padded(text: &mut String, value: u64)
    ensures
        final(text)@ == old(text)@ + zero_padded(decimal(value as nat), 10),
{
    let mut digits = String::new();
    push_decimal(&mut digits, value);
    let ghost before = text@;
    let count: usize = chars_of(digits.as_str()).len();
    assert(digits@ =~= decimal(value as nat));
    let mut i: usize = count;
    while i < 10
        invariant
            count == digits@.len(),
            count <= i,
            i <= 10 || i == count,
            text@ == before + Seq::new((i - count) as nat, |k: int| '0'),
        decreases 10 - i,
    {
        text.push('0');
        assert(text@ =~= before + Seq::new((i + 1 - count) as nat, |k: int| '0'));
        i += 1;
    }
    push_text(text, digits.as_str());
    assert(text@ =~= before + zero_padded(decimal(value as nat), 10));
}

/// The document that a print job becomes: `page_count` pages, at least one,
/// each with the name of the document and its own number.
pub fn generate_pdf(spool_data: &[u8], doc_name: &str, page_count: u32) -> (pdf: Vec<u8>)
    ensures
        pdf@ == pdf_file(document_objects(doc_name@, spool_data@, pages_of(page_count))),
{
    let objects: Vec<String> = build_pdf_objects(spool_data, doc_name, page_count);
    let ghost texts = objects.deep_view();
    let mut pdf: Vec<u8> = Vec::new();
    pdf.extend_from_slice("%PDF-1.4\n".as_bytes());
    assert(pdf@ =~= front_part(texts, 0));
    let mut entries = String::new();
    assert(entries@ =~= table_entries(texts, 0));
    let mut i: usize = 0;
    while i < objects.len()
        invariant
            i <= objects@.len(),
            texts == objects.deep_view(),
            pdf@ == front_part(texts, i as nat),
            entries@ == table_entries(texts, i as nat),
        decreases objects@.len() - i,
    {
        push_padded(&mut entries, pdf.len() as u64);
        push_text(&mut entries, " 00000 n \n");
        let mut object = String::new();
        push_decimal(&mut object, i as u64 + 1);
        push_text(&mut object, " 0 obj\n");
        push_text(&mut object, objects[i].as_str());
        push_text(&mut object, "\nendobj\n");
        assert(object@ =~= object_text((i + 1) as nat, texts[i as int]));
        pdf.extend_from_slice(object.as_str().as_bytes());
        assert(pdf@ =~= front_part(texts, (i + 1) as nat));
        assert(entries@ =~= table_entries(texts, (i + 1) as nat));
        i += 1;
    }
    let table_offset: u64 = pdf.len() as u64;
    let count: u128 = objects.len() as u128 + 1;
    let mut back = "xref\n0 ".to_owned();
    push_wide_decimal(&mut back, count);
    push_text(&mut back, "\n0000000000 65535 f \n");
    push_text(&mut back, entries.as_str());
    push_text(&mut back, "trailer\n<< /Size ");
    push_wide_decimal(&mut back, count);
    push_text(&mut back, " /Root 1 0 R >>\nstartxref\n");
    push_decimal(&mut back, table_offset);
    push_text(&mut back, "\n%%EOF\n");
    assert(back@ =~= back_part(texts));
    pdf.extend_from_slice(back.as_str().as_bytes());
    assert(pdf@ =~= pdf_file(texts));
    pdf
}

/// The text that an escaped text stands for: a backslash gives way to the
/// character behind it.
pub open spec fn read_escaped(text: Seq<char>) -> Seq<char>
    decreases text.len(),
{
    if text.len() == 0 {
        Seq::empty()
    } else if text[0] == '\\' && text.len() > 1 {
        seq![text[1]] + read_escaped(text.skip(2))
    } else {
        seq![text[0]] + read_escaped(text.drop_first())
    }
}

/// An escaped text reads back; every parenthesis in it stands behind a
/// backslash of its own.
pub proof fn lemma_escaped_reads_back(text: Seq<char>)
    ensures
        read_escaped(escaped(text)) == text,
        forall|c: char| (c == '(' || c == ')' || c == '\\') ==> #[trigger] escaped_char(c) == seq![
            '\\',
            c,
        ],
        forall|c: char| !(c == '(' || c == ')' || c == '\\') ==> #[trigger] escaped_char(c) == seq![c],
{
    lemma_escaped_front(text, Seq::empty());
    assert(escaped(text) + Seq::<char>::empty() =~= escaped(text));
    assert(text + read_escaped(Seq::<char>::empty()) =~= text);
}

proof fn lemma_escaped_front(text: Seq<char>, rest: Seq<char>)
    ensures
        read_escaped(escaped(text) + rest) == text + read_escaped(rest),
    decreases text.len(),
{
    if text.len() > 0 {
        let front = text.drop_last();
        let c = text.last();
        let tail = escaped_char(c) + rest;
        lemma_escaped_front(front, tail);
        assert(escaped(text) + rest =~= escaped(front) + tail);
        if c == '(' || c == ')' || c == '\\' {
            assert(tail[0] == '\\' && tail[1] == c);
            assert(tail.skip(2) =~= rest);
        } else {
            assert(tail[0] == c);
            assert(tail.drop_first() =~= rest);
        }
        assert(read_escaped(tail) == seq![c] + read_escaped(rest));
        assert(front + (seq![c] + read_escaped(rest)) =~= text + read_escaped(rest));
    } else {
        assert(escaped(text) + rest =~= rest);
        assert(text + read_escaped(rest) =~= read_escaped(rest));
    }
}

/// A byte is written by two hexadecimal digits, the one that counts sixteens
/// first; the bytes follow each other.
pub proof fn lemma_hex_bytes(bytes: Seq<u8>, i: int)
    requires
        0 <= i < bytes.len(),
    ensures
        hex_bytes(bytes).len() == 2 * bytes.len(),
        16 * hex_digit_value(hex_bytes(bytes)[2 * i]) + hex_digit_value(hex_bytes(bytes)[2 * i + 1])
            == bytes[i],
    decreases bytes.len(),
{
    let front = bytes.drop_last();
    if bytes.len() > 1 {
        lemma_hex_bytes(front, 0);
    } else {
        assert(hex_bytes(front).len() == 0);
    }
    if i < front.len() {
        lemma_hex_bytes(front, i);
        assert(hex_bytes(bytes)[2 * i] == hex_bytes(front)[2 * i]);
        assert(hex_bytes(bytes)[2 * i + 1] == hex_bytes(front)[2 * i + 1]);
    } else {
        let value = bytes.last() as int;
        assert(hex_bytes(bytes)[2 * i] == hex_char(value / 16));
        assert(hex_bytes(bytes)[2 * i + 1] == hex_char(value % 16));
    }
}

/// A number filled up with zeros has at least the width and still ends in its
/// digits.
pub proof fn lemma_zero_padded(text: Seq<char>, width: nat)
    ensures
        zero_padded(text, width).len() == (if text.len() < width {
            width
        } else {
            text.len()
        }),
        zero_padded(text, width).skip(zero_padded(text, width).len() - text.len()) == text,
        forall|i: int|
            0 <= i < zero_padded(text, width).len() - text.len() ==> #[trigger] zero_padded(
                text,
                width,
            )[i] == '0',
{
    assert(zero_padded(text, width).skip(zero_padded(text, width).len() - text.len()) =~= text);
}

/// `part` stands in `whole` between `before` and `after`.
pub open spec fn stands_between(
    whole: Seq<char>,
    before: Seq<char>,
    part: Seq<char>,
    after: Seq<char>,
) -> bool {
    whole == before + part + after
}

/// `part` stands somewhere in `whole`.
pub open spec fn tells(whole: Seq<char>, part: Seq<char>) -> bool {
    exists|before: Seq<char>, after: Seq<char>| stands_between(whole, before, part, after)
}

proof fn lemma_tells(whole: Seq<char>, before: Seq<char>, part: Seq<char>, after: Seq<char>)
    requires
        whole == before + part + after,
    ensures
        tells(whole, part),
{
    assert(stands_between(whole, before, part, after));
}

/// The text by which an object is referred to under a key.
pub open spec fn reference(key: Seq<char>, number: nat) -> Seq<char> {
    key + decimal(number) + " 0 R"@
}

/// The page tree refers to the object of every page and counts them; the object
/// of a page refers to the tree, and to the objects of its own content and font.
pub proof fn lemma_pages_refer(name: Seq<char>, spool: Seq<u8>, pages: nat, page: int)
    requires
        0 <= page < pages,
    ensures
        ({
            let objects = document_objects(name, spool, pages);
            let own = page_number(page);
            &&& tells(objects[1], reference(Seq::empty(), own))
            &&& tells(objects[1], "/Count "@ + decimal(pages))
            &&& tells(objects[own - 1], "/Parent 2 0 R"@)
            &&& exists|content: nat, font: nat|
                {
                    &&& #[trigger] tells(objects[own - 1], reference("/Contents "@, content))
                    &&& #[trigger] tells(objects[own - 1], reference("/F1 "@, font))
                    &&& 0 < content <= objects.len()
                    &&& 0 < font <= objects.len()
                    &&& objects[content - 1] == content_text(escaped(name), spool, pages, page)
                    &&& objects[font - 1] == font_text()
                }
        }),
{
    lemma_references_lead_right(name, spool, pages, page);
    let objects = document_objects(name, spool, pages);
    lemma_page_tells(pages, page);
    lemma_tree_tells(pages, page);
    let content = content_number(page);
    let font = font_number(pages, page);
    assert(tells(objects[page_number(page) - 1], reference("/Contents "@, content)));
    assert(tells(objects[page_number(page) - 1], reference("/F1 "@, font)));
}

proof fn lemma_page_words()
    ensures
        "<< /Type /Page /Parent 2 0 R /MediaBox [0 0 612 792] /Contents "@ == "<< /Type /Page "@
            + "/Parent 2 0 R"@ + " /MediaBox [0 0 612 792] "@ + "/Contents "@,
        " 0 R /Resources << /Font << /F1 "@ == " 0 R"@ + " /Resources << /Font << "@ + "/F1 "@,
        " 0 R >> >> >>"@ == " 0 R"@ + " >> >> >>"@,
        "] /Count "@ == "] "@ + "/Count "@,
{
    assert("<< /Type /Page /Parent 2 0 R /MediaBox [0 0 612 792] /Contents "@ =~= "<< /Type /Page "@
        + "/Parent 2 0 R"@ + " /MediaBox [0 0 612 792] "@ + "/Contents "@) by {
        reveal_strlit("<< /Type /Page /Parent 2 0 R /MediaBox [0 0 612 792] /Contents ");
        reveal_strlit("<< /Type /Page ");
        reveal_strlit("/Parent 2 0 R");
        reveal_strlit(" /MediaBox [0 0 612 792] ");
        reveal_strlit("/Contents ");
    }
    reveal_strlit(" 0 R");
    assert(" 0 R /Resources << /Font << /F1 "@ =~= " 0 R"@ + " /Resources << /Font << "@ + "/F1 "@)
        by {
        reveal_strlit(" 0 R /Resources << /Font << /F1 ");
        reveal_strlit(" /Resources << /Font << ");
        reveal_strlit("/F1 ");
    }
    assert(" 0 R >> >> >>"@ =~= " 0 R"@ + " >> >> >>"@) by {
        reveal_strlit(" 0 R >> >> >>");
        reveal_strlit(" >> >> >>");
    }
    assert("] /Count "@ =~= "] "@ + "/Count "@) by {
        reveal_strlit("] /Count ");
        reveal_strlit("] ");
        reveal_strlit("/Count ");
    }
}

proof fn lemma_page_tells(pages: nat, page: int)
    ensures
        tells(page_text(pages, page), "/Parent 2 0 R"@),
        tells(page_text(pages, page), reference("/Contents "@, content_number(page))),
        tells(page_text(pages, page), reference("/F1 "@, font_number(pages, page))),
{
    lemma_page_words();
    let text = page_text(pages, page);
    let lead = "<< /Type /Page "@;
    let parent = "/Parent 2 0 R"@;
    let size = " /MediaBox [0 0 612 792] "@;
    let between = " /Resources << /Font << "@;
    let end = " >> >> >>"@;
    let contents = reference("/Contents "@, content_number(page));
    let fonts = reference("/F1 "@, font_number(pages, page));
    assert(text =~= lead + parent + (size + contents + between + fonts + end));
    lemma_tells(text, lead, parent, size + contents + between + fonts + end);
    assert(text =~= (lead + parent + size) + contents + (between + fonts + end));
    lemma_tells(text, lead + parent + size, contents, between + fonts + end);
    assert(text =~= (lead + parent + size + contents + between) + fonts + end);
    lemma_tells(text, lead + parent + size + contents + between, fonts, end);
}

proof fn lemma_tree_tells(pages: nat, page: int)
    requires
        0 <= page < pages,
    ensures
        tells(page_tree_text(pages), reference(Seq::empty(), page_number(page))),
        tells(page_tree_text(pages), "/Count "@ + decimal(pages)),
{
    lemma_page_words();
    let tree = page_tree_text(pages);
    let head = "<< /Type /Pages /Kids ["@;
    lemma_page_referred(pages, page);
    let refers = page_references(pages);
    let own = reference(Seq::empty(), page_number(page));
    let (before, after) = choose|before: Seq<char>, after: Seq<char>|
        stands_between(refers, before, own, after);
    let tail = "] /Count "@ + decimal(pages) + " >>"@;
    assert(tree =~= (head + before) + own + (after + tail));
    lemma_tells(tree, head + before, own, after + tail);
    let counted = "/Count "@ + decimal(pages);
    assert(tree =~= (head + refers + "] "@) + counted + " >>"@);
    lemma_tells(tree, head + refers + "] "@, counted, " >>"@);
}

proof fn lemma_page_referred(count: nat, page: int)
    requires
        0 <= page < count,
    ensures
        tells(page_references(count), reference(Seq::empty(), page_number(page))),
    decreases count,
{
    let fewer = page_references((count - 1) as nat);
    let gap = if count == 1 {
        Seq::empty()
    } else {
        " "@
    };
    let last = decimal(page_number(count - 1)) + " 0 R"@;
    let whole = page_references(count);
    let wanted = reference(Seq::empty(), page_number(page));
    assert(whole =~= fewer + gap + last);
    if page < count - 1 {
        lemma_page_referred((count - 1) as nat, page);
        let (before, after) = choose|before: Seq<char>, after: Seq<char>|
            stands_between(fewer, before, wanted, after);
        assert(whole =~= before + wanted + (after + gap + last));
        lemma_tells(whole, before, wanted, after + gap + last);
    } else {
        assert(wanted =~= last);
        assert(whole =~= (fewer + gap) + wanted + Seq::empty());
        lemma_tells(whole, fewer + gap, wanted, Seq::empty());
    }
}

/// Every page shows the name of the document and its own number, counted from
/// one; a single page shows the bytes of the spool, several tell how many they
/// are. The length that is declared grows as the name does.
pub proof fn lemma_page_shows(title: Seq<char>, spool: Seq<u8>, pages: nat, page: int)
    requires
        0 <= page < pages,
    ensures
        ({
            let text = content_text(title, spool, pages, page);
            &&& tells(text, "(Printed from Casa1 - "@ + title + ") Tj"@)
            &&& tells(text, "(Page "@ + decimal((page + 1) as nat))
            &&& pages == 1 && spool.len() > 0 ==> tells(
                text,
                "(Spool data: "@ + hex_bytes(spool) + ") Tj"@,
            )
            &&& pages > 1 ==> tells(text, " of "@ + decimal(pages) + ") Tj"@)
            &&& tells(text, "/Length "@ + decimal(declared_length(title, spool, pages)))
            &&& declared_length(title, spool, pages) == declared_length(Seq::empty(), spool, pages)
                + encode_utf8(title).len()
            &&& spool.len() > 0 ==> declared_length(title, spool, 1) == declared_length(
                title,
                Seq::empty(),
                1,
            ) + hex_bytes(spool).len() + 50
        }),
{
    reveal_strlit("<< /Length ");
    reveal_strlit("<< ");
    reveal_strlit("/Length ");
    reveal_strlit("BT /F1 12 Tf 100 700 Td (Printed from Casa1 - ");
    reveal_strlit("BT /F1 12 Tf 100 700 Td ");
    reveal_strlit("(Printed from Casa1 - ");
    reveal_strlit(") Tj ET\n");
    reveal_strlit(") Tj");
    reveal_strlit(" ET\n");
    reveal_strlit("BT /F1 10 Tf 100 680 Td (Page ");
    reveal_strlit("BT /F1 10 Tf 100 680 Td ");
    reveal_strlit("(Page ");
    reveal_strlit("BT /F1 8 Tf 100 650 Td (Spool data: ");
    reveal_strlit("BT /F1 8 Tf 100 650 Td ");
    reveal_strlit("(Spool data: ");
    reveal_strlit(") Tj ET");
    reveal_strlit(" ET");
    let text = content_text(title, spool, pages, page);
    let length = "/Length "@ + decimal(declared_length(title, spool, pages));
    let opening = " >> stream\n"@ + "BT /F1 12 Tf 100 700 Td "@;
    let printed = "(Printed from Casa1 - "@ + title + ") Tj"@;
    let middle = " ET\n"@ + "BT /F1 10 Tf 100 680 Td "@;
    let number = "(Page "@ + decimal((page + 1) as nat);
    let rest = if pages == 1 {
        ") Tj ET\n"@ + spool_line(spool) + "\nendstream"@
    } else {
        " of "@ + decimal(pages) + ") Tj ET\n"@ + "endstream"@
    };
    let front = "<< "@ + length + opening;
    assert(text =~= "<< "@ + length + (opening + printed + middle + number + rest));
    lemma_tells(text, "<< "@, length, opening + printed + middle + number + rest);
    assert(text =~= front + printed + (middle + number + rest));
    lemma_tells(text, front, printed, middle + number + rest);
    assert(text =~= (front + printed + middle) + number + rest);
    lemma_tells(text, front + printed + middle, number, rest);
    let all = front + printed + middle + number;
    if pages == 1 {
        if spool.len() > 0 {
            let shown = "(Spool data: "@ + hex_bytes(spool) + ") Tj"@;
            let before = all + ") Tj ET\n"@ + "BT /F1 8 Tf 100 650 Td "@;
            let after = " ET"@ + "\nendstream"@;
            assert(spool_line(spool) =~= "BT /F1 8 Tf 100 650 Td "@ + shown + " ET"@);
            assert(text =~= before + shown + after);
            lemma_tells(text, before, shown, after);
        }
    } else {
        let told = " of "@ + decimal(pages) + ") Tj"@;
        let after = " ET\n"@ + "endstream"@;
        assert(text =~= all + told + after);
        lemma_tells(text, all, told, after);
    }
    assert(encode_utf8(Seq::<char>::empty()).len() == 0);
    if spool.len() > 0 {
        lemma_hex_bytes(spool, 0);
    }
}

/// The entry of the table that tells, in ten digits, how many bytes stand before
/// object `i + 1`.
pub open spec fn table_entry(objects: Seq<Seq<char>>, i: nat) -> Seq<char> {
    zero_padded(decimal(front_part(objects, i).len()), 10) + " 00000 n \n"@
}

/// Entry `i` of the table stands behind the entries before it; behind the table
/// stand the number of its entries and its own place.
pub proof fn lemma_table_entries(objects: Seq<Seq<char>>, count: nat, i: nat)
    requires
        0 <= i < count <= objects.len(),
    ensures
        exists|after: Seq<char>|
            stands_between(
                table_entries(objects, count),
                table_entries(objects, i),
                table_entry(objects, i),
                after,
            ),
        tells(back_part(objects), table_entries(objects, objects.len())),
        tells(back_part(objects), "/Size "@ + decimal(objects.len() + 1)),
        tells(
            back_part(objects),
            "startxref\n"@ + decimal(front_part(objects, objects.len()).len()),
        ),
    decreases count,
{
    let entry = table_entry(objects, i);
    let whole = table_entries(objects, count);
    let before = table_entries(objects, i);
    if i == count - 1 {
        assert(whole =~= before + entry + Seq::empty());
        assert(stands_between(whole, before, entry, Seq::empty()));
    } else {
        lemma_table_entries(objects, (count - 1) as nat, i);
        let fewer = table_entries(objects, (count - 1) as nat);
        let after = choose|after: Seq<char>| stands_between(fewer, before, entry, after);
        let last = zero_padded(decimal(offset_of(objects, count - 1)), 10) + " 00000 n \n"@;
        assert(whole =~= fewer + last);
        assert(whole =~= before + entry + (after + last));
        assert(stands_between(whole, before, entry, after + last));
    }
    lemma_back_part(objects);
}

proof fn lemma_back_part(objects: Seq<Seq<char>>)
    ensures
        tells(back_part(objects), table_entries(objects, objects.len())),
        tells(back_part(objects), "/Size "@ + decimal(objects.len() + 1)),
        tells(
            back_part(objects),
            "startxref\n"@ + decimal(front_part(objects, objects.len()).len()),
        ),
{
    reveal_strlit("trailer\n<< /Size ");
    reveal_strlit("trailer\n<< ");
    reveal_strlit("/Size ");
    reveal_strlit(" /Root 1 0 R >>\nstartxref\n");
    reveal_strlit(" /Root 1 0 R >>\n");
    reveal_strlit("startxref\n");
    let text = back_part(objects);
    let head = "xref\n0 "@ + decimal(objects.len() + 1) + "\n0000000000 65535 f \n"@;
    let table = table_entries(objects, objects.len());
    let size = "/Size "@ + decimal(objects.len() + 1);
    let place = "startxref\n"@ + decimal(front_part(objects, objects.len()).len());
    let root = " /Root 1 0 R >>\n"@;
    let end = "\n%%EOF\n"@;
    let lead = "trailer\n<< "@;
    assert(text =~= head + table + (lead + size + root + place + end));
    lemma_tells(text, head, table, lead + size + root + place + end);
    assert(text =~= (head + table + lead) + size + (root + place + end));
    lemma_tells(text, head + table + lead, size, root + place + end);
    assert(text =~= (head + table + lead + size + root) + place + end);
    lemma_tells(text, head + table + lead + size + root, place, end);
}

} // verus!
