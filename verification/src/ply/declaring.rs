//! Headers written line by line: what a header declares is what it reads as.
use vstd::prelude::*;

use crate::ply::header::{
    header_from, header_of, header_step, ElementView, HeaderStep, PropertyType, PropertyView,
};
use crate::ply::writer::{first_lines, is_line, is_word, three_words};
use crate::ply::PlyErrorView;

verus! {

/// A line between the format line and the end of a header.
pub enum Declaration {
    /// An element with this name and this many rows.
    Element { name: Seq<char>, count: usize },
    /// A column of the element above, with the word for its type.
    Column { kind: Seq<char>, name: Seq<char> },
    /// A list of the element above.
    List { name: Seq<char> },
    /// Words for a human reader.
    Comment { first: Seq<char>, second: Seq<char> },
}

/// The line that makes the declaration.
pub open spec fn text(d: Declaration) -> Seq<char> {
    match d {
        Declaration::Element { name, count } => three_words(
            "element"@,
            name,
            crate::text::dec(count as nat),
        ),
        Declaration::Column { kind, name } => three_words("property"@, kind, name),
        Declaration::List { name } => three_words("property"@, "list"@, name),
        Declaration::Comment { first, second } => three_words("comment"@, first, second),
    }
}

/// A word short enough for a line.
pub open spec fn is_short(w: Seq<char>) -> bool {
    is_word(w) && w.len() <= 1000
}

/// The declaration can be written on a line.
pub open spec fn is_writable(d: Declaration) -> bool {
    match d {
        Declaration::Element { name, .. } => is_short(name),
        Declaration::Column { kind, name } => is_short(kind) && is_short(name)
            && PropertyType::of_name(kind) is Some,
        Declaration::List { name } => is_short(name),
        Declaration::Comment { first, second } => is_short(first) && is_short(second),
    }
}

/// What the first `n` declarations declare.
pub open spec fn declared(ds: Seq<Declaration>, n: int) -> Seq<ElementView>
    decreases n,
{
    if n <= 0 {
        Seq::empty()
    } else {
        let before = declared(ds, n - 1);
        match ds[n - 1] {
            Declaration::Element { name, count } => before.push(
                ElementView { name, count, properties: Seq::empty(), has_list_property: false },
            ),
            Declaration::Column { kind, name } => before.drop_last().push(
                ElementView {
                    properties: before.last().properties.push(
                        PropertyView { name, ty: PropertyType::of_name(kind)->0 },
                    ),
                    ..before.last()
                },
            ),
            Declaration::List { .. } => before.drop_last().push(
                ElementView { has_list_property: true, ..before.last() },
            ),
            Declaration::Comment { .. } => before,
        }
    }
}

/// Columns and lists stand below an element.
pub open spec fn is_header(ds: Seq<Declaration>) -> bool {
    &&& forall|i: int| 0 <= i < ds.len() ==> is_writable(#[trigger] ds[i])
    &&& forall|i: int|
        0 <= i < ds.len() && ((#[trigger] ds[i]) is Column || ds[i] is List) ==> exists|j: int|
            0 <= j < i && (#[trigger] ds[j]) is Element
}

/// The lines of a header with these declarations.
pub open spec fn lines(ds: Seq<Declaration>) -> Seq<Seq<char>> {
    seq!["ply"@, "format binary_little_endian 1.0"@] + Seq::new(ds.len(), |i: int| text(ds[i]))
        + seq!["end_header"@]
}

proof fn lemma_line(data: Seq<u8>, ls: Seq<Seq<char>>, k: int, behind: Seq<u8>)
    requires
        0 <= k < ls.len(),
        is_line(ls[k]),
        data == first_lines(ls, ls.len() as int) + behind,
    ensures
        crate::ply::header::line_at(data, first_lines(ls, k).len() as int) == Ok::<
            (Seq<char>, int),
            PlyErrorView,
        >((ls[k], first_lines(ls, k + 1).len() as int)),
        0 <= first_lines(ls, k).len() < first_lines(ls, k + 1).len() <= data.len(),
{
    let head = first_lines(ls, ls.len() as int);
    crate::ply::writer::lemma_first_lines(ls, k, ls.len() as int);
    let a = first_lines(ls, k).len() as int;
    let b = first_lines(ls, k + 1).len() as int;
    assert(data.subrange(a, b) =~= head.subrange(a, b));
    crate::ply::writer::lemma_line_reads_back(data, a, ls[k]);
}

proof fn lemma_some_element(ds: Seq<Declaration>, j: int, n: int)
    requires
        is_header(ds),
        0 <= j < n <= ds.len(),
        ds[j] is Element,
    ensures
        declared(ds, n).len() > 0,
    decreases n,
{
    if j < n - 1 {
        lemma_some_element(ds, j, n - 1);
    }
}

proof fn lemma_text(d: Declaration)
    requires
        is_writable(d),
    ensures
        is_line(text(d)),
        crate::words::trimmed_end(text(d)) == text(d),
        ({
            let w = crate::words::words(text(d));
            &&& w.len() == 3
            &&& w[0] == match d {
                Declaration::Element { .. } => "element"@,
                Declaration::Column { .. } | Declaration::List { .. } => "property"@,
                Declaration::Comment { .. } => "comment"@,
            }
            &&& w[1] == match d {
                Declaration::Element { name, .. } => name,
                Declaration::Column { kind, .. } => kind,
                Declaration::List { .. } => "list"@,
                Declaration::Comment { first, .. } => first,
            }
            &&& w[2] == match d {
                Declaration::Element { count, .. } => crate::text::dec(count as nat),
                Declaration::Column { name, .. } => name,
                Declaration::List { name } => name,
                Declaration::Comment { second, .. } => second,
            }
        }),
{
    reveal_strlit("element");
    reveal_strlit("property");
    reveal_strlit("list");
    reveal_strlit("comment");
    match d {
        Declaration::Element { name, count } => {
            crate::ply::writer::lemma_digits_are_a_word(count as nat);
            crate::ply::writer::lemma_digits_are_few(count as nat);
            crate::ply::writer::lemma_three_words(
                "element"@,
                name,
                crate::text::dec(count as nat),
            );
            crate::ply::writer::lemma_three_words_line(
                "element"@,
                name,
                crate::text::dec(count as nat),
            );
        },
        Declaration::Column { kind, name } => {
            crate::ply::writer::lemma_three_words("property"@, kind, name);
            crate::ply::writer::lemma_three_words_line("property"@, kind, name);
        },
        Declaration::List { name } => {
            crate::ply::writer::lemma_three_words("property"@, "list"@, name);
            crate::ply::writer::lemma_three_words_line("property"@, "list"@, name);
        },
        Declaration::Comment { first, second } => {
            crate::ply::writer::lemma_three_words("comment"@, first, second);
            crate::ply::writer::lemma_three_words_line("comment"@, first, second);
        },
    }
}

proof fn lemma_keywords()
    ensures
        "element"@ != "format"@ && "element"@ != "comment"@ && "element"@ != "obj_info"@,
        "property"@ != "format"@ && "property"@ != "comment"@ && "property"@ != "obj_info"@
            && "property"@ != "element"@,
        "comment"@ != "format"@,
        "end_header"@ != "format"@ && "end_header"@ != "comment"@ && "end_header"@ != "obj_info"@
            && "end_header"@ != "element"@ && "end_header"@ != "property"@,
        PropertyType::of_name("list"@) is None,
{
    reveal_strlit("element");
    reveal_strlit("format");
    reveal_strlit("comment");
    reveal_strlit("obj_info");
    reveal_strlit("property");
    reveal_strlit("end_header");
    reveal_strlit("list");
    reveal_strlit("int");
    reveal_strlit("uint");
    reveal_strlit("int8");
    reveal_strlit("int16");
    reveal_strlit("int32");
    reveal_strlit("uint8");
    reveal_strlit("uint16");
    reveal_strlit("uint32");
    reveal_strlit("char");
    reveal_strlit("uchar");
    reveal_strlit("short");
    reveal_strlit("ushort");
    reveal_strlit("float");
    reveal_strlit("float32");
    reveal_strlit("double");
    reveal_strlit("float64");
    assert("element"@.len() == 7 && "format"@.len() == 6 && "comment"@.len() == 7
        && "obj_info"@.len() == 8 && "property"@.len() == 8 && "end_header"@.len() == 10);
    assert("element"@[0] == 'e' && "comment"@[0] == 'c' && "obj_info"@[0] == 'o' && "property"@[0]
        == 'p');
    assert("list"@[0] == 'l' && "list"@.len() == 4);
    assert("uint"@[0] == 'u' && "int8"@[0] == 'i' && "char"@[0] == 'c');
}

proof fn lemma_declaration(ds: Seq<Declaration>, n: int)
    requires
        is_header(ds),
        0 <= n < ds.len(),
    ensures
        header_step(text(ds[n]), declared(ds, n), true) == (HeaderStep::Next {
            elements: declared(ds, n + 1),
            format_seen: true,
        }),
{
    let d = ds[n];
    let before = declared(ds, n);
    lemma_text(d);
    lemma_keywords();
    assert(is_writable(d));
    match d {
        Declaration::Element { name, count } => {
            crate::words::reading_undoes_writing(count as nat);
        },
        Declaration::Column { kind, name } => {
            let j = choose|j: int| 0 <= j < n && (#[trigger] ds[j]) is Element;
            lemma_some_element(ds, j, n);
            let e = ElementView {
                properties: before.last().properties.push(
                    PropertyView { name, ty: PropertyType::of_name(kind)->0 },
                ),
                ..before.last()
            };
            assert(before.update(before.len() - 1, e) =~= before.drop_last().push(e));
        },
        Declaration::List { name } => {
            let j = choose|j: int| 0 <= j < n && (#[trigger] ds[j]) is Element;
            lemma_some_element(ds, j, n);
            let e = ElementView { has_list_property: true, ..before.last() };
            assert(before.update(before.len() - 1, e) =~= before.drop_last().push(e));
        },
        Declaration::Comment { .. } => {},
    }
}

proof fn lemma_declarations(ds: Seq<Declaration>, data: Seq<u8>, behind: Seq<u8>, n: int)
    requires
        is_header(ds),
        0 <= n <= ds.len(),
        data == first_lines(lines(ds), 3 + ds.len() as int) + behind,
    ensures
        header_from(
            data,
            first_lines(lines(ds), n + 2).len() as int,
            declared(ds, n),
            true,
        ) == Ok::<(Seq<ElementView>, int), PlyErrorView>(
            (declared(ds, ds.len() as int), first_lines(lines(ds), 3 + ds.len() as int).len() as int),
        ),
    decreases ds.len() - n,
{
    let ls = lines(ds);
    assert(ls.len() == ds.len() + 3);
    if n < ds.len() {
        assert(ls[n + 2] == text(ds[n]));
        assert(is_writable(ds[n]));
        lemma_text(ds[n]);
        lemma_line(data, ls, n + 2, behind);
        lemma_declaration(ds, n);
        lemma_declarations(ds, data, behind, n + 1);
    } else {
        let line = "end_header"@;
        reveal_strlit("end_header");
        lemma_keywords();
        assert(ls[n + 2] == line);
        lemma_line(data, ls, n + 2, behind);
        crate::ply::writer::lemma_trim_word_end(line);
        crate::ply::writer::lemma_one_word(line);
        assert(crate::words::words(line)[0] == line);
    }
}

/// A header reads as what its lines declare: the elements in their order,
/// each with its name, its number of rows and its columns in their order,
/// and whether it holds a list. The payload starts behind the last line.
pub proof fn reading_a_header_undoes_writing(ds: Seq<Declaration>, behind: Seq<u8>)
    requires
        is_header(ds),
    ensures
        header_of(first_lines(lines(ds), 3 + ds.len() as int) + behind) == Ok::<
            (Seq<ElementView>, int),
            PlyErrorView,
        >((declared(ds, ds.len() as int), first_lines(lines(ds), 3 + ds.len() as int).len() as int)),
{
    let ls = lines(ds);
    let data = first_lines(ls, 3 + ds.len() as int) + behind;
    assert(ls.len() == ds.len() + 3);
    let magic = "ply"@;
    let line = "format binary_little_endian 1.0"@;
    reveal_strlit("ply");
    reveal_strlit("format binary_little_endian 1.0");
    assert(ls[0] == magic && ls[1] == line);
    assert(first_lines(ls, 0).len() == 0);
    lemma_line(data, ls, 0, behind);
    crate::ply::writer::lemma_trim_word_end(magic);
    lemma_line(data, ls, 1, behind);
    crate::ply::writer::lemma_trim_word_end(line);
    let parts = (("binary_little_endian"@), "1.0"@);
    reveal_strlit("format");
    reveal_strlit("binary_little_endian");
    reveal_strlit("1.0");
    reveal_strlit("binary_little_endian 1.0");
    assert(line =~= three_words("format"@, parts.0, parts.1));
    assert(parts.0 + seq![' '] + parts.1 =~= "binary_little_endian 1.0"@);
    lemma_format(parts.0, parts.1);
    lemma_declarations(ds, data, behind, 0);
}

proof fn lemma_format(a: Seq<char>, b: Seq<char>)
    requires
        is_word(a),
        is_word(b),
    ensures
        crate::words::words(three_words("format"@, a, b))[0] == "format"@,
        crate::words::words(three_words("format"@, a, b)).len() == 3,
        crate::words::trimmed(three_words("format"@, a, b).skip(6)) == a + seq![' '] + b,
{
    reveal_strlit("format");
    crate::ply::writer::lemma_three_words("format"@, a, b);
    let line = three_words("format"@, a, b);
    let tail = line.skip(6);
    let rest = a + seq![' '] + b;
    assert(tail =~= seq![' '] + rest);
    assert(tail.last() == b.last());
    assert('!' <= b[b.len() - 1] <= '~');
    crate::ply::writer::lemma_trim_word_end(tail);
    assert(tail[0] == ' ');
    assert(tail.skip(1) =~= rest);
    assert(rest[0] == a[0]);
    assert('!' <= a[0] <= '~');
    assert(crate::words::trimmed_start(rest) == rest);
}

/// A file whose first line is another word than `ply` is none. One in another
/// format is refused with the name of its format, and one that ends its header
/// without a format line is refused, as is a column above every element and
/// one of an unknown type.
pub proof fn other_headers_are_refused(
    magic: Seq<char>,
    a: Seq<char>,
    b: Seq<char>,
    behind: Seq<u8>,
)
    requires
        is_short(magic),
        is_short(a),
        is_short(b),
    ensures
        magic != "ply"@ ==> header_of(first_lines(seq![magic], 1) + behind) == Err::<
            (Seq<ElementView>, int),
            PlyErrorView,
        >(PlyErrorView::NotPly),
        a + seq![' '] + b != "binary_little_endian 1.0"@ ==> header_of(
            first_lines(seq!["ply"@, three_words("format"@, a, b)], 2) + behind,
        ) == Err::<(Seq<ElementView>, int), PlyErrorView>(
            PlyErrorView::UnsupportedFormat(a + seq![' '] + b),
        ),
        header_of(first_lines(seq!["ply"@, "end_header"@], 2) + behind) == Err::<
            (Seq<ElementView>, int),
            PlyErrorView,
        >(PlyErrorView::BadHeader("missing format line"@)),
        PropertyType::of_name(a) is None && a != "list"@ ==> header_of(
            first_lines(
                seq![
                    "ply"@,
                    three_words("element"@, magic, crate::text::dec(0)),
                    three_words("property"@, a, b),
                ],
                3,
            ) + behind,
        ) == Err::<(Seq<ElementView>, int), PlyErrorView>(
            PlyErrorView::BadHeader("unknown type: "@ + a),
        ),
        header_of(first_lines(seq!["ply"@, three_words("property"@, a, b)], 2) + behind) == Err::<
            (Seq<ElementView>, int),
            PlyErrorView,
        >(PlyErrorView::BadHeader("property before element"@)),
{
    reveal_strlit("ply");
    reveal_strlit("end_header");
    reveal_strlit("format");
    reveal_strlit("element");
    reveal_strlit("property");
    lemma_keywords();
    let ply = "ply"@;
    crate::ply::writer::lemma_trim_word_end(ply);
    let l1 = seq![magic];
    assert(l1[0] == magic);
    assert(first_lines(l1, 0).len() == 0);
    lemma_line(first_lines(l1, 1) + behind, l1, 0, behind);
    assert('!' <= magic[magic.len() - 1] <= '~');
    crate::ply::writer::lemma_trim_word_end(magic);

    let format = three_words("format"@, a, b);
    let l2 = seq![ply, format];
    lemma_ply(l2, behind);
    crate::ply::writer::lemma_three_words_line("format"@, a, b);
    lemma_line(first_lines(l2, 2) + behind, l2, 1, behind);
    lemma_format(a, b);

    let end = "end_header"@;
    let l3 = seq![ply, end];
    lemma_ply(l3, behind);
    lemma_line(first_lines(l3, 2) + behind, l3, 1, behind);
    crate::ply::writer::lemma_trim_word_end(end);
    crate::ply::writer::lemma_one_word(end);

    let column = three_words("property"@, a, b);
    crate::ply::writer::lemma_three_words_line("property"@, a, b);
    crate::ply::writer::lemma_three_words("property"@, a, b);
    let l4 = seq![ply, column];
    lemma_ply(l4, behind);
    lemma_line(first_lines(l4, 2) + behind, l4, 1, behind);

    if PropertyType::of_name(a) is None && a != "list"@ {
        lemma_unknown_type(magic, a, b, behind);
    }
}

proof fn lemma_unknown_type(name: Seq<char>, a: Seq<char>, b: Seq<char>, behind: Seq<u8>)
    requires
        is_short(name),
        is_short(a),
        is_short(b),
        PropertyType::of_name(a) is None,
        a != "list"@,
    ensures
        header_of(
            first_lines(
                seq![
                    "ply"@,
                    three_words("element"@, name, crate::text::dec(0)),
                    three_words("property"@, a, b),
                ],
                3,
            ) + behind,
        ) == Err::<(Seq<ElementView>, int), PlyErrorView>(
            PlyErrorView::BadHeader("unknown type: "@ + a),
        ),
{
    let d = Declaration::Element { name, count: 0 };
    let column = three_words("property"@, a, b);
    let ls = seq!["ply"@, text(d), column];
    let data = first_lines(ls, 3) + behind;
    lemma_keywords();
    lemma_text(d);
    crate::words::reading_undoes_writing(0);
    lemma_ply(ls, behind);
    assert(ls[1] == text(d) && ls[2] == column);
    lemma_line(data, ls, 1, behind);
    let none = Seq::<ElementView>::empty();
    let e = ElementView { name, count: 0, properties: Seq::empty(), has_list_property: false };
    assert(header_step(text(d), none, false) == (HeaderStep::Next {
        elements: none.push(e),
        format_seen: false,
    }));
    reveal_strlit("property");
    crate::ply::writer::lemma_three_words_line("property"@, a, b);
    crate::ply::writer::lemma_three_words("property"@, a, b);
    lemma_line(data, ls, 2, behind);
    assert(header_step(column, none.push(e), false) == HeaderStep::Fail(
        PlyErrorView::BadHeader("unknown type: "@ + a),
    ));
    assert(header_from(data, first_lines(ls, 2).len() as int, none.push(e), false) == Err::<
        (Seq<ElementView>, int),
        PlyErrorView,
    >(PlyErrorView::BadHeader("unknown type: "@ + a)));
}

proof fn lemma_ply(ls: Seq<Seq<char>>, behind: Seq<u8>)
    requires
        ls.len() > 0,
        ls[0] == "ply"@,
    ensures
        header_of(first_lines(ls, ls.len() as int) + behind) == header_from(
            first_lines(ls, ls.len() as int) + behind,
            first_lines(ls, 1).len() as int,
            Seq::empty(),
            false,
        ),
{
    reveal_strlit("ply");
    assert(first_lines(ls, 0).len() == 0);
    lemma_line(first_lines(ls, ls.len() as int) + behind, ls, 0, behind);
    crate::ply::writer::lemma_trim_word_end("ply"@);
}

} // verus!
