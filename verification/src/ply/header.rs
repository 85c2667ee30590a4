//! The text header: elements, their properties, and where the payload starts.
use vstd::prelude::*;
use vstd::string::StringExecFns;

use crate::ply::{bad_header, joined, PlyError, PlyErrorView};
use crate::words::{parse_usize, same_text, split_words, text_from_utf8, trim_after, trim_end};

verus! {

#[derive(Debug, Clone, Copy, PartialEq, Eq, Structural)]
pub enum PropertyType {
    Float,
    Double,
    Char,
    UChar,
    Short,
    UShort,
    Int,
    UInt,
}

impl PropertyType {
    /// The type that `name` stands for.
    pub open spec fn of_name(name: Seq<char>) -> Option<PropertyType> {
        if name == "float"@ || name == "float32"@ {
            Some(PropertyType::Float)
        } else if name == "double"@ || name == "float64"@ {
            Some(PropertyType::Double)
        } else if name == "char"@ || name == "int8"@ {
            Some(PropertyType::Char)
        } else if name == "uchar"@ || name == "uint8"@ {
            Some(PropertyType::UChar)
        } else if name == "short"@ || name == "int16"@ {
            Some(PropertyType::Short)
        } else if name == "ushort"@ || name == "uint16"@ {
            Some(PropertyType::UShort)
        } else if name == "int"@ || name == "int32"@ {
            Some(PropertyType::Int)
        } else if name == "uint"@ || name == "uint32"@ {
            Some(PropertyType::UInt)
        } else {
            None
        }
    }

    /// Bytes of a value of the type.
    pub open spec fn bytes(self) -> int {
        match self {
            PropertyType::Char | PropertyType::UChar => 1,
            PropertyType::Short | PropertyType::UShort => 2,
            PropertyType::Float | PropertyType::Int | PropertyType::UInt => 4,
            PropertyType::Double => 8,
        }
    }

    pub fn parse(s: &str) -> (r: Option<PropertyType>)
        ensures
            r == PropertyType::of_name(s@),
    {
        if same_text(s, "float") || same_text(s, "float32") {
            Some(PropertyType::Float)
        } else if same_text(s, "double") || same_text(s, "float64") {
            Some(PropertyType::Double)
        } else if same_text(s, "char") || same_text(s, "int8") {
            Some(PropertyType::Char)
        } else if same_text(s, "uchar") || same_text(s, "uint8") {
            Some(PropertyType::UChar)
        } else if same_text(s, "short") || same_text(s, "int16") {
            Some(PropertyType::Short)
        } else if same_text(s, "ushort") || same_text(s, "uint16") {
            Some(PropertyType::UShort)
        } else if same_text(s, "int") || same_text(s, "int32") {
            Some(PropertyType::Int)
        } else if same_text(s, "uint") || same_text(s, "uint32") {
            Some(PropertyType::UInt)
        } else {
            None
        }
    }

    pub fn size(self) -> (n: usize)
        ensures
            n == self.bytes(),
    {
        match self {
            PropertyType::Char => 1,
            PropertyType::UChar => 1,
            PropertyType::Short => 2,
            PropertyType::UShort => 2,
            PropertyType::Float => 4,
            PropertyType::Int => 4,
            PropertyType::UInt => 4,
            PropertyType::Double => 8,
        }
    }
}

#[derive(Debug, Clone)]
pub struct Property {
    pub name: String,
    pub ty: PropertyType,
}

pub struct PropertyView {
    pub name: Seq<char>,
    pub ty: PropertyType,
}

impl View for Property {
    type V = PropertyView;

    open spec fn view(&self) -> PropertyView {
        PropertyView { name: self.name@, ty: self.ty }
    }
}

#[derive(Debug, Clone)]
pub struct Element {
    pub name: String,
    pub count: usize,
    pub properties: Vec<Property>,
    /// True if any list property was declared on this element.
    pub has_list_property: bool,
}

#[verifier::ext_equal]
pub struct ElementView {
    pub name: Seq<char>,
    pub count: usize,
    pub properties: Seq<PropertyView>,
    pub has_list_property: bool,
}

impl View for Element {
    type V = ElementView;

    open spec fn view(&self) -> ElementView {
        ElementView {
            name: self.name@,
            count: self.count,
            properties: self.properties@.map_values(|p: Property| p@),
            has_list_property: self.has_list_property,
        }
    }
}

/// Bytes of a row with these properties.
pub open spec fn row_bytes(props: Seq<PropertyView>) -> int
    decreases props.len(),
{
    if props.len() == 0 {
        0
    } else {
        row_bytes(props.drop_last()) + props.last().ty.bytes()
    }
}

/// First place at or after `i` of a property of this name, or the length.
pub open spec fn place_of(props: Seq<PropertyView>, name: Seq<char>, i: int) -> int
    decreases props.len() - i,
{
    if i >= props.len() || props[i].name == name {
        i
    } else {
        place_of(props, name, i + 1)
    }
}

/// Where in a row the first property of this name stands, and its type.
pub open spec fn offset_in(props: Seq<PropertyView>, name: Seq<char>) -> Option<
    (int, PropertyType),
> {
    let i = place_of(props, name, 0);
    if i < props.len() {
        Some((row_bytes(props.take(i)), props[i].ty))
    } else {
        None
    }
}

pub proof fn lemma_place_of(props: Seq<PropertyView>, name: Seq<char>, i: int)
    requires
        0 <= i <= props.len(),
    ensures
        i <= place_of(props, name, i) <= props.len(),
        place_of(props, name, i) < props.len() ==> props[place_of(props, name, i)].name == name,
        forall|k: int| i <= k < place_of(props, name, i) ==> (#[trigger] props[k]).name != name,
    decreases props.len() - i,
{
    if i < props.len() {
        lemma_place_of(props, name, i + 1);
    }
}

pub proof fn lemma_row_bytes_grow(props: Seq<PropertyView>, n: int)
    requires
        0 <= n <= props.len(),
    ensures
        0 <= row_bytes(props.take(n)) <= row_bytes(props),
        n < props.len() ==> row_bytes(props.take(n)) + props[n].ty.bytes() <= row_bytes(props),
        row_bytes(props) <= 8 * props.len(),
    decreases props.len(),
{
    if n < props.len() {
        let shorter = props.drop_last();
        lemma_row_bytes_grow(shorter, n);
        assert(shorter.take(n) =~= props.take(n));
        if n == shorter.len() {
            assert(props.take(n) =~= shorter);
        }
    } else {
        assert(props.take(n) =~= props);
        if n > 0 {
            lemma_row_bytes_grow(props.drop_last(), n - 1);
        }
    }
}

/// A property lies within its row: its offset and its bytes end at or before
/// the stride.
pub proof fn properties_lie_in_the_row(props: Seq<PropertyView>, name: Seq<char>)
    ensures
        offset_in(props, name) matches Some((off, ty)) ==> 0 <= off && off + ty.bytes()
            <= row_bytes(props),
{
    lemma_place_of(props, name, 0);
    let i = place_of(props, name, 0);
    if i < props.len() {
        lemma_row_bytes_grow(props, i);
    }
}

impl Element {
    /// Byte stride of one row, where the element has no list property.
    pub fn stride(&self) -> (n: usize)
        requires
            8 * self.properties@.len() <= usize::MAX,
        ensures
            n == row_bytes(self@.properties),
    {
        let ghost props = self@.properties;
        let mut off: usize = 0;
        let mut k: usize = 0;
        assert(props.take(0) =~= Seq::<PropertyView>::empty());
        while k < self.properties.len()
            invariant
                k <= self.properties@.len(),
                props == self@.properties,
                8 * self.properties@.len() <= usize::MAX,
                off == row_bytes(props.take(k as int)),
            decreases self.properties@.len() - k,
        {
            proof {
                lemma_row_bytes_grow(props, k as int);
                assert(props.take(k + 1).drop_last() =~= props.take(k as int));
            }
            off = off + self.properties[k].ty.size();
            k = k + 1;
        }
        assert(props.take(k as int) =~= props);
        off
    }

    /// Byte offset of a named property within a row, with its type.
    pub fn offset_of(&self, name: &str) -> (r: Option<(usize, PropertyType)>)
        requires
            8 * self.properties@.len() <= usize::MAX,
        ensures
            match offset_in(self@.properties, name@) {
                Some((off, ty)) => 0 <= off <= usize::MAX && r == Some((off as usize, ty)),
                None => r is None,
            },
    {
        let ghost props = self@.properties;
        let mut off: usize = 0;
        let mut k: usize = 0;
        assert(props.take(0) =~= Seq::<PropertyView>::empty());
        while k < self.properties.len()
            invariant
                k <= self.properties@.len(),
                props == self@.properties,
                8 * self.properties@.len() <= usize::MAX,
                off == row_bytes(props.take(k as int)),
                place_of(props, name@, 0) == place_of(props, name@, k as int),
            decreases self.properties@.len() - k,
        {
            if same_text(self.properties[k].name.as_str(), name) {
                assert(props[k as int].name == name@);
                return Some((off, self.properties[k].ty));
            }
            proof {
                lemma_row_bytes_grow(props, k as int);
                assert(props.take(k + 1).drop_last() =~= props.take(k as int));
            }
            off = off + self.properties[k].ty.size();
            k = k + 1;
        }
        None
    }
}

#[derive(Debug, Clone)]
pub struct PlyHeader {
    pub elements: Vec<Element>,
}

/// The views of a list of elements.
pub open spec fn element_views(list: Seq<Element>) -> Seq<ElementView> {
    list.map_values(|e: Element| e@)
}

/// First place at or after `i` of an element of this name, or the length.
pub open spec fn element_place(list: Seq<ElementView>, name: Seq<char>, i: int) -> int
    decreases list.len() - i,
{
    if i >= list.len() || list[i].name == name {
        i
    } else {
        element_place(list, name, i + 1)
    }
}

pub proof fn lemma_element_place(list: Seq<ElementView>, name: Seq<char>, i: int)
    requires
        0 <= i <= list.len(),
    ensures
        i <= element_place(list, name, i) <= list.len(),
    decreases list.len() - i,
{
    if i < list.len() {
        lemma_element_place(list, name, i + 1);
    }
}

impl View for PlyHeader {
    type V = Seq<ElementView>;

    open spec fn view(&self) -> Seq<ElementView> {
        element_views(self.elements@)
    }
}

impl PlyHeader {
    /// The first element named `vertex`.
    pub fn vertex(&self) -> (r: Option<&Element>)
        ensures
            ({
                let i = element_place(self@, "vertex"@, 0);
                if i < self@.len() {
                    r == Some(&self.elements@[i]) && r.unwrap()@ == self@[i]
                } else {
                    r is None
                }
            }),
    {
        let mut k: usize = 0;
        while k < self.elements.len()
            invariant
                k <= self.elements@.len(),
                element_place(self@, "vertex"@, 0) == element_place(self@, "vertex"@, k as int),
            decreases self.elements@.len() - k,
        {
            assert(self@[k as int].name == self.elements@[k as int].name@);
            if same_text(self.elements[k].name.as_str(), "vertex") {
                return Some(&self.elements[k]);
            }
            k = k + 1;
        }
        None
    }
}

// ---- lines ----

/// Longest header line, in bytes.
pub const MAX_LINE: usize = 4096;

/// First line feed at or after `pos`, or the length.
pub open spec fn line_end(data: Seq<u8>, pos: int) -> int
    decreases data.len() - pos,
{
    if pos >= data.len() || data[pos] == 10 {
        pos
    } else {
        line_end(data, pos + 1)
    }
}

pub proof fn lemma_line_end(data: Seq<u8>, pos: int)
    requires
        0 <= pos <= data.len(),
    ensures
        pos <= line_end(data, pos) <= data.len(),
        line_end(data, pos) < data.len() ==> data[line_end(data, pos)] == 10,
    decreases data.len() - pos,
{
    if pos < data.len() {
        lemma_line_end(data, pos + 1);
    }
}

/// The line at `pos` and where the next one starts.
pub open spec fn line_at(data: Seq<u8>, pos: int) -> Result<(Seq<char>, int), PlyErrorView> {
    let end = line_end(data, pos);
    if end - pos > 4096 {
        Err(PlyErrorView::BadHeader("header line too long"@))
    } else if end >= data.len() {
        Err(PlyErrorView::BadHeader("eof inside header"@))
    } else if !vstd::utf8::valid_utf8(data.subrange(pos, end)) {
        Err(PlyErrorView::BadHeader("non-utf8 header line"@))
    } else {
        Ok((vstd::utf8::decode_utf8(data.subrange(pos, end)), end + 1))
    }
}

/// Reads one line, without its line feed.
fn read_line(data: &[u8], pos: usize) -> (r: Result<(String, usize), PlyError>)
    requires
        pos <= data@.len(),
        data@.len() <= usize::MAX,
    ensures
        match line_at(data@, pos as int) {
            Ok((line, next)) => r matches Ok((l, n)) && l@ == line && n == next && pos < n
                <= data@.len(),
            Err(e) => r matches Err(x) && x@ == e,
        },
{
    let len: usize = data.len();
    let mut buf: Vec<u8> = Vec::new();
    let mut at: usize = pos;
    assert(data@.subrange(pos as int, pos as int) =~= buf@);
    proof {
        lemma_line_end(data@, pos as int);
    }
    while at < len && data[at] != 10
        invariant
            pos <= at <= len,
            len == data@.len(),
            at - pos <= MAX_LINE,
            buf@ == data@.subrange(pos as int, at as int),
            line_end(data@, pos as int) == line_end(data@, at as int),
        decreases len - at,
    {
        if buf.len() >= MAX_LINE {
            proof {
                lemma_line_end(data@, at + 1);
            }
            return Err(bad_header("header line too long"));
        }
        buf.push(data[at]);
        assert(data@.subrange(pos as int, at + 1) =~= data@.subrange(pos as int, at as int).push(
            data@[at as int],
        ));
        at = at + 1;
    }
    if at == len {
        return Err(bad_header("eof inside header"));
    }
    match text_from_utf8(buf) {
        Some(text) => Ok((text, at + 1)),
        None => Err(bad_header("non-utf8 header line")),
    }
}

/// What a header line does.
pub enum HeaderStep {
    Fail(PlyErrorView),
    Next { elements: Seq<ElementView>, format_seen: bool },
    End,
}

pub open spec fn element_step(line: Seq<char>, elements: Seq<ElementView>, seen: bool) -> HeaderStep {
    let w = crate::words::words(line);
    if w.len() < 2 {
        HeaderStep::Fail(PlyErrorView::BadHeader("bad element line: "@ + line))
    } else {
        let count = if w.len() < 3 {
            None
        } else {
            crate::words::number_of(w[2])
        };
        match count {
            Some(n) => if n <= usize::MAX {
                HeaderStep::Next {
                    elements: elements.push(
                        ElementView {
                            name: w[1],
                            count: n as usize,
                            properties: Seq::empty(),
                            has_list_property: false,
                        },
                    ),
                    format_seen: seen,
                }
            } else {
                HeaderStep::Fail(PlyErrorView::BadHeader("bad element count: "@ + line))
            },
            None => HeaderStep::Fail(PlyErrorView::BadHeader("bad element count: "@ + line)),
        }
    }
}

pub open spec fn property_step(
    line: Seq<char>,
    elements: Seq<ElementView>,
    seen: bool,
) -> HeaderStep {
    let w = crate::words::words(line);
    if elements.len() == 0 {
        HeaderStep::Fail(PlyErrorView::BadHeader("property before element"@))
    } else if w.len() < 2 {
        HeaderStep::Fail(PlyErrorView::BadHeader("bad property line: "@ + line))
    } else if w[1] == "list"@ {
        HeaderStep::Next {
            elements: elements.update(
                elements.len() - 1,
                ElementView { has_list_property: true, ..elements.last() },
            ),
            format_seen: seen,
        }
    } else {
        match PropertyType::of_name(w[1]) {
            None => HeaderStep::Fail(PlyErrorView::BadHeader("unknown type: "@ + w[1])),
            Some(ty) => if w.len() < 3 {
                HeaderStep::Fail(PlyErrorView::BadHeader("bad property line: "@ + line))
            } else {
                HeaderStep::Next {
                    elements: elements.update(
                        elements.len() - 1,
                        ElementView {
                            properties: elements.last().properties.push(
                                PropertyView { name: w[2], ty },
                            ),
                            ..elements.last()
                        },
                    ),
                    format_seen: seen,
                }
            },
        }
    }
}

/// What the line does to the elements declared so far.
pub open spec fn header_step(
    line: Seq<char>,
    elements: Seq<ElementView>,
    seen: bool,
) -> HeaderStep {
    let w = crate::words::words(line);
    if w.len() == 0 {
        HeaderStep::Next { elements, format_seen: seen }
    } else if w[0] == "format"@ {
        let rest = crate::words::trimmed(line.skip(6));
        if rest == "binary_little_endian 1.0"@ {
            HeaderStep::Next { elements, format_seen: true }
        } else {
            HeaderStep::Fail(PlyErrorView::UnsupportedFormat(rest))
        }
    } else if w[0] == "comment"@ || w[0] == "obj_info"@ {
        HeaderStep::Next { elements, format_seen: seen }
    } else if w[0] == "element"@ {
        element_step(line, elements, seen)
    } else if w[0] == "property"@ {
        property_step(line, elements, seen)
    } else if w[0] == "end_header"@ {
        HeaderStep::End
    } else {
        HeaderStep::Fail(PlyErrorView::BadHeader("unexpected keyword: "@ + w[0]))
    }
}

/// The elements that the lines from `pos` on declare, and where the payload
/// starts.
pub open spec fn header_from(
    data: Seq<u8>,
    pos: int,
    elements: Seq<ElementView>,
    seen: bool,
) -> Result<(Seq<ElementView>, int), PlyErrorView>
    decreases data.len() - pos,
{
    if pos < 0 || pos > data.len() {
        Err(PlyErrorView::NotPly)
    } else {
        match line_at(data, pos) {
            Err(e) => Err(e),
            Ok((line, next)) => match header_step(
                crate::words::trimmed_end(line),
                elements,
                seen,
            ) {
                HeaderStep::Fail(e) => Err(e),
                HeaderStep::Next { elements, format_seen } => {
                    proof {
                        lemma_line_end(data, pos);
                    }
                    header_from(data, next, elements, format_seen)
                },
                HeaderStep::End => if seen {
                    Ok((elements, next))
                } else {
                    Err(PlyErrorView::BadHeader("missing format line"@))
                },
            },
        }
    }
}

/// What the header declares, and where the payload starts.
pub open spec fn header_of(data: Seq<u8>) -> Result<(Seq<ElementView>, int), PlyErrorView> {
    match line_at(data, 0) {
        Err(e) => Err(e),
        Ok((line, next)) => if crate::words::trimmed_end(line) == "ply"@ {
            header_from(data, next, Seq::empty(), false)
        } else {
            Err(PlyErrorView::NotPly)
        },
    }
}

proof fn lemma_first_word_fits(s: Seq<char>)
    ensures
        crate::words::words(s).len() > 0 ==> crate::words::words(s)[0].len() <= s.len(),
{
    crate::words::lemma_word_bounds(s, 0);
    let a = crate::words::word_start(s, 0);
    if a < s.len() {
        crate::words::lemma_word_bounds(s, a);
    }
}

fn element_line(line: &str, w: &Vec<String>, elements: &mut Vec<Element>) -> (r: Result<
    (),
    PlyError,
>)
    requires
        crate::words::views(w@) == crate::words::words(line@),
    ensures
        match element_step(line@, element_views(old(elements)@), true) {
            HeaderStep::Next { elements: after, .. } => r is Ok && element_views(
                final(elements)@,
            ) == after,
            HeaderStep::Fail(e) => r matches Err(x) && x@ == e,
            HeaderStep::End => true,
        },
{
    let ghost ws = crate::words::words(line@);
    assert(ws.len() == w@.len());
    assert(forall|k: int| 0 <= k < w@.len() ==> ws[k] == (#[trigger] w@[k])@);
    if w.len() < 2 {
        return Err(PlyError::BadHeader(joined("bad element line: ", line)));
    }
    let parsed = if w.len() < 3 {
        None
    } else {
        parse_usize(w[2].as_str())
    };
    match parsed {
        None => Err(PlyError::BadHeader(joined("bad element count: ", line))),
        Some(count) => {
            let ghost before = element_views(elements@);
            let e = Element {
                name: String::from_str(w[1].as_str()),
                count,
                properties: Vec::new(),
                has_list_property: false,
            };
            let ghost ev = e@;
            elements.push(e);
            assert(ev.properties =~= Seq::<PropertyView>::empty());
            assert(element_views(elements@) =~= before.push(ev));
            Ok(())
        },
    }
}

fn property_line(line: &str, w: &Vec<String>, elements: &mut Vec<Element>) -> (r: Result<
    (),
    PlyError,
>)
    requires
        crate::words::views(w@) == crate::words::words(line@),
    ensures
        match property_step(line@, element_views(old(elements)@), true) {
            HeaderStep::Next { elements: after, .. } => r is Ok && element_views(
                final(elements)@,
            ) == after,
            HeaderStep::Fail(e) => r matches Err(x) && x@ == e,
            HeaderStep::End => true,
        },
{
    let ghost ws = crate::words::words(line@);
    assert(ws.len() == w@.len());
    assert(forall|k: int| 0 <= k < w@.len() ==> ws[k] == (#[trigger] w@[k])@);
    let ghost before = element_views(elements@);
    if elements.len() == 0 {
        return Err(bad_header("property before element"));
    }
    let last: usize = elements.len() - 1;
    if w.len() < 2 {
        return Err(PlyError::BadHeader(joined("bad property line: ", line)));
    }
    if same_text(w[1].as_str(), "list") {
        elements[last].has_list_property = true;
        assert(element_views(elements@) =~= before.update(
            last as int,
            ElementView { has_list_property: true, ..before.last() },
        ));
        return Ok(());
    }
    match PropertyType::parse(w[1].as_str()) {
        None => Err(PlyError::BadHeader(joined("unknown type: ", w[1].as_str()))),
        Some(ty) => {
            if w.len() < 3 {
                return Err(PlyError::BadHeader(joined("bad property line: ", line)));
            }
            let p = Property { name: String::from_str(w[2].as_str()), ty };
            let ghost pv = p@;
            let ghost was = elements@[last as int].properties@;
            elements[last].properties.push(p);
            proof {
                assert(elements@[last as int].properties@ == was.push(p));
                assert(elements@[last as int]@.properties =~= before.last().properties.push(pv));
                assert(element_views(elements@) =~= before.update(
                    last as int,
                    ElementView {
                        properties: before.last().properties.push(pv),
                        ..before.last()
                    },
                ));
            }
            Ok(())
        },
    }
}

/// What comes after a header line.
enum Line {
    Next(bool),
    End,
}

fn header_line(line: &str, elements: &mut Vec<Element>, seen: bool) -> (r: Result<Line, PlyError>)
    ensures
        match header_step(line@, element_views(old(elements)@), seen) {
            HeaderStep::Next { elements: after, format_seen } => r == Ok::<Line, PlyError>(
                Line::Next(format_seen),
            ) && element_views(final(elements)@) == after,
            HeaderStep::Fail(e) => r matches Err(x) && x@ == e,
            HeaderStep::End => r == Ok::<Line, PlyError>(Line::End) && *final(elements) == *old(
                elements,
            ),
        },
{
    let w = split_words(line);
    let ghost ws = crate::words::words(line@);
    assert(ws.len() == w@.len());
    assert(forall|k: int| 0 <= k < w@.len() ==> ws[k] == (#[trigger] w@[k])@);
    if w.len() == 0 {
        return Ok(Line::Next(seen));
    }
    let key = w[0].as_str();
    if same_text(key, "format") {
        proof {
            lemma_first_word_fits(line@);
            reveal_strlit("format");
        }
        let rest = trim_after(line, 6);
        if same_text(rest, "binary_little_endian 1.0") {
            return Ok(Line::Next(true));
        }
        return Err(PlyError::UnsupportedFormat(String::from_str(rest)));
    }
    if same_text(key, "comment") || same_text(key, "obj_info") {
        return Ok(Line::Next(seen));
    }
    if same_text(key, "element") {
        return match element_line(line, &w, elements) {
            Ok(_) => Ok(Line::Next(seen)),
            Err(e) => Err(e),
        };
    }
    if same_text(key, "property") {
        return match property_line(line, &w, elements) {
            Ok(_) => Ok(Line::Next(seen)),
            Err(e) => Err(e),
        };
    }
    if same_text(key, "end_header") {
        return Ok(Line::End);
    }
    Err(PlyError::BadHeader(joined("unexpected keyword: ", key)))
}

/// No element has more properties than `n`.
pub open spec fn properties_within(elements: Seq<ElementView>, n: int) -> bool {
    forall|k: int| 0 <= k < elements.len() ==> (#[trigger] elements[k]).properties.len() <= n
}

proof fn lemma_step_adds_one(line: Seq<char>, elements: Seq<ElementView>, seen: bool, n: int)
    requires
        0 <= n,
        properties_within(elements, n),
    ensures
        header_step(line, elements, seen) matches HeaderStep::Next { elements: after, .. }
            ==> properties_within(after, n + 1),
{
}

/// Parses the header. Gives it and the place where the payload starts.
pub fn parse_header(data: &[u8]) -> (r: Result<(PlyHeader, usize), PlyError>)
    ensures
        match header_of(data@) {
            Ok((elements, next)) => r matches Ok((h, n)) && h@ == elements && n == next && n
                <= data@.len() && properties_within(h@, n as int),
            Err(e) => r matches Err(x) && x@ == e,
        },
{
    let len: usize = data.len();
    assert(data@.len() == len);
    let (magic, next) = read_line(data, 0)?;
    if !same_text(trim_end(magic.as_str()), "ply") {
        return Err(PlyError::NotPly);
    }
    let mut elements: Vec<Element> = Vec::new();
    let mut seen: bool = false;
    let mut pos: usize = next;
    assert(element_views(elements@) =~= Seq::<ElementView>::empty());
    loop
        invariant
            len == data@.len(),
            pos <= len,
            properties_within(element_views(elements@), pos as int),
            header_of(data@) == header_from(
                data@,
                pos as int,
                element_views(elements@),
                seen,
            ),
        decreases len - pos,
    {
        let (line, next) = read_line(data, pos)?;
        let trimmed = trim_end(line.as_str());
        proof {
            lemma_step_adds_one(trimmed@, element_views(elements@), seen, pos as int);
        }
        match header_line(trimmed, &mut elements, seen)? {
            Line::Next(s) => {
                seen = s;
                pos = next;
            },
            Line::End => {
                if !seen {
                    return Err(bad_header("missing format line"));
                }
                return Ok((PlyHeader { elements }, next));
            },
        }
    }
}

} // verus!
