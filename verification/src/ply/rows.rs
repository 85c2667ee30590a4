//! What the rows of a file hold: each value is found by the name of its
//! column, whatever the order of the columns and whatever else a row holds.
use vstd::prelude::*;

use crate::ply::header::{ElementView, PropertyType, PropertyView};
use crate::ply::layout::{GaussianView, LayoutView, PointsView};
use crate::ply::reader::{RawColorView, RawPointView, RawSplatView};
use crate::ply::PlyErrorView;
use crate::wire::{low_first, stands_at};

verus! {

/// Bytes that a value of the type takes in a row.
pub open spec fn width(ty: PropertyType) -> int {
    if ty == PropertyType::Double {
        8
    } else if ty == PropertyType::Short || ty == PropertyType::UShort {
        2
    } else if ty == PropertyType::Char || ty == PropertyType::UChar {
        1
    } else {
        4
    }
}

/// Where column `i` starts in a row.
pub open spec fn start(props: Seq<PropertyView>, i: int) -> int
    decreases i,
{
    if i <= 0 {
        0
    } else {
        start(props, i - 1) + width(props[i - 1].ty)
    }
}

/// Column `i` is the first one of this name.
pub open spec fn is_first(props: Seq<PropertyView>, name: Seq<char>, i: int) -> bool {
    &&& 0 <= i < props.len()
    &&& props[i].name == name
    &&& forall|j: int| 0 <= j < i ==> (#[trigger] props[j]).name != name
}

/// No column has this name.
pub open spec fn lacks(props: Seq<PropertyView>, name: Seq<char>) -> bool {
    forall|j: int| 0 <= j < props.len() ==> (#[trigger] props[j]).name != name
}

/// Element `e` is the first one that holds vertices, and has no list.
pub open spec fn is_vertex(elements: Seq<ElementView>, e: int) -> bool {
    &&& 0 <= e < elements.len()
    &&& elements[e].name == "vertex"@
    &&& !elements[e].has_list_property
    &&& forall|j: int| 0 <= j < e ==> (#[trigger] elements[j]).name != "vertex"@
}

/// Column `i` of row `r` holds the word `w`, lowest byte first.
pub open spec fn holds(
    payload: Seq<u8>,
    props: Seq<PropertyView>,
    r: int,
    i: int,
    w: u32,
) -> bool {
    stands_at(
        payload,
        r * start(props, props.len() as int) + start(props, i),
        low_first(w as nat, 4),
    )
}

/// The payload is long enough for `count` rows.
pub open spec fn has_rows(payload: Seq<u8>, props: Seq<PropertyView>, count: int) -> bool {
    count * start(props, props.len() as int) <= payload.len()
}

proof fn lemma_start(props: Seq<PropertyView>, i: int)
    requires
        0 <= i <= props.len(),
    ensures
        crate::ply::header::row_bytes(props.take(i)) == start(props, i),
        0 <= start(props, i),
        i > 0 ==> start(props, i) > 0,
    decreases i,
{
    if i > 0 {
        lemma_start(props, i - 1);
        assert(props.take(i).drop_last() =~= props.take(i - 1));
    } else {
        assert(props.take(0).len() == 0);
    }
}

proof fn lemma_place(props: Seq<PropertyView>, name: Seq<char>, k: int, i: int)
    requires
        0 <= k <= i,
        is_first(props, name, i),
    ensures
        crate::ply::header::place_of(props, name, k) == i,
    decreases i - k,
{
    if k < i {
        lemma_place(props, name, k + 1, i);
    }
}

/// A row starts with its first column, each column starts where the one
/// before it ends, and a row ends with its last column. A name stands for the
/// first column that bears it, and for none where no column does.
pub proof fn columns_follow_one_another(props: Seq<PropertyView>, name: Seq<char>, i: int)
    ensures
        crate::ply::header::row_bytes(props) == start(props, props.len() as int),
        is_first(props, name, i) ==> crate::ply::header::offset_in(props, name) == Some(
            (start(props, i), props[i].ty),
        ),
        lacks(props, name) ==> crate::ply::header::offset_in(props, name) is None,
{
    lemma_start(props, props.len() as int);
    assert(props.take(props.len() as int) =~= props);
    if is_first(props, name, i) {
        lemma_place(props, name, 0, i);
        lemma_start(props, i);
    }
    if lacks(props, name) {
        crate::ply::header::lemma_place_of(props, name, 0);
    }
}

/// A name that states a number of bits stands for a type of so many bits,
/// and each plain name stands for the type of one that states its bits.
pub proof fn type_names_state_their_bits(bits: nat)
    requires
        bits == 8 || bits == 16 || bits == 32,
    ensures
        ({
            let signed = PropertyType::of_name("int"@ + crate::text::dec(bits));
            let unsigned = PropertyType::of_name("uint"@ + crate::text::dec(bits));
            &&& signed is Some && 8 * signed->0.bytes() == bits
            &&& unsigned is Some && 8 * unsigned->0.bytes() == bits
            &&& signed != unsigned
            &&& signed == PropertyType::of_name(
                if bits == 8 {
                    "char"@
                } else if bits == 16 {
                    "short"@
                } else {
                    "int"@
                },
            )
            &&& unsigned == PropertyType::of_name(
                if bits == 8 {
                    "uchar"@
                } else if bits == 16 {
                    "ushort"@
                } else {
                    "uint"@
                },
            )
        }),
{
    reveal_with_fuel(crate::text::dec, 3);
    reveal_strlit("int");
    reveal_strlit("uint");
    reveal_strlit("int8");
    reveal_strlit("int16");
    reveal_strlit("int32");
    reveal_strlit("uint8");
    reveal_strlit("uint16");
    reveal_strlit("uint32");
    reveal_strlit("char");
    reveal_strlit("uchar");
    reveal_strlit("short");
    reveal_strlit("ushort");
    reveal_strlit("float");
    reveal_strlit("float32");
    reveal_strlit("double");
    reveal_strlit("float64");
    lemma_letters();
    assert(crate::text::dec(8) =~= seq!['8']);
    assert(crate::text::dec(16) =~= seq!['1', '6']);
    assert(crate::text::dec(32) =~= seq!['3', '2']);
    assert("int"@ + seq!['8'] =~= "int8"@);
    assert("int"@ + seq!['1', '6'] =~= "int16"@);
    assert("int"@ + seq!['3', '2'] =~= "int32"@);
    assert("uint"@ + seq!['8'] =~= "uint8"@);
    assert("uint"@ + seq!['1', '6'] =~= "uint16"@);
    assert("uint"@ + seq!['3', '2'] =~= "uint32"@);
}

proof fn lemma_letters()
    ensures
        PropertyType::of_name("int8"@) == Some(PropertyType::Char),
        PropertyType::of_name("char"@) == Some(PropertyType::Char),
        PropertyType::of_name("uint8"@) == Some(PropertyType::UChar),
        PropertyType::of_name("uchar"@) == Some(PropertyType::UChar),
        PropertyType::of_name("int16"@) == Some(PropertyType::Short),
        PropertyType::of_name("short"@) == Some(PropertyType::Short),
        PropertyType::of_name("uint16"@) == Some(PropertyType::UShort),
        PropertyType::of_name("ushort"@) == Some(PropertyType::UShort),
        PropertyType::of_name("int32"@) == Some(PropertyType::Int),
        PropertyType::of_name("int"@) == Some(PropertyType::Int),
        PropertyType::of_name("uint32"@) == Some(PropertyType::UInt),
        PropertyType::of_name("uint"@) == Some(PropertyType::UInt),
        PropertyType::of_name("float"@) == Some(PropertyType::Float),
        PropertyType::of_name("float32"@) == Some(PropertyType::Float),
        PropertyType::of_name("double"@) == Some(PropertyType::Double),
        PropertyType::of_name("float64"@) == Some(PropertyType::Double),
{
    reveal_strlit("int");
    reveal_strlit("uint");
    reveal_strlit("int8");
    reveal_strlit("int16");
    reveal_strlit("int32");
    reveal_strlit("uint8");
    reveal_strlit("uint16");
    reveal_strlit("uint32");
    reveal_strlit("char");
    reveal_strlit("uchar");
    reveal_strlit("short");
    reveal_strlit("ushort");
    reveal_strlit("float");
    reveal_strlit("float32");
    reveal_strlit("double");
    reveal_strlit("float64");
    assert("int"@.len() == 3 && "uint"@.len() == 4 && "char"@.len() == 4 && "int8"@.len() == 4);
    assert("float"@.len() == 5 && "float32"@.len() == 7 && "double"@.len() == 6);
    assert("float"@[0] == 'f' && "short"@[0] == 's' && "uchar"@[0] == 'u' && "int16"@[0] == 'i'
        && "int32"@[0] == 'i' && "uint8"@[0] == 'u' && "uint8"@[1] == 'i' && "uchar"@[1] == 'c');
    assert("int16"@[3] == '1' && "int32"@[3] == '3');
    assert("char"@[0] == 'c' && "int8"@[0] == 'i' && "uint"@[0] == 'u');
    assert("double"@[0] == 'd' && "ushort"@[1] == 's' && "uint16"@[1] == 'i' && "uint32"@[1]
        == 'i');
    assert("uint16"@[4] == '1' && "uint32"@[4] == '3');
    assert("float32"@[5] == '3' && "float64"@[5] == '6');
}

/// A floating-point name that states its bits stands for a type of so many,
/// and the plain names stand for the two of them.
pub proof fn float_names_state_their_bits(bits: nat)
    requires
        bits == 32 || bits == 64,
    ensures
        ({
            let ty = PropertyType::of_name("float"@ + crate::text::dec(bits));
            &&& ty is Some && 8 * ty->0.bytes() == bits
            &&& ty == PropertyType::of_name(
                if bits == 32 {
                    "float"@
                } else {
                    "double"@
                },
            )
            &&& ty != PropertyType::of_name("int"@) && ty != PropertyType::of_name("uint"@)
        }),
{
    reveal_with_fuel(crate::text::dec, 3);
    lemma_letters();
    reveal_strlit("float");
    reveal_strlit("float32");
    reveal_strlit("float64");
    assert(crate::text::dec(32) =~= seq!['3', '2']);
    assert(crate::text::dec(64) =~= seq!['6', '4']);
    assert("float"@ + seq!['3', '2'] =~= "float32"@);
    assert("float"@ + seq!['6', '4'] =~= "float64"@);
}

proof fn lemma_vertex(elements: Seq<ElementView>, k: int, e: int)
    requires
        0 <= k <= e,
        is_vertex(elements, e),
    ensures
        crate::ply::header::element_place(elements, "vertex"@, k) == e,
    decreases e - k,
{
    if k < e {
        lemma_vertex(elements, k + 1, e);
    }
}

proof fn lemma_word(payload: Seq<u8>, props: Seq<PropertyView>, r: int, i: int, w: u32)
    requires
        holds(payload, props, r, i, w),
    ensures
        crate::ply::reader::word_at(
            payload,
            r * start(props, props.len() as int) + start(props, i),
        ) == w,
{
    crate::wire::lemma_four_low_first(
        payload,
        r * start(props, props.len() as int) + start(props, i),
        w,
    );
}

proof fn lemma_rows(payload: Seq<u8>, props: Seq<PropertyView>, count: int)
    requires
        props.len() > 0,
        has_rows(payload, props, count),
    ensures
        payload.len() as int / start(props, props.len() as int) >= count,
{
    lemma_start(props, props.len() as int);
    let n = payload.len() as int;
    let d = start(props, props.len() as int);
    assert(n / d >= count) by (nonlinear_arith)
        requires
            d > 0,
            count * d <= n,
    ;
}

/// Columns `at` are the first ones named `x`, `y` and `z`, all single floats,
/// and no column holds harmonics.
pub open spec fn has_points(props: Seq<PropertyView>, at: Seq<int>) -> bool {
    &&& at.len() == 3
    &&& is_first(props, "x"@, at[0])
    &&& is_first(props, "y"@, at[1])
    &&& is_first(props, "z"@, at[2])
    &&& forall|k: int| 0 <= k < 3 ==> props[#[trigger] at[k]].ty == PropertyType::Float
    &&& lacks(props, "f_dc_0"@)
}

/// Columns `at` are the first ones named `red`, `green` and `blue`.
pub open spec fn has_colors(props: Seq<PropertyView>, at: Seq<int>) -> bool {
    &&& at.len() == 3
    &&& is_first(props, "red"@, at[0])
    &&& is_first(props, "green"@, at[1])
    &&& is_first(props, "blue"@, at[2])
}

/// Every row holds its three words in the columns `at`.
pub open spec fn rows_hold(
    payload: Seq<u8>,
    props: Seq<PropertyView>,
    at: Seq<int>,
    words: Seq<Seq<u32>>,
) -> bool {
    forall|r: int, k: int|
        0 <= r < words.len() && 0 <= k < 3 ==> #[trigger] holds(
            payload,
            props,
            r,
            at[k],
            words[r][k],
        )
}

/// A file with these elements and this payload holds these points.
pub open spec fn reads_as_points(
    elements: Seq<ElementView>,
    payload: Seq<u8>,
    points: Seq<RawPointView>,
) -> bool {
    crate::ply::layout::layout_in(elements) matches Ok(LayoutView::Points(p))
        && crate::ply::reader::points_in(payload, p) == Ok::<Seq<RawPointView>, PlyErrorView>(
        points,
    )
}

proof fn lemma_points(elements: Seq<ElementView>, e: int, at: Seq<int>)
    requires
        is_vertex(elements, e),
        has_points(elements[e].properties, at),
        crate::ply::layout::color_in(elements[e].properties) is Ok,
    ensures
        ({
            let props = elements[e].properties;
            &&& crate::ply::layout::layout_in(elements) == Ok::<LayoutView, PlyErrorView>(
                LayoutView::Points(
                    PointsView {
                        count: elements[e].count,
                        stride: start(props, props.len() as int),
                        pos: seq![start(props, at[0]), start(props, at[1]), start(props, at[2])],
                        color: crate::ply::layout::color_in(props)->Ok_0,
                    },
                ),
            )
        }),
{
    let props = elements[e].properties;
    let names = seq!["x"@, "y"@, "z"@];
    lemma_vertex(elements, 0, e);
    columns_follow_one_another(props, "f_dc_0"@, 0);
    columns_follow_one_another(props, "x"@, at[0]);
    columns_follow_one_another(props, "y"@, at[1]);
    columns_follow_one_another(props, "z"@, at[2]);
    reveal_with_fuel(crate::ply::layout::float_offsets_in, 4);
    assert(names[0] == "x"@ && names[1] == "y"@ && names[2] == "z"@);
    assert(props[at[0]].ty == PropertyType::Float);
    assert(props[at[1]].ty == PropertyType::Float);
    assert(props[at[2]].ty == PropertyType::Float);
    assert(crate::ply::layout::float_offsets_in(props, names, 1) == Ok::<Seq<int>, PlyErrorView>(
        Seq::<int>::empty().push(start(props, at[0])),
    ));
    assert(crate::ply::layout::float_offsets_in(props, names, 2) == Ok::<Seq<int>, PlyErrorView>(
        Seq::<int>::empty().push(start(props, at[0])).push(start(props, at[1])),
    ));
    assert(Seq::<int>::empty().push(start(props, at[0])).push(start(props, at[1])).push(
        start(props, at[2]),
    ) =~= seq![start(props, at[0]), start(props, at[1]), start(props, at[2])]);
}


proof fn lemma_positions(
    payload: Seq<u8>,
    props: Seq<PropertyView>,
    at: Seq<int>,
    words: Seq<Seq<u32>>,
    r: int,
)
    requires
        0 <= r < words.len(),
        words[r].len() == 3,
        at.len() == 3,
        rows_hold(payload, props, at, words),
    ensures
        crate::ply::reader::row_words(
            payload,
            r,
            start(props, props.len() as int),
            seq![start(props, at[0]), start(props, at[1]), start(props, at[2])],
        ) == words[r],
{
    let offsets = seq![start(props, at[0]), start(props, at[1]), start(props, at[2])];
    let got = crate::ply::reader::row_words(
        payload,
        r,
        start(props, props.len() as int),
        offsets,
    );
    assert forall|k: int| 0 <= k < 3 implies got[k] == words[r][k] by {
        assert(holds(payload, props, r, at[k], words[r][k]));
        lemma_word(payload, props, r, at[k], words[r][k]);
        assert(offsets[k] == start(props, at[k]));
    }
    assert(got =~= words[r]);
}

/// A point is read from the columns named `x`, `y` and `z`, whatever stands
/// between them. Without a column for one of the three colours it has none,
/// and it has none where the three are of different types.
pub proof fn points_are_read_by_name(
    elements: Seq<ElementView>,
    e: int,
    at: Seq<int>,
    colors: Seq<int>,
    payload: Seq<u8>,
    words: Seq<Seq<u32>>,
)
    requires
        is_vertex(elements, e),
        has_points(elements[e].properties, at),
        lacks(elements[e].properties, "red"@) || lacks(elements[e].properties, "green"@) || lacks(
            elements[e].properties,
            "blue"@,
        ) || (has_colors(elements[e].properties, colors) && (elements[e].properties[colors[0]].ty
            != elements[e].properties[colors[1]].ty || elements[e].properties[colors[0]].ty
            != elements[e].properties[colors[2]].ty)),
        words.len() == elements[e].count,
        has_rows(payload, elements[e].properties, words.len() as int),
        forall|r: int| 0 <= r < words.len() ==> (#[trigger] words[r]).len() == 3,
        rows_hold(payload, elements[e].properties, at, words),
    ensures
        reads_as_points(
            elements,
            payload,
            Seq::new(
                words.len(),
                |r: int| RawPointView { position: words[r], color: RawColorView::Absent },
            ),
        ),
{
    let props = elements[e].properties;
    columns_follow_one_another(props, "red"@, colors[0]);
    columns_follow_one_another(props, "green"@, colors[1]);
    columns_follow_one_another(props, "blue"@, colors[2]);
    assert(crate::ply::layout::color_in(props) == Ok::<
        Option<(Seq<int>, PropertyType)>,
        PlyErrorView,
    >(None));
    lemma_points(elements, e, at);
    lemma_rows(payload, props, words.len() as int);
    let want = Seq::new(
        words.len(),
        |r: int| RawPointView { position: words[r], color: RawColorView::Absent },
    );
    let p = crate::ply::layout::layout_in(elements)->Ok_0->Points_0;
    let got = crate::ply::reader::points_in(payload, p)->Ok_0;
    assert forall|r: int| 0 <= r < words.len() implies got[r] == want[r] by {
        lemma_positions(payload, props, at, words, r);
    }
    assert(got =~= want);
}

/// Colours in three columns of bytes are the bytes of those columns, in the
/// order red, green, blue.
pub proof fn byte_colors_are_read_by_name(
    elements: Seq<ElementView>,
    e: int,
    at: Seq<int>,
    colors: Seq<int>,
    payload: Seq<u8>,
    words: Seq<Seq<u32>>,
    shades: Seq<Seq<u8>>,
)
    requires
        is_vertex(elements, e),
        has_points(elements[e].properties, at),
        has_colors(elements[e].properties, colors),
        forall|k: int|
            0 <= k < 3 ==> elements[e].properties[#[trigger] colors[k]].ty == PropertyType::UChar,
        words.len() == elements[e].count,
        shades.len() == elements[e].count,
        has_rows(payload, elements[e].properties, words.len() as int),
        forall|r: int| 0 <= r < words.len() ==> (#[trigger] words[r]).len() == 3,
        forall|r: int| 0 <= r < shades.len() ==> (#[trigger] shades[r]).len() == 3,
        rows_hold(payload, elements[e].properties, at, words),
        forall|r: int, k: int|
            0 <= r < shades.len() && 0 <= k < 3 ==> payload[r * start(
                elements[e].properties,
                elements[e].properties.len() as int,
            ) + start(elements[e].properties, #[trigger] colors[k])] == (#[trigger] shades[r])[k],
    ensures
        reads_as_points(
            elements,
            payload,
            Seq::new(
                words.len(),
                |r: int|
                    RawPointView { position: words[r], color: RawColorView::Bytes(shades[r]) },
            ),
        ),
{
    let props = elements[e].properties;
    columns_follow_one_another(props, "red"@, colors[0]);
    columns_follow_one_another(props, "green"@, colors[1]);
    columns_follow_one_another(props, "blue"@, colors[2]);
    let places = seq![start(props, colors[0]), start(props, colors[1]), start(props, colors[2])];
    assert(props[colors[0]].ty == PropertyType::UChar);
    assert(props[colors[1]].ty == PropertyType::UChar);
    assert(props[colors[2]].ty == PropertyType::UChar);
    assert(crate::ply::layout::color_in(props) == Ok::<
        Option<(Seq<int>, PropertyType)>,
        PlyErrorView,
    >(Some((places, PropertyType::UChar))));
    lemma_points(elements, e, at);
    lemma_rows(payload, props, words.len() as int);
    let want = Seq::new(
        words.len(),
        |r: int| RawPointView { position: words[r], color: RawColorView::Bytes(shades[r]) },
    );
    let p = crate::ply::layout::layout_in(elements)->Ok_0->Points_0;
    let got = crate::ply::reader::points_in(payload, p)->Ok_0;
    assert forall|r: int| 0 <= r < words.len() implies got[r] == want[r] by {
        lemma_positions(payload, props, at, words, r);
        let bytes = Seq::new(3, |k: int| payload[r * p.stride + places[k]]);
        assert forall|k: int| 0 <= k < 3 implies bytes[k] == shades[r][k] by {
            assert(places[k] == start(props, colors[k]));
        }
        assert(bytes =~= shades[r]);
    }
    assert(got =~= want);
}

/// Colours in three columns of single floats are the words of those columns,
/// in the order red, green, blue.
pub proof fn float_colors_are_read_by_name(
    elements: Seq<ElementView>,
    e: int,
    at: Seq<int>,
    colors: Seq<int>,
    payload: Seq<u8>,
    words: Seq<Seq<u32>>,
    shades: Seq<Seq<u32>>,
)
    requires
        is_vertex(elements, e),
        has_points(elements[e].properties, at),
        has_colors(elements[e].properties, colors),
        forall|k: int|
            0 <= k < 3 ==> elements[e].properties[#[trigger] colors[k]].ty == PropertyType::Float,
        words.len() == elements[e].count,
        shades.len() == elements[e].count,
        has_rows(payload, elements[e].properties, words.len() as int),
        forall|r: int| 0 <= r < words.len() ==> (#[trigger] words[r]).len() == 3,
        forall|r: int| 0 <= r < shades.len() ==> (#[trigger] shades[r]).len() == 3,
        rows_hold(payload, elements[e].properties, at, words),
        rows_hold(payload, elements[e].properties, colors, shades),
    ensures
        reads_as_points(
            elements,
            payload,
            Seq::new(
                words.len(),
                |r: int|
                    RawPointView { position: words[r], color: RawColorView::Floats(shades[r]) },
            ),
        ),
{
    let props = elements[e].properties;
    columns_follow_one_another(props, "red"@, colors[0]);
    columns_follow_one_another(props, "green"@, colors[1]);
    columns_follow_one_another(props, "blue"@, colors[2]);
    let places = seq![start(props, colors[0]), start(props, colors[1]), start(props, colors[2])];
    assert(props[colors[0]].ty == PropertyType::Float);
    assert(props[colors[1]].ty == PropertyType::Float);
    assert(props[colors[2]].ty == PropertyType::Float);
    assert(crate::ply::layout::color_in(props) == Ok::<
        Option<(Seq<int>, PropertyType)>,
        PlyErrorView,
    >(Some((places, PropertyType::Float))));
    lemma_points(elements, e, at);
    lemma_rows(payload, props, words.len() as int);
    let want = Seq::new(
        words.len(),
        |r: int| RawPointView { position: words[r], color: RawColorView::Floats(shades[r]) },
    );
    let p = crate::ply::layout::layout_in(elements)->Ok_0->Points_0;
    let got = crate::ply::reader::points_in(payload, p)->Ok_0;
    assert forall|r: int| 0 <= r < words.len() implies got[r] == want[r] by {
        lemma_positions(payload, props, at, words, r);
        lemma_positions(payload, props, colors, shades, r);
    }
    assert(got =~= want);
}

/// Without an element of vertices a file is refused, as it is where the first
/// such element holds lists. Columns that hold neither harmonics nor an `x`
/// are refused, and so is an `x` that is not a single float, and a colour in
/// three columns of one type that is neither bytes nor single floats.
pub proof fn other_layouts_are_refused(
    elements: Seq<ElementView>,
    e: int,
    at: Seq<int>,
    colors: Seq<int>,
)
    ensures
        (forall|j: int|
            0 <= j < elements.len() ==> (#[trigger] elements[j]).name != "vertex"@)
            ==> crate::ply::layout::layout_in(elements) == Err::<LayoutView, PlyErrorView>(
            PlyErrorView::NoVertexElement,
        ),
        0 <= e < elements.len() && is_vertex(
            elements.update(e, ElementView { has_list_property: false, ..elements[e] }),
            e,
        ) && elements[e].has_list_property ==> crate::ply::layout::layout_in(elements) == Err::<
            LayoutView,
            PlyErrorView,
        >(PlyErrorView::BadHeader("vertex element has list properties"@)),
        is_vertex(elements, e) && lacks(elements[e].properties, "f_dc_0"@) && lacks(
            elements[e].properties,
            "x"@,
        ) ==> crate::ply::layout::layout_in(elements) matches Err(PlyErrorView::UnknownLayout { .. }),
        is_vertex(elements, e) && lacks(elements[e].properties, "f_dc_0"@) && at.len() == 3
            && is_first(elements[e].properties, "x"@, at[0]) && elements[e].properties[at[0]].ty
            != PropertyType::Float ==> crate::ply::layout::layout_in(elements) == Err::<
            LayoutView,
            PlyErrorView,
        >(PlyErrorView::BadPropertyType("x"@)),
        is_vertex(elements, e) && has_points(elements[e].properties, at) && has_colors(
            elements[e].properties,
            colors,
        ) && elements[e].properties[colors[0]].ty == elements[e].properties[colors[1]].ty
            && elements[e].properties[colors[0]].ty == elements[e].properties[colors[2]].ty
            && elements[e].properties[colors[0]].ty != PropertyType::Float
            && elements[e].properties[colors[0]].ty != PropertyType::UChar
            ==> crate::ply::layout::layout_in(elements) == Err::<LayoutView, PlyErrorView>(
            PlyErrorView::BadPropertyType("red"@),
        ),
{
    if forall|j: int| 0 <= j < elements.len() ==> (#[trigger] elements[j]).name != "vertex"@ {
        lemma_no_vertex(elements, 0);
    }
    if 0 <= e < elements.len() && is_vertex(
        elements.update(e, ElementView { has_list_property: false, ..elements[e] }),
        e,
    ) && elements[e].has_list_property {
        let other = elements.update(e, ElementView { has_list_property: false, ..elements[e] });
        assert forall|j: int| 0 <= j < e implies (#[trigger] elements[j]).name != "vertex"@ by {
            assert(other[j] == elements[j]);
        }
        lemma_list_vertex(elements, 0, e);
    }
    if is_vertex(elements, e) {
        let props = elements[e].properties;
        lemma_vertex(elements, 0, e);
        columns_follow_one_another(props, "f_dc_0"@, 0);
        columns_follow_one_another(props, "x"@, at[0]);
        columns_follow_one_another(props, "y"@, at[1]);
        columns_follow_one_another(props, "z"@, at[2]);
        columns_follow_one_another(props, "red"@, colors[0]);
        columns_follow_one_another(props, "green"@, colors[1]);
        columns_follow_one_another(props, "blue"@, colors[2]);
        let names = seq!["x"@, "y"@, "z"@];
        assert(names[0] == "x"@ && names[1] == "y"@ && names[2] == "z"@);
        reveal_with_fuel(crate::ply::layout::float_offsets_in, 4);
        if has_points(props, at) {
            assert(props[at[0]].ty == PropertyType::Float);
            assert(props[at[1]].ty == PropertyType::Float);
            assert(props[at[2]].ty == PropertyType::Float);
        }
    }
}

proof fn lemma_no_vertex(elements: Seq<ElementView>, k: int)
    requires
        0 <= k <= elements.len(),
        forall|j: int| 0 <= j < elements.len() ==> (#[trigger] elements[j]).name != "vertex"@,
    ensures
        crate::ply::header::element_place(elements, "vertex"@, k) == elements.len(),
    decreases elements.len() - k,
{
    if k < elements.len() {
        lemma_no_vertex(elements, k + 1);
    }
}

proof fn lemma_list_vertex(elements: Seq<ElementView>, k: int, e: int)
    requires
        0 <= k <= e < elements.len(),
        elements[e].name == "vertex"@,
        forall|j: int| 0 <= j < e ==> (#[trigger] elements[j]).name != "vertex"@,
    ensures
        crate::ply::header::element_place(elements, "vertex"@, k) == e,
    decreases e - k,
{
    if k < e {
        lemma_list_vertex(elements, k + 1, e);
    }
}

/// A payload with fewer whole rows than the header announces is refused, with
/// the number announced and the number of whole rows.
pub proof fn short_payloads_are_refused(
    payload: Seq<u8>,
    p: PointsView,
    g: GaussianView,
    rows: usize,
)
    ensures
        p.stride > 0 && rows < p.count && rows * p.stride <= payload.len() < (rows + 1) * p.stride
            ==> crate::ply::reader::points_in(payload, p) == Err::<
            Seq<RawPointView>,
            PlyErrorView,
        >(PlyErrorView::UnexpectedEof { expected: p.count, got: rows }),
        g.stride > 0 && rows < g.count && rows * g.stride <= payload.len() < (rows + 1) * g.stride
            ==> crate::ply::reader::splats_in(payload, g) == Err::<
            Seq<RawSplatView>,
            PlyErrorView,
        >(PlyErrorView::UnexpectedEof { expected: g.count, got: rows }),
{
    let n = payload.len() as int;
    if p.stride > 0 && rows * p.stride <= n < (rows + 1) * p.stride {
        lemma_whole_rows(n, p.stride, rows as int);
    }
    if g.stride > 0 && rows * g.stride <= n < (rows + 1) * g.stride {
        lemma_whole_rows(n, g.stride, rows as int);
    }
}

proof fn lemma_whole_rows(n: int, d: int, rows: int)
    requires
        d > 0,
        rows * d <= n < (rows + 1) * d,
    ensures
        n / d == rows,
{
    assert(n / d == rows) by (nonlinear_arith)
        requires
            d > 0,
            rows * d <= n < (rows + 1) * d,
    ;
}

// ---- splats ----

/// The columns whose name starts as that of a further harmonic does.
pub open spec fn rest_columns(props: Seq<PropertyView>) -> Seq<PropertyView> {
    props.filter(
        |p: PropertyView| p.name.len() >= 7 && p.name.subrange(0, 7) == "f_rest_"@,
    )
}

/// The name of further harmonic `j`.
pub open spec fn rest_name(j: int) -> Seq<char> {
    "f_rest_"@ + crate::text::dec(j as nat)
}

/// The column of this name that `at` gives is the first one, of single floats.
pub open spec fn is_column(
    props: Seq<PropertyView>,
    at: spec_fn(Seq<char>) -> int,
    name: Seq<char>,
) -> bool {
    is_first(props, name, at(name)) && props[at(name)].ty == PropertyType::Float
}

/// The columns of splats with `n` further harmonics in each channel.
pub open spec fn has_splats(
    props: Seq<PropertyView>,
    at: spec_fn(Seq<char>) -> int,
    n: int,
) -> bool {
    &&& is_column(props, at, "x"@)
    &&& is_column(props, at, "y"@)
    &&& is_column(props, at, "z"@)
    &&& is_column(props, at, "f_dc_0"@)
    &&& is_column(props, at, "f_dc_1"@)
    &&& is_column(props, at, "f_dc_2"@)
    &&& forall|j: int| 0 <= j < 3 * n ==> is_column(props, at, #[trigger] rest_name(j))
    &&& is_column(props, at, "opacity"@)
    &&& is_column(props, at, "scale_0"@)
    &&& is_column(props, at, "scale_1"@)
    &&& is_column(props, at, "scale_2"@)
    &&& is_column(props, at, "rot_0"@)
    &&& is_column(props, at, "rot_1"@)
    &&& is_column(props, at, "rot_2"@)
    &&& is_column(props, at, "rot_3"@)
    &&& rest_columns(props).len() == 3 * n
}

/// Row `r` holds the splat: further harmonic `k` of channel `c` in the column
/// numbered channel after channel, the scalar part of the rotation in `rot_0`.
pub open spec fn row_holds(
    payload: Seq<u8>,
    props: Seq<PropertyView>,
    at: spec_fn(Seq<char>) -> int,
    n: int,
    r: int,
    s: RawSplatView,
) -> bool {
    &&& s.position.len() == 3
    &&& s.sh.len() == 3 * (n + 1)
    &&& s.scale.len() == 3
    &&& s.rotation.len() == 4
    &&& holds(payload, props, r, at("x"@), s.position[0])
    &&& holds(payload, props, r, at("y"@), s.position[1])
    &&& holds(payload, props, r, at("z"@), s.position[2])
    &&& holds(payload, props, r, at("f_dc_0"@), s.sh[0])
    &&& holds(payload, props, r, at("f_dc_1"@), s.sh[1])
    &&& holds(payload, props, r, at("f_dc_2"@), s.sh[2])
    &&& forall|c: int, k: int|
        0 <= c < 3 && 1 <= k <= n ==> holds(
            payload,
            props,
            r,
            at(rest_name(c * n + (k - 1))),
            #[trigger] s.sh[3 * k + c],
        )
    &&& holds(payload, props, r, at("opacity"@), s.opacity)
    &&& holds(payload, props, r, at("scale_0"@), s.scale[0])
    &&& holds(payload, props, r, at("scale_1"@), s.scale[1])
    &&& holds(payload, props, r, at("scale_2"@), s.scale[2])
    &&& holds(payload, props, r, at("rot_0"@), s.rotation[3])
    &&& holds(payload, props, r, at("rot_1"@), s.rotation[0])
    &&& holds(payload, props, r, at("rot_2"@), s.rotation[1])
    &&& holds(payload, props, r, at("rot_3"@), s.rotation[2])
}

proof fn lemma_rest_columns(props: Seq<PropertyView>)
    ensures
        crate::ply::layout::rest_count(props) == rest_columns(props).len(),
    decreases props.len(),
{
    reveal(Seq::filter);
    if props.len() > 0 {
        lemma_rest_columns(props.drop_last());
        let name = props.last().name;
        if name.len() >= 7 {
            assert(name.take(7) =~= name.subrange(0, 7));
        }
    }
}

proof fn lemma_offsets(
    props: Seq<PropertyView>,
    at: spec_fn(Seq<char>) -> int,
    names: Seq<Seq<char>>,
    n: int,
)
    requires
        0 <= n <= names.len(),
        forall|i: int| 0 <= i < n ==> is_column(props, at, #[trigger] names[i]),
    ensures
        crate::ply::layout::float_offsets_in(props, names, n) == Ok::<Seq<int>, PlyErrorView>(
            Seq::new(n as nat, |i: int| start(props, at(names[i]))),
        ),
    decreases n,
{
    let list = Seq::new(n as nat, |i: int| start(props, at(names[i])));
    if n > 0 {
        lemma_offsets(props, at, names, n - 1);
        let name = names[n - 1];
        assert(is_column(props, at, name));
        columns_follow_one_another(props, name, at(name));
        let before = Seq::new((n - 1) as nat, |i: int| start(props, at(names[i])));
        assert(before.push(start(props, at(name))) =~= list);
    } else {
        assert(list =~= Seq::empty());
    }
}

/// The names of the columns of a splat, in canonical order.
spec fn names_of(n: int) -> Seq<Seq<char>> {
    seq!["x"@, "y"@, "z"@, "f_dc_0"@, "f_dc_1"@, "f_dc_2"@] + Seq::new(
        (3 * n) as nat,
        |j: int| rest_name(j),
    ) + seq![
        "opacity"@,
        "scale_0"@,
        "scale_1"@,
        "scale_2"@,
        "rot_0"@,
        "rot_1"@,
        "rot_2"@,
        "rot_3"@,
    ]
}

proof fn lemma_splat_layout(
    elements: Seq<ElementView>,
    e: int,
    at: spec_fn(Seq<char>) -> int,
    degree: u8,
    n: int,
)
    requires
        is_vertex(elements, e),
        (degree == 0 && n == 0) || (degree == 1 && n == 3) || (degree == 2 && n == 8) || (degree
            == 3 && n == 15),
        has_splats(elements[e].properties, at, n),
    ensures
        crate::ply::layout::layout_in(elements) matches Ok(LayoutView::Gaussian3d(g)) && g.count
            == elements[e].count && g.stride == start(
            elements[e].properties,
            elements[e].properties.len() as int,
        ) && g.sh_degree == degree && g.offsets == Seq::new(
            (14 + 3 * n) as nat,
            |i: int| start(elements[e].properties, at(names_of(n)[i])),
        ),
{
    let props = elements[e].properties;
    let head = crate::ply::layout::head_names();
    let tail = crate::ply::layout::rest_names(3 * n) + crate::ply::layout::end_names();
    lemma_vertex(elements, 0, e);
    lemma_rest_columns(props);
    columns_follow_one_another(props, "f_dc_0"@, at("f_dc_0"@));
    assert forall|i: int| 0 <= i < 6 implies is_column(props, at, #[trigger] head[i]) by {
    }
    lemma_offsets(props, at, head, 6);
    assert forall|i: int| 0 <= i < 3 * n + 8 implies is_column(props, at, #[trigger] tail[i]) by {
        if i < 3 * n {
            assert(tail[i] == rest_name(i));
        } else {
            assert(tail[i] == crate::ply::layout::end_names()[i - 3 * n]);
        }
    }
    lemma_offsets(props, at, tail, 3 * n + 8);
    let all = Seq::new((14 + 3 * n) as nat, |i: int| start(props, at(names_of(n)[i])));
    let joined = Seq::new(6, |i: int| start(props, at(head[i]))) + Seq::new(
        (3 * n + 8) as nat,
        |i: int| start(props, at(tail[i])),
    );
    assert forall|i: int| 0 <= i < 14 + 3 * n implies all[i] == joined[i] by {
        if i < 6 {
            assert(names_of(n)[i] == head[i]);
        } else {
            assert(names_of(n)[i] == tail[i - 6]);
        }
    }
    assert(all =~= joined);
}

proof fn lemma_splat_row(
    payload: Seq<u8>,
    props: Seq<PropertyView>,
    at: spec_fn(Seq<char>) -> int,
    n: int,
    r: int,
    s: RawSplatView,
)
    requires
        n >= 0,
        row_holds(payload, props, at, n, r, s),
    ensures
        crate::ply::reader::splat_of(
            crate::ply::reader::row_words(
                payload,
                r,
                start(props, props.len() as int),
                Seq::new((14 + 3 * n) as nat, |i: int| start(props, at(names_of(n)[i]))),
            ),
            n + 1,
        ) == s,
{
    let names = names_of(n);
    let offsets = Seq::new((14 + 3 * n) as nat, |i: int| start(props, at(names[i])));
    let w = crate::ply::reader::row_words(
        payload,
        r,
        start(props, props.len() as int),
        offsets,
    );
    let got = crate::ply::reader::splat_of(w, n + 1);
    assert(names[0] == "x"@ && names[1] == "y"@ && names[2] == "z"@);
    assert(names[3] == "f_dc_0"@ && names[4] == "f_dc_1"@ && names[5] == "f_dc_2"@);
    assert(names[6 + 3 * n] == "opacity"@);
    assert(names[7 + 3 * n] == "scale_0"@ && names[8 + 3 * n] == "scale_1"@ && names[9 + 3 * n]
        == "scale_2"@);
    assert(names[10 + 3 * n] == "rot_0"@ && names[11 + 3 * n] == "rot_1"@ && names[12 + 3 * n]
        == "rot_2"@ && names[13 + 3 * n] == "rot_3"@);
    lemma_word(payload, props, r, at("x"@), s.position[0]);
    lemma_word(payload, props, r, at("y"@), s.position[1]);
    lemma_word(payload, props, r, at("z"@), s.position[2]);
    lemma_word(payload, props, r, at("f_dc_0"@), s.sh[0]);
    lemma_word(payload, props, r, at("f_dc_1"@), s.sh[1]);
    lemma_word(payload, props, r, at("f_dc_2"@), s.sh[2]);
    lemma_word(payload, props, r, at("opacity"@), s.opacity);
    lemma_word(payload, props, r, at("scale_0"@), s.scale[0]);
    lemma_word(payload, props, r, at("scale_1"@), s.scale[1]);
    lemma_word(payload, props, r, at("scale_2"@), s.scale[2]);
    lemma_word(payload, props, r, at("rot_0"@), s.rotation[3]);
    lemma_word(payload, props, r, at("rot_1"@), s.rotation[0]);
    lemma_word(payload, props, r, at("rot_2"@), s.rotation[1]);
    lemma_word(payload, props, r, at("rot_3"@), s.rotation[2]);
    assert(got.position =~= s.position);
    assert(got.scale =~= s.scale);
    assert(got.rotation =~= s.rotation);
    let dc = w.subrange(3, 6);
    let rest = w.subrange(6, 6 + 3 * n);
    assert forall|i: int| 0 <= i < 3 * (n + 1) implies got.sh[i] == s.sh[i] by {
        if i < 3 {
            assert(dc[i] == w[3 + i]);
        } else {
            let c = i % 3;
            let k = i / 3;
            let j = c * n + (k - 1);
            assert(0 <= j < 3 * n) by (nonlinear_arith)
                requires
                    0 <= c < 3,
                    1 <= k <= n,
                    j == c * n + (k - 1),
            ;
            assert(s.sh[3 * k + c] == s.sh[i]);
            assert(rest[j] == w[6 + j]);
            assert(names[6 + j] == rest_name(j));
            lemma_word(payload, props, r, at(rest_name(j)), s.sh[i]);
        }
    }
    assert(got.sh =~= s.sh);
}

/// A splat is read from the columns that bear the names of its values,
/// whatever their order and whatever stands between them. The number of
/// further harmonics tells the degree.
pub proof fn splats_are_read_by_name(
    elements: Seq<ElementView>,
    e: int,
    at: spec_fn(Seq<char>) -> int,
    degree: u8,
    n: int,
    payload: Seq<u8>,
    splats: Seq<RawSplatView>,
)
    requires
        is_vertex(elements, e),
        degree <= 3,
        n + 1 == (degree + 1) * (degree + 1),
        has_splats(elements[e].properties, at, n),
        splats.len() == elements[e].count,
        has_rows(payload, elements[e].properties, splats.len() as int),
        forall|r: int|
            0 <= r < splats.len() ==> row_holds(
                payload,
                elements[e].properties,
                at,
                n,
                r,
                #[trigger] splats[r],
            ),
    ensures
        crate::ply::layout::layout_in(elements) matches Ok(LayoutView::Gaussian3d(g))
            && g.sh_degree == degree && crate::ply::reader::splats_in(payload, g) == Ok::<
            Seq<RawSplatView>,
            PlyErrorView,
        >(splats),
{
    let props = elements[e].properties;
    assert((degree == 0 && n == 0) || (degree == 1 && n == 3) || (degree == 2 && n == 8) || (degree
        == 3 && n == 15)) by (nonlinear_arith)
        requires
            0 <= degree <= 3,
            n + 1 == (degree + 1) * (degree + 1),
    ;
    lemma_splat_layout(elements, e, at, degree, n);
    lemma_rows(payload, props, splats.len() as int);
    assert(crate::sh::coeffs_of(degree as int) == n + 1);
    let g = crate::ply::layout::layout_in(elements)->Ok_0->Gaussian3d_0;
    let got = crate::ply::reader::splats_in(payload, g)->Ok_0;
    assert forall|r: int| 0 <= r < splats.len() implies got[r] == splats[r] by {
        lemma_splat_row(payload, props, at, n, r, splats[r]);
    }
    assert(got =~= splats);
}

/// Columns of splats are refused where the number of further harmonics fits
/// no degree, where the column `x` is missing, and where the first harmonic is
/// not of single floats.
pub proof fn other_splats_are_refused(
    elements: Seq<ElementView>,
    e: int,
    at: spec_fn(Seq<char>) -> int,
    first: int,
    n: int,
)
    requires
        is_vertex(elements, e),
        is_first(elements[e].properties, "f_dc_0"@, first),
    ensures
        is_column(elements[e].properties, at, "x"@) && is_column(
            elements[e].properties,
            at,
            "y"@,
        ) && is_column(elements[e].properties, at, "z"@) && is_column(
            elements[e].properties,
            at,
            "f_dc_0"@,
        ) && is_column(elements[e].properties, at, "f_dc_1"@) && is_column(
            elements[e].properties,
            at,
            "f_dc_2"@,
        ) && n == rest_columns(elements[e].properties).len() && n != 0 && n != 9 && n != 24 && n
            != 45 ==> crate::ply::layout::layout_in(elements) == Err::<LayoutView, PlyErrorView>(
            PlyErrorView::BadShCount(n as usize),
        ),
        lacks(elements[e].properties, "x"@) ==> crate::ply::layout::layout_in(elements) matches Err(
            PlyErrorView::UnknownLayout { .. },
        ),
        is_column(elements[e].properties, at, "x"@) && is_column(
            elements[e].properties,
            at,
            "y"@,
        ) && is_column(elements[e].properties, at, "z"@)
            && elements[e].properties[first].ty != PropertyType::Float
            ==> crate::ply::layout::layout_in(elements) == Err::<LayoutView, PlyErrorView>(
            PlyErrorView::BadPropertyType("f_dc_0"@),
        ),
{
    let props = elements[e].properties;
    let head = crate::ply::layout::head_names();
    lemma_vertex(elements, 0, e);
    lemma_rest_columns(props);
    columns_follow_one_another(props, "f_dc_0"@, first);
    columns_follow_one_another(props, "x"@, at("x"@));
    assert(head[0] == "x"@ && head[1] == "y"@ && head[2] == "z"@ && head[3] == "f_dc_0"@ && head[4]
        == "f_dc_1"@ && head[5] == "f_dc_2"@);
    reveal_with_fuel(crate::ply::layout::float_offsets_in, 7);
    if is_column(props, at, "x"@) && is_column(props, at, "y"@) && is_column(props, at, "z"@) {
        lemma_offsets(props, at, head, 3);
        if is_column(props, at, "f_dc_0"@) && is_column(props, at, "f_dc_1"@) && is_column(
            props,
            at,
            "f_dc_2"@,
        ) {
            lemma_offsets(props, at, head, 6);
        }
    }
}

} // verus!
