//! What the rows of a vertex element hold: gaussian splats, plain coloured
//! points, or something that is not supported.
use vstd::prelude::*;
use vstd::string::{StrSliceExecFns, StringExecFns};

use crate::ply::header::{Element, PlyHeader, PropertyType};
use crate::ply::{bad_header, PlyError, PlyErrorView};
use crate::sh::degree_from_rest_count;
use crate::text::with_number;
use crate::words::same_text;

verus! {

#[derive(Debug)]
pub enum Layout {
    Gaussian3d(GaussianLayout),
    Points(PointsLayout),
}

/// Byte offsets within one vertex row of every property that the splat reader
/// needs. Reordered or extra properties are tolerated; `fast_path` is set when
/// the row is byte-identical to the canonical order.
#[derive(Debug)]
pub struct GaussianLayout {
    pub count: usize,
    pub stride: usize,
    pub sh_degree: u8,
    pub fast_path: bool,
    pub pos: [usize; 3],
    pub f_dc: [usize; 3],
    /// Offsets of the further harmonics in index order, channel-major.
    pub f_rest: Vec<usize>,
    pub opacity: usize,
    pub scale: [usize; 3],
    pub rot: [usize; 4],
}

#[derive(Debug)]
pub struct PointsLayout {
    pub count: usize,
    pub stride: usize,
    pub pos: [usize; 3],
    /// Offset and type of red, green and blue, all of one type.
    pub color: Option<([usize; 3], PropertyType)>,
}

#[verifier::ext_equal]
pub struct GaussianView {
    pub count: usize,
    pub stride: int,
    pub sh_degree: u8,
    pub fast_path: bool,
    /// Offsets of the properties, in canonical order.
    pub offsets: Seq<int>,
}

#[verifier::ext_equal]
pub struct PointsView {
    pub count: usize,
    pub stride: int,
    pub pos: Seq<int>,
    pub color: Option<(Seq<int>, PropertyType)>,
}

#[verifier::ext_equal]
pub enum LayoutView {
    Gaussian3d(GaussianView),
    Points(PointsView),
}

pub open spec fn ints(s: Seq<usize>) -> Seq<int> {
    s.map_values(|x: usize| x as int)
}

impl View for GaussianLayout {
    type V = GaussianView;

    open spec fn view(&self) -> GaussianView {
        GaussianView {
            count: self.count,
            stride: self.stride as int,
            sh_degree: self.sh_degree,
            fast_path: self.fast_path,
            offsets: ints(
                self.pos@ + self.f_dc@ + self.f_rest@ + seq![self.opacity] + self.scale@
                    + self.rot@,
            ),
        }
    }
}

impl View for PointsLayout {
    type V = PointsView;

    open spec fn view(&self) -> PointsView {
        PointsView {
            count: self.count,
            stride: self.stride as int,
            pos: ints(self.pos@),
            color: match self.color {
                Some((offsets, ty)) => Some((ints(offsets@), ty)),
                None => None,
            },
        }
    }
}

impl View for Layout {
    type V = LayoutView;

    open spec fn view(&self) -> LayoutView {
        match *self {
            Layout::Gaussian3d(g) => LayoutView::Gaussian3d(g@),
            Layout::Points(p) => LayoutView::Points(p@),
        }
    }
}

impl GaussianLayout {
    /// Every value lies in its row, and the further harmonics are those of the
    /// degree.
    pub open spec fn wf(&self) -> bool {
        &&& self.sh_degree <= 3
        &&& self.f_rest@.len() == crate::sh::rest_of(self.sh_degree as int)
        &&& forall|i: int|
            0 <= i < self@.offsets.len() ==> (#[trigger] self@.offsets[i]) + 4 <= self.stride
    }
}

impl PointsLayout {
    /// Every value lies in its row, and colours are bytes or floats.
    pub open spec fn wf(&self) -> bool {
        &&& forall|i: int| 0 <= i < 3 ==> (#[trigger] self.pos@[i]) + 4 <= self.stride
        &&& self.color matches Some((offsets, ty)) ==> {
            &&& ty == PropertyType::UChar || ty == PropertyType::Float
            &&& forall|i: int|
                0 <= i < 3 ==> (#[trigger] offsets@[i]) + ty.bytes() <= self.stride
        }
    }
}

impl Layout {
    pub open spec fn wf(&self) -> bool {
        match *self {
            Layout::Gaussian3d(g) => g.wf(),
            Layout::Points(p) => p.wf(),
        }
    }
}

/// The names of the properties, with a comma between two.
pub open spec fn name_list(props: Seq<crate::ply::header::PropertyView>) -> Seq<char>
    decreases props.len(),
{
    if props.len() == 0 {
        Seq::empty()
    } else if props.len() == 1 {
        props[0].name
    } else {
        name_list(props.drop_last()) + ", "@ + props.last().name
    }
}

/// Offset of a property that has to be a float.
pub open spec fn float_offset_in(
    props: Seq<crate::ply::header::PropertyView>,
    name: Seq<char>,
) -> Result<int, PlyErrorView> {
    match crate::ply::header::offset_in(props, name) {
        Some((off, PropertyType::Float)) => Ok(off),
        Some(_) => Err(PlyErrorView::BadPropertyType(name)),
        None => Err(PlyErrorView::UnknownLayout { properties: name_list(props) }),
    }
}

/// Offsets of the first `n` of these properties, or the error of the first
/// one that has none.
pub open spec fn float_offsets_in(
    props: Seq<crate::ply::header::PropertyView>,
    names: Seq<Seq<char>>,
    n: int,
) -> Result<Seq<int>, PlyErrorView>
    decreases n,
{
    if n <= 0 {
        Ok(Seq::empty())
    } else {
        match float_offsets_in(props, names, n - 1) {
            Err(e) => Err(e),
            Ok(before) => match float_offset_in(props, names[n - 1]) {
                Err(e) => Err(e),
                Ok(off) => Ok(before.push(off)),
            },
        }
    }
}

/// Whether the property is one of the further harmonics.
pub open spec fn is_rest_name(name: Seq<char>) -> bool {
    name.len() >= 7 && name.take(7) == "f_rest_"@
}

/// How many of the properties are further harmonics.
pub open spec fn rest_count(props: Seq<crate::ply::header::PropertyView>) -> int
    decreases props.len(),
{
    if props.len() == 0 {
        0
    } else {
        rest_count(props.drop_last()) + (if is_rest_name(props.last().name) {
            1int
        } else {
            0
        })
    }
}

/// Position and first harmonics.
pub open spec fn head_names() -> Seq<Seq<char>> {
    seq!["x"@, "y"@, "z"@, "f_dc_0"@, "f_dc_1"@, "f_dc_2"@]
}

/// The further harmonics.
pub open spec fn rest_names(rest: int) -> Seq<Seq<char>> {
    Seq::new(rest as nat, |i: int| "f_rest_"@ + crate::text::dec(i as nat))
}

/// Opacity, scale and rotation.
pub open spec fn end_names() -> Seq<Seq<char>> {
    seq![
        "opacity"@,
        "scale_0"@,
        "scale_1"@,
        "scale_2"@,
        "rot_0"@,
        "rot_1"@,
        "rot_2"@,
        "rot_3"@,
    ]
}

/// The properties of a splat row in canonical order.
pub open spec fn canonical_names(rest: int) -> Seq<Seq<char>> {
    head_names() + rest_names(rest) + end_names()
}

/// Whether the row is byte-identical to the canonical order.
pub open spec fn is_canonical(props: Seq<crate::ply::header::PropertyView>, rest: int) -> bool {
    &&& props.len() == canonical_names(rest).len()
    &&& forall|i: int|
        0 <= i < props.len() ==> (#[trigger] props[i]).ty == PropertyType::Float && props[i].name
            == canonical_names(rest)[i]
}

/// The splat layout of a vertex element.
pub open spec fn gaussian_in(v: crate::ply::header::ElementView) -> Result<
    GaussianView,
    PlyErrorView,
> {
    let props = v.properties;
    match float_offsets_in(props, head_names(), 6) {
        Err(e) => Err(e),
        Ok(head) => {
            let rest = rest_count(props);
            match crate::sh::degree_of_rest(rest) {
                None => Err(PlyErrorView::BadShCount(rest as usize)),
                Some(sh_degree) => match float_offsets_in(
                    props,
                    rest_names(rest) + end_names(),
                    rest + 8,
                ) {
                    Err(e) => Err(e),
                    Ok(tail) => Ok(
                        GaussianView {
                            count: v.count,
                            stride: crate::ply::header::row_bytes(props),
                            sh_degree,
                            fast_path: is_canonical(props, rest),
                            offsets: head + tail,
                        },
                    ),
                },
            }
        },
    }
}

/// The colour of a point row: where red, green and blue are there and of one
/// type.
pub open spec fn color_in(props: Seq<crate::ply::header::PropertyView>) -> Result<
    Option<(Seq<int>, PropertyType)>,
    PlyErrorView,
> {
    match (
        crate::ply::header::offset_in(props, "red"@),
        crate::ply::header::offset_in(props, "green"@),
        crate::ply::header::offset_in(props, "blue"@),
    ) {
        (Some((r, tr)), Some((g, tg)), Some((b, tb))) => if tr == tg && tg == tb {
            if tr == PropertyType::UChar || tr == PropertyType::Float {
                Ok(Some((seq![r, g, b], tr)))
            } else {
                Err(PlyErrorView::BadPropertyType("red"@))
            }
        } else {
            Ok(None)
        },
        _ => Ok(None),
    }
}

/// The point layout of a vertex element.
pub open spec fn points_in(v: crate::ply::header::ElementView) -> Result<
    PointsView,
    PlyErrorView,
> {
    match float_offsets_in(v.properties, seq!["x"@, "y"@, "z"@], 3) {
        Err(e) => Err(e),
        Ok(pos) => match color_in(v.properties) {
            Err(e) => Err(e),
            Ok(color) => Ok(
                PointsView {
                    count: v.count,
                    stride: crate::ply::header::row_bytes(v.properties),
                    pos,
                    color,
                },
            ),
        },
    }
}

/// The layout of the first vertex element.
pub open spec fn layout_in(elements: Seq<crate::ply::header::ElementView>) -> Result<
    LayoutView,
    PlyErrorView,
> {
    let i = crate::ply::header::element_place(elements, "vertex"@, 0);
    if i >= elements.len() {
        Err(PlyErrorView::NoVertexElement)
    } else {
        let v = elements[i];
        if v.has_list_property {
            Err(PlyErrorView::BadHeader("vertex element has list properties"@))
        } else if crate::ply::header::offset_in(v.properties, "f_dc_0"@) is Some {
            match gaussian_in(v) {
                Ok(g) => Ok(LayoutView::Gaussian3d(g)),
                Err(e) => Err(e),
            }
        } else if crate::ply::header::offset_in(v.properties, "x"@) is Some {
            match points_in(v) {
                Ok(p) => Ok(LayoutView::Points(p)),
                Err(e) => Err(e),
            }
        } else {
            Err(PlyErrorView::UnknownLayout { properties: name_list(v.properties) })
        }
    }
}

fn unknown_layout(vertex: &Element) -> (e: PlyError)
    ensures
        e@ == (PlyErrorView::UnknownLayout { properties: name_list(vertex@.properties) }),
{
    let ghost props = vertex@.properties;
    let mut properties = String::new();
    let mut k: usize = 0;
    assert(props.take(0) =~= Seq::<crate::ply::header::PropertyView>::empty());
    while k < vertex.properties.len()
        invariant
            k <= vertex.properties@.len(),
            props == vertex@.properties,
            properties@ == name_list(props.take(k as int)),
        decreases vertex.properties@.len() - k,
    {
        proof {
            assert(props.take(k + 1).drop_last() =~= props.take(k as int));
            assert(props.take(k + 1).last() == vertex.properties@[k as int]@);
            if k == 0 {
                assert(properties@ + vertex.properties@[0].name@ =~= vertex.properties@[0].name@);
            }
        }
        if k > 0 {
            properties.append(", ");
        }
        properties.append(vertex.properties[k].name.as_str());
        k = k + 1;
    }
    assert(props.take(k as int) =~= props);
    PlyError::UnknownLayout { properties }
}

fn float_offset(vertex: &Element, name: &str) -> (r: Result<usize, PlyError>)
    requires
        8 * vertex.properties@.len() <= usize::MAX,
    ensures
        match float_offset_in(vertex@.properties, name@) {
            Ok(off) => 0 <= off <= usize::MAX && r == Ok::<usize, PlyError>(off as usize),
            Err(e) => r matches Err(x) && x@ == e,
        },
{
    match vertex.offset_of(name) {
        Some((off, ty)) => match ty {
            PropertyType::Float => Ok(off),
            _ => Err(PlyError::BadPropertyType(String::from_str(name))),
        },
        None => Err(unknown_layout(vertex)),
    }
}

fn float_offsets(vertex: &Element, names: &Vec<String>) -> (r: Result<Vec<usize>, PlyError>)
    requires
        8 * vertex.properties@.len() <= usize::MAX,
    ensures
        match float_offsets_in(
            vertex@.properties,
            crate::words::views(names@),
            names@.len() as int,
        ) {
            Ok(offs) => r matches Ok(v) && ints(v@) == offs && v@.len() == names@.len(),
            Err(e) => r matches Err(x) && x@ == e,
        },
{
    let ghost list = crate::words::views(names@);
    let ghost props = vertex@.properties;
    let mut out: Vec<usize> = Vec::new();
    let mut k: usize = 0;
    assert(ints(out@) =~= Seq::<int>::empty());
    while k < names.len()
        invariant
            k <= names@.len(),
            list == crate::words::views(names@),
            props == vertex@.properties,
            8 * vertex.properties@.len() <= usize::MAX,
            out@.len() == k,
            float_offsets_in(props, list, k as int) == Ok::<Seq<int>, PlyErrorView>(ints(out@)),
        decreases names@.len() - k,
    {
        assert(list[k as int] == names@[k as int]@);
        match float_offset(vertex, names[k].as_str()) {
            Ok(off) => {
                let ghost before = ints(out@);
                assert(float_offset_in(props, list[k as int]) == Ok::<int, PlyErrorView>(
                    off as int,
                ));
                out.push(off);
                assert(ints(out@) =~= before.push(off as int));
            },
            Err(e) => {
                proof {
                    lemma_error_stays(props, list, k + 1, names@.len() as int);
                }
                return Err(e);
            },
        }
        k = k + 1;
    }
    Ok(out)
}

proof fn lemma_error_stays(
    props: Seq<crate::ply::header::PropertyView>,
    names: Seq<Seq<char>>,
    k: int,
    n: int,
)
    requires
        0 <= k <= n,
        float_offsets_in(props, names, k) is Err,
    ensures
        float_offsets_in(props, names, n) == float_offsets_in(props, names, k),
    decreases n - k,
{
    if k < n {
        lemma_error_stays(props, names, k, n - 1);
    }
}

proof fn lemma_offsets_len(
    props: Seq<crate::ply::header::PropertyView>,
    names: Seq<Seq<char>>,
    n: int,
)
    requires
        0 <= n,
    ensures
        float_offsets_in(props, names, n) matches Ok(s) ==> s.len() == n && forall|i: int|
            0 <= i < n ==> float_offset_in(props, names[i]) == Ok::<int, PlyErrorView>(
                #[trigger] s[i],
            ),
    decreases n,
{
    if n > 0 {
        lemma_offsets_len(props, names, n - 1);
    }
}

fn push_name(names: &mut Vec<String>, name: &str)
    ensures
        crate::words::views(final(names)@) == crate::words::views(old(names)@).push(name@),
        final(names)@.len() == old(names)@.len() + 1,
{
    let ghost before = crate::words::views(names@);
    names.push(String::from_str(name));
    assert(crate::words::views(names@) =~= before.push(name@));
}

fn head_list() -> (names: Vec<String>)
    ensures
        crate::words::views(names@) == head_names(),
        names@.len() == 6,
{
    let mut names: Vec<String> = Vec::new();
    push_name(&mut names, "x");
    push_name(&mut names, "y");
    push_name(&mut names, "z");
    push_name(&mut names, "f_dc_0");
    push_name(&mut names, "f_dc_1");
    push_name(&mut names, "f_dc_2");
    assert(crate::words::views(names@) =~= head_names());
    names
}

fn tail_list(rest: usize) -> (names: Vec<String>)
    requires
        rest <= 45,
    ensures
        crate::words::views(names@) == rest_names(rest as int) + end_names(),
        names@.len() == rest + 8,
{
    let mut names: Vec<String> = Vec::new();
    let mut i: usize = 0;
    assert(crate::words::views(names@) =~= rest_names(0));
    while i < rest
        invariant
            i <= rest <= 45,
            names@.len() == i,
            crate::words::views(names@) == rest_names(i as int),
        decreases rest - i,
    {
        let name = with_number("f_rest_", i as u64, "");
        proof {
            reveal_strlit("");
            assert("f_rest_"@ + crate::text::dec(i as nat) + ""@ =~= "f_rest_"@
                + crate::text::dec(i as nat));
            assert(rest_names(i + 1) =~= rest_names(i as int).push(name@));
        }
        push_name(&mut names, name.as_str());
        i = i + 1;
    }
    let ghost head = crate::words::views(names@);
    push_name(&mut names, "opacity");
    push_name(&mut names, "scale_0");
    push_name(&mut names, "scale_1");
    push_name(&mut names, "scale_2");
    push_name(&mut names, "rot_0");
    push_name(&mut names, "rot_1");
    push_name(&mut names, "rot_2");
    push_name(&mut names, "rot_3");
    assert(crate::words::views(names@) =~= head + end_names());
    names
}

fn count_rest(vertex: &Element) -> (n: usize)
    ensures
        n == rest_count(vertex@.properties),
{
    let ghost props = vertex@.properties;
    let mut n: usize = 0;
    let mut k: usize = 0;
    assert(props.take(0) =~= Seq::<crate::ply::header::PropertyView>::empty());
    while k < vertex.properties.len()
        invariant
            k <= vertex.properties@.len(),
            props == vertex@.properties,
            n <= k,
            n == rest_count(props.take(k as int)),
        decreases vertex.properties@.len() - k,
    {
        let name = vertex.properties[k].name.as_str();
        proof {
            assert(props.take(k + 1).drop_last() =~= props.take(k as int));
            assert(props.take(k + 1).last().name == name@);
            assert(name@.len() >= 7 ==> name@.subrange(0, 7) =~= name@.take(7));
        }
        if name.unicode_len() >= 7 && same_text(name.substring_char(0, 7), "f_rest_") {
            n = n + 1;
        }
        k = k + 1;
    }
    assert(props.take(k as int) =~= props);
    n
}

/// The properties of a splat row in canonical order.
pub(crate) fn canonical_order(rest: usize) -> (names: Vec<String>)
    requires
        rest <= 45,
    ensures
        crate::words::views(names@) == canonical_names(rest as int),
        names@.len() == rest + 14,
{
    let mut names = head_list();
    let ghost head = names@;
    let mut tail = tail_list(rest);
    let ghost end = tail@;
    names.append(&mut tail);
    proof {
        assert(names@ == head + end);
        assert(crate::words::views(names@) =~= crate::words::views(head) + crate::words::views(
            end,
        ));
        assert(crate::words::views(names@) =~= canonical_names(rest as int));
    }
    names
}

fn has_canonical_order(vertex: &Element, rest: usize) -> (b: bool)
    requires
        rest <= 45,
    ensures
        b == is_canonical(vertex@.properties, rest as int),
{
    let ghost props = vertex@.properties;
    let canonical = canonical_order(rest);
    let ghost names = canonical_names(rest as int);
    assert(names.len() == rest + 14);
    if vertex.properties.len() != canonical.len() {
        return false;
    }
    let mut k: usize = 0;
    while k < vertex.properties.len()
        invariant
            k <= vertex.properties@.len(),
            props == vertex@.properties,
            canonical@.len() == props.len(),
            names == canonical_names(rest as int),
            names == crate::words::views(canonical@),
            forall|i: int|
                0 <= i < k ==> (#[trigger] props[i]).ty == PropertyType::Float && props[i].name
                    == names[i],
        decreases vertex.properties@.len() - k,
    {
        assert(props[k as int] == vertex.properties@[k as int]@);
        assert(names[k as int] == canonical@[k as int]@);
        let is_float: bool = match vertex.properties[k].ty {
            PropertyType::Float => true,
            _ => false,
        };
        if !is_float || !same_text(vertex.properties[k].name.as_str(), canonical[k].as_str()) {
            return false;
        }
        k = k + 1;
    }
    true
}

fn detect_gaussian(vertex: &Element) -> (r: Result<GaussianLayout, PlyError>)
    requires
        8 * vertex.properties@.len() <= usize::MAX,
    ensures
        match gaussian_in(vertex@) {
            Ok(g) => r matches Ok(l) && l@ == g && l.wf(),
            Err(e) => r matches Err(x) && x@ == e,
        },
{
    let head = float_offsets(vertex, &head_list())?;
    let rest: usize = count_rest(vertex);
    let sh_degree: u8 = match degree_from_rest_count(rest) {
        Some(d) => d,
        None => {
            return Err(PlyError::BadShCount(rest));
        },
    };
    let tail = float_offsets(vertex, &tail_list(rest))?;
    let mut f_rest: Vec<usize> = Vec::new();
    let mut i: usize = 0;
    while i < rest
        invariant
            i <= rest,
            tail@.len() == rest + 8,
            f_rest@ == tail@.take(i as int),
        decreases rest - i,
    {
        f_rest.push(tail[i]);
        assert(tail@.take(i + 1) =~= tail@.take(i as int).push(tail@[i as int]));
        i = i + 1;
    }
    let l = GaussianLayout {
        count: vertex.count,
        stride: vertex.stride(),
        sh_degree,
        fast_path: has_canonical_order(vertex, rest),
        pos: [head[0], head[1], head[2]],
        f_dc: [head[3], head[4], head[5]],
        f_rest,
        opacity: tail[rest],
        scale: [tail[rest + 1], tail[rest + 2], tail[rest + 3]],
        rot: [tail[rest + 4], tail[rest + 5], tail[rest + 6], tail[rest + 7]],
    };
    proof {
        assert(l@.offsets =~= ints(head@) + ints(tail@));
        crate::sh::degree_is_found_from_its_count(0, rest as int);
        assert forall|k: int| 0 <= k < l@.offsets.len() implies (#[trigger] l@.offsets[k]) + 4
            <= l.stride by {
            splat_values_lie_in_the_row(vertex@, k);
        }
    }
    Ok(l)
}

fn detect_points(vertex: &Element) -> (r: Result<PointsLayout, PlyError>)
    requires
        8 * vertex.properties@.len() <= usize::MAX,
    ensures
        match points_in(vertex@) {
            Ok(p) => r matches Ok(l) && l@ == p && l.wf(),
            Err(e) => r matches Err(x) && x@ == e,
        },
{
    let ghost props = vertex@.properties;
    let mut names: Vec<String> = Vec::new();
    push_name(&mut names, "x");
    push_name(&mut names, "y");
    push_name(&mut names, "z");
    assert(crate::words::views(names@) =~= seq!["x"@, "y"@, "z"@]);
    let at = float_offsets(vertex, &names)?;
    let pos: [usize; 3] = [at[0], at[1], at[2]];
    assert(ints(pos@) =~= ints(at@));
    let stride: usize = vertex.stride();
    let red = vertex.offset_of("red");
    let green = vertex.offset_of("green");
    let blue = vertex.offset_of("blue");
    let color: Option<([usize; 3], PropertyType)> = match (red, green, blue) {
        (Some((r, tr)), Some((g, tg)), Some((b, tb))) => if tr == tg && tg == tb {
            if tr == PropertyType::UChar || tr == PropertyType::Float {
                let offsets: [usize; 3] = [r, g, b];
                assert(ints(offsets@) =~= seq![r as int, g as int, b as int]);
                Some((offsets, tr))
            } else {
                return Err(PlyError::BadPropertyType(String::from_str("red")));
            }
        } else {
            None
        },
        _ => None,
    };
    let l = PointsLayout { count: vertex.count, stride, pos, color };
    assert(color_in(props) == Ok::<Option<(Seq<int>, PropertyType)>, PlyErrorView>(l@.color));
    proof {
        let list = seq!["x"@, "y"@, "z"@];
        lemma_offsets_len(props, list, 3);
        assert forall|i: int| 0 <= i < 3 implies (#[trigger] l.pos@[i]) + 4 <= l.stride by {
            crate::ply::header::properties_lie_in_the_row(props, list[i]);
            assert(ints(at@)[i] == l.pos@[i]);
        }
        crate::ply::header::properties_lie_in_the_row(props, "red"@);
        crate::ply::header::properties_lie_in_the_row(props, "green"@);
        crate::ply::header::properties_lie_in_the_row(props, "blue"@);
    }
    Ok(l)
}

/// Detects what the vertex element of a header holds.
pub fn detect(header: &PlyHeader) -> (r: Result<Layout, PlyError>)
    requires
        forall|k: int|
            0 <= k < header@.len() ==> 8 * (#[trigger] header@[k]).properties.len() <= usize::MAX,
    ensures
        match layout_in(header@) {
            Ok(l) => r matches Ok(x) && x@ == l && x.wf(),
            Err(e) => r matches Err(x) && x@ == e,
        },
{
    proof {
        crate::ply::header::lemma_element_place(header@, "vertex"@, 0);
    }
    let vertex = match header.vertex() {
        Some(v) => v,
        None => {
            return Err(PlyError::NoVertexElement);
        },
    };
    assert(8 * vertex@.properties.len() <= usize::MAX);
    if vertex.has_list_property {
        return Err(bad_header("vertex element has list properties"));
    }
    if vertex.offset_of("f_dc_0").is_some() {
        Ok(Layout::Gaussian3d(detect_gaussian(vertex)?))
    } else if vertex.offset_of("x").is_some() {
        Ok(Layout::Points(detect_points(vertex)?))
    } else {
        Err(unknown_layout(vertex))
    }
}

/// Every offset that a layout holds leaves room for a float before the end of
/// the row.
pub proof fn splat_values_lie_in_the_row(v: crate::ply::header::ElementView, i: int)
    requires
        gaussian_in(v) is Ok,
        0 <= i < gaussian_in(v)->Ok_0.offsets.len(),
    ensures
        0 <= gaussian_in(v)->Ok_0.offsets[i],
        gaussian_in(v)->Ok_0.offsets[i] + 4 <= gaussian_in(v)->Ok_0.stride,
{
    let props = v.properties;
    let rest = rest_count(props);
    lemma_rest_count(props);
    lemma_offsets_len(props, head_names(), 6);
    lemma_offsets_len(props, rest_names(rest) + end_names(), rest + 8);
    let name = if i < 6 {
        head_names()[i]
    } else {
        (rest_names(rest) + end_names())[i - 6]
    };
    crate::ply::header::properties_lie_in_the_row(props, name);
    assert(float_offset_in(props, name) == Ok::<int, PlyErrorView>(
        gaussian_in(v)->Ok_0.offsets[i],
    ));
}

pub proof fn lemma_rest_count(props: Seq<crate::ply::header::PropertyView>)
    ensures
        0 <= rest_count(props) <= props.len(),
    decreases props.len(),
{
    if props.len() > 0 {
        lemma_rest_count(props.drop_last());
    }
}

// ---- the canonical row ----

proof fn lemma_rest_name(i: nat)
    ensures
        ({
            let name = "f_rest_"@ + crate::text::dec(i);
            &&& name.len() >= 8
            &&& name[0] == 'f'
            &&& name[2] == 'r'
            &&& name.skip(7) == crate::text::dec(i)
        }),
{
    reveal_strlit("f_rest_");
    crate::words::reading_undoes_writing(i);
    let name = "f_rest_"@ + crate::text::dec(i);
    assert(name.skip(7) =~= crate::text::dec(i));
}

/// No property occurs twice in the canonical order.
pub proof fn canonical_names_differ(rest: int, i: int, j: int)
    requires
        0 <= rest,
        0 <= i < j < 14 + rest,
    ensures
        canonical_names(rest)[i] != canonical_names(rest)[j],
{
    reveal_strlit("x");
    reveal_strlit("y");
    reveal_strlit("z");
    reveal_strlit("f_dc_0");
    reveal_strlit("f_dc_1");
    reveal_strlit("f_dc_2");
    reveal_strlit("opacity");
    reveal_strlit("scale_0");
    reveal_strlit("scale_1");
    reveal_strlit("scale_2");
    reveal_strlit("rot_0");
    reveal_strlit("rot_1");
    reveal_strlit("rot_2");
    reveal_strlit("rot_3");
    let a = canonical_names(rest)[i];
    let b = canonical_names(rest)[j];
    let from_rest_a = 6 <= i < 6 + rest;
    let from_rest_b = 6 <= j < 6 + rest;
    if from_rest_a {
        lemma_rest_name((i - 6) as nat);
        assert(a == "f_rest_"@ + crate::text::dec((i - 6) as nat));
    }
    if from_rest_b {
        lemma_rest_name((j - 6) as nat);
        assert(b == "f_rest_"@ + crate::text::dec((j - 6) as nat));
    }
    if from_rest_a && from_rest_b {
        crate::words::reading_undoes_writing((i - 6) as nat);
        crate::words::reading_undoes_writing((j - 6) as nat);
        assert(a.skip(7) != b.skip(7));
    } else if from_rest_a {
        assert(b == end_names()[j - 6 - rest]);
        assert(b[0] != 'f');
    } else if from_rest_b {
        assert(a == head_names()[i]);
        if i < 3 {
            assert(a.len() == 1);
        } else {
            assert(a[2] == 'd');
        }
    } else if i < 6 && j < 6 {
        assert(a == head_names()[i] && b == head_names()[j]);
        assert(a.len() != b.len() || a[a.len() - 1] != b[b.len() - 1]);
    } else if i < 6 {
        assert(a == head_names()[i] && b == end_names()[j - 6 - rest]);
        assert(a[0] != b[0]);
    } else {
        assert(a == end_names()[i - 6 - rest] && b == end_names()[j - 6 - rest]);
        assert(a.len() != b.len() || a[0] != b[0] || a[a.len() - 1] != b[b.len() - 1]);
    }
}

pub proof fn lemma_float_row(props: Seq<crate::ply::header::PropertyView>, n: int)
    requires
        0 <= n <= props.len(),
        forall|i: int| 0 <= i < props.len() ==> (#[trigger] props[i]).ty == PropertyType::Float,
    ensures
        crate::ply::header::row_bytes(props.take(n)) == 4 * n,
    decreases n,
{
    if n > 0 {
        lemma_float_row(props, n - 1);
        assert(props.take(n).drop_last() =~= props.take(n - 1));
    }
}

pub proof fn lemma_canonical_offset(
    props: Seq<crate::ply::header::PropertyView>,
    rest: int,
    i: int,
)
    requires
        0 <= rest,
        is_canonical(props, rest),
        0 <= i < 14 + rest,
    ensures
        float_offset_in(props, canonical_names(rest)[i]) == Ok::<int, PlyErrorView>(4 * i),
{
    let name = canonical_names(rest)[i];
    assert(props.len() == 14 + rest);
    crate::ply::header::lemma_place_of(props, name, 0);
    let p = crate::ply::header::place_of(props, name, 0);
    assert(props[i].name == name);
    if p < i {
        canonical_names_differ(rest, p, i);
        assert(props[p].name == canonical_names(rest)[p]);
    }
    lemma_float_row(props, i);
}

pub proof fn lemma_offsets_known(
    props: Seq<crate::ply::header::PropertyView>,
    names: Seq<Seq<char>>,
    n: int,
    base: int,
)
    requires
        0 <= n <= names.len(),
        forall|i: int|
            0 <= i < n ==> float_offset_in(props, #[trigger] names[i]) == Ok::<int, PlyErrorView>(
                4 * (base + i),
            ),
    ensures
        float_offsets_in(props, names, n) == Ok::<Seq<int>, PlyErrorView>(
            Seq::new(n as nat, |i: int| 4 * (base + i)),
        ),
    decreases n,
{
    if n > 0 {
        lemma_offsets_known(props, names, n - 1, base);
        assert(float_offset_in(props, names[n - 1]) == Ok::<int, PlyErrorView>(
            4 * (base + n - 1),
        ));
        assert(Seq::new(n as nat, |i: int| 4 * (base + i)) =~= Seq::new(
            (n - 1) as nat,
            |i: int| 4 * (base + i),
        ).push(4 * (base + n - 1)));
    } else {
        assert(Seq::new(0, |i: int| 4 * (base + i)) =~= Seq::<int>::empty());
    }
}

/// Where the fast path is taken, the row holds nothing but the canonical
/// floats one after the other.
pub proof fn fast_path_rows_are_consecutive_floats(v: crate::ply::header::ElementView)
    requires
        gaussian_in(v) matches Ok(g) && g.fast_path,
    ensures
        ({
            let g = gaussian_in(v)->Ok_0;
            let n = 14 + crate::sh::rest_of(g.sh_degree as int);
            &&& g.stride == 4 * n
            &&& g.offsets.len() == n
            &&& forall|i: int| 0 <= i < n ==> (#[trigger] g.offsets[i]) == 4 * i
        }),
{
    let props = v.properties;
    let rest = rest_count(props);
    let g = gaussian_in(v)->Ok_0;
    lemma_rest_count(props);
    crate::sh::degree_is_found_from_its_count(0, rest);
    lemma_offsets_len(props, head_names(), 6);
    lemma_offsets_len(props, rest_names(rest) + end_names(), rest + 8);
    assert(props.len() == 14 + rest);
    assert(props.take(props.len() as int) =~= props);
    lemma_float_row(props, props.len() as int);
    assert forall|i: int| 0 <= i < 14 + rest implies (#[trigger] g.offsets[i]) == 4 * i by {
        lemma_canonical_offset(props, rest, i);
        let name = canonical_names(rest)[i];
        if i < 6 {
            assert(name == head_names()[i]);
        } else {
            assert(name == (rest_names(rest) + end_names())[i - 6]);
        }
    }
}

} // verus!
