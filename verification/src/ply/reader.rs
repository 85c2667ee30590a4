//! Decoding of the binary payload. Floats are kept as their 32 bits.
use vstd::prelude::*;

use crate::ply::header::{parse_header, PropertyType};
use crate::ply::layout::{detect, GaussianLayout, Layout, PointsLayout};
use crate::ply::{PlyError, PlyErrorView};
use crate::sh::{interleave, num_coeffs};

verus! {

/// One splat as stored, before any activation: floats as their bits, the
/// harmonics coefficient-major, the rotation with its scalar part last.
#[derive(Debug)]
pub struct RawSplat {
    pub position: [u32; 3],
    pub sh: Vec<u32>,
    pub opacity: u32,
    pub scale: [u32; 3],
    pub rotation: [u32; 4],
}

#[verifier::ext_equal]
pub struct RawSplatView {
    pub position: Seq<u32>,
    pub sh: Seq<u32>,
    pub opacity: u32,
    pub scale: Seq<u32>,
    pub rotation: Seq<u32>,
}

impl View for RawSplat {
    type V = RawSplatView;

    open spec fn view(&self) -> RawSplatView {
        RawSplatView {
            position: self.position@,
            sh: self.sh@,
            opacity: self.opacity,
            scale: self.scale@,
            rotation: self.rotation@,
        }
    }
}

/// The colour of a point as stored.
#[derive(Debug)]
pub enum RawColor {
    Absent,
    Bytes([u8; 3]),
    Floats([u32; 3]),
}

#[verifier::ext_equal]
pub enum RawColorView {
    Absent,
    Bytes(Seq<u8>),
    Floats(Seq<u32>),
}

impl View for RawColor {
    type V = RawColorView;

    open spec fn view(&self) -> RawColorView {
        match *self {
            RawColor::Absent => RawColorView::Absent,
            RawColor::Bytes(c) => RawColorView::Bytes(c@),
            RawColor::Floats(c) => RawColorView::Floats(c@),
        }
    }
}

#[derive(Debug)]
pub struct RawPoint {
    pub position: [u32; 3],
    pub color: RawColor,
}

#[verifier::ext_equal]
pub struct RawPointView {
    pub position: Seq<u32>,
    pub color: RawColorView,
}

impl View for RawPoint {
    type V = RawPointView;

    open spec fn view(&self) -> RawPointView {
        RawPointView { position: self.position@, color: self.color@ }
    }
}

/// What a file turned out to hold.
#[derive(Debug)]
pub enum PlyContents {
    Splats { splats: Vec<RawSplat>, sh_degree: u8 },
    Points(Vec<RawPoint>),
}

#[verifier::ext_equal]
pub enum PlyContentsView {
    Splats { splats: Seq<RawSplatView>, sh_degree: u8 },
    Points(Seq<RawPointView>),
}

impl View for PlyContents {
    type V = PlyContentsView;

    open spec fn view(&self) -> PlyContentsView {
        match *self {
            PlyContents::Splats { splats, sh_degree } => PlyContentsView::Splats {
                splats: splats@.map_values(|s: RawSplat| s@),
                sh_degree,
            },
            PlyContents::Points(points) => PlyContentsView::Points(
                points@.map_values(|p: RawPoint| p@),
            ),
        }
    }
}

/// The 32-bit little-endian word at `at`.
pub open spec fn word_at(data: Seq<u8>, at: int) -> u32 {
    (data[at] + 0x100 * data[at + 1] + 0x1_0000 * data[at + 2] + 0x100_0000 * data[at
        + 3]) as u32
}

fn read_word(data: &[u8], at: usize) -> (w: u32)
    requires
        at + 4 <= data@.len(),
        data@.len() <= usize::MAX,
    ensures
        w == word_at(data@, at as int),
{
    data[at] as u32 + 0x100 * (data[at + 1] as u32) + 0x1_0000 * (data[at + 2] as u32) + 0x100_0000
        * (data[at + 3] as u32)
}

/// The values of row `row` in canonical order.
pub open spec fn row_words(
    payload: Seq<u8>,
    row: int,
    stride: int,
    offsets: Seq<int>,
) -> Seq<u32> {
    Seq::new(offsets.len(), |k: int| word_at(payload, row * stride + offsets[k]))
}

/// The splat whose values in canonical order are `w`, of a degree with
/// `coeffs` coefficients.
pub open spec fn splat_of(w: Seq<u32>, coeffs: int) -> RawSplatView {
    let rest = 3 * (coeffs - 1);
    RawSplatView {
        position: w.subrange(0, 3),
        sh: crate::sh::interleaved(w.subrange(3, 6), w.subrange(6, 6 + rest), coeffs),
        opacity: w[6 + rest],
        scale: w.subrange(7 + rest, 10 + rest),
        rotation: seq![w[11 + rest], w[12 + rest], w[13 + rest], w[10 + rest]],
    }
}

/// The splats of a payload, or how many of the expected rows it holds.
pub open spec fn splats_in(
    payload: Seq<u8>,
    g: crate::ply::layout::GaussianView,
) -> Result<Seq<RawSplatView>, PlyErrorView> {
    let rows = payload.len() as int / g.stride;
    if rows < g.count {
        Err(PlyErrorView::UnexpectedEof { expected: g.count, got: rows as usize })
    } else {
        Ok(
            Seq::new(
                g.count as nat,
                |i: int|
                    splat_of(
                        row_words(payload, i, g.stride, g.offsets),
                        crate::sh::coeffs_of(g.sh_degree as int),
                    ),
            ),
        )
    }
}

/// The colour of row `row`.
pub open spec fn color_at(
    payload: Seq<u8>,
    row: int,
    p: crate::ply::layout::PointsView,
) -> RawColorView {
    match p.color {
        None => RawColorView::Absent,
        Some((offsets, ty)) => if ty == PropertyType::UChar {
            RawColorView::Bytes(
                Seq::new(3, |k: int| payload[row * p.stride + offsets[k]]),
            )
        } else {
            RawColorView::Floats(row_words(payload, row, p.stride, offsets))
        },
    }
}

/// The points of a payload, or how many of the expected rows it holds.
pub open spec fn points_in(
    payload: Seq<u8>,
    p: crate::ply::layout::PointsView,
) -> Result<Seq<RawPointView>, PlyErrorView> {
    let rows = payload.len() as int / p.stride;
    if rows < p.count {
        Err(PlyErrorView::UnexpectedEof { expected: p.count, got: rows as usize })
    } else {
        Ok(
            Seq::new(
                p.count as nat,
                |i: int|
                    RawPointView {
                        position: row_words(payload, i, p.stride, p.pos),
                        color: color_at(payload, i, p),
                    },
            ),
        )
    }
}

/// What a file holds.
pub open spec fn contents_of(data: Seq<u8>) -> Result<PlyContentsView, PlyErrorView> {
    match crate::ply::header::header_of(data) {
        Err(e) => Err(e),
        Ok((elements, next)) => match crate::ply::layout::layout_in(elements) {
            Err(e) => Err(e),
            Ok(crate::ply::layout::LayoutView::Gaussian3d(g)) => match splats_in(
                data.skip(next),
                g,
            ) {
                Err(e) => Err(e),
                Ok(splats) => Ok(PlyContentsView::Splats { splats, sh_degree: g.sh_degree }),
            },
            Ok(crate::ply::layout::LayoutView::Points(p)) => match points_in(
                data.skip(next),
                p,
            ) {
                Err(e) => Err(e),
                Ok(points) => Ok(PlyContentsView::Points(points)),
            },
        },
    }
}

proof fn lemma_row_in_payload(len: int, stride: int, rows: int, row: int)
    requires
        0 < stride,
        0 <= len,
        rows == len / stride,
        0 <= row < rows,
    ensures
        0 <= row * stride,
        row * stride + stride <= len,
{
    vstd::arithmetic::div_mod::lemma_fundamental_div_mod(len, stride);
    assert(0 <= row * stride && row * stride + stride <= len) by (nonlinear_arith)
        requires
            0 <= row < rows,
            0 < stride,
            len == stride * rows + len % stride,
            0 <= len % stride,
    ;
}

/// The values at these offsets of the row that starts at `start`.
fn gather(data: &[u8], start: usize, offsets: &[usize]) -> (w: Vec<u32>)
    requires
        data@.len() <= usize::MAX,
        forall|k: int|
            0 <= k < offsets@.len() ==> start + (#[trigger] offsets@[k]) + 4 <= data@.len(),
    ensures
        w@.len() == offsets@.len(),
        forall|k: int|
            0 <= k < offsets@.len() ==> (#[trigger] w@[k]) == word_at(
                data@,
                start + offsets@[k],
            ),
{
    let mut w: Vec<u32> = Vec::new();
    let mut k: usize = 0;
    while k < offsets.len()
        invariant
            k <= offsets@.len(),
            data@.len() <= usize::MAX,
            forall|k: int|
                0 <= k < offsets@.len() ==> start + (#[trigger] offsets@[k]) + 4 <= data@.len(),
            w@.len() == k,
            forall|j: int|
                0 <= j < k ==> (#[trigger] w@[j]) == word_at(data@, start + offsets@[j]),
        decreases offsets@.len() - k,
    {
        assert(start + offsets@[k as int] + 4 <= data@.len());
        w.push(read_word(data, start + offsets[k]));
        k = k + 1;
    }
    w
}

impl GaussianLayout {
    /// The offsets in canonical order.
    fn offset_list(&self) -> (list: Vec<usize>)
        ensures
            crate::ply::layout::ints(list@) == self@.offsets,
            list@.len() == 14 + self.f_rest@.len(),
    {
        let mut list: Vec<usize> = Vec::new();
        list.push(self.pos[0]);
        list.push(self.pos[1]);
        list.push(self.pos[2]);
        list.push(self.f_dc[0]);
        list.push(self.f_dc[1]);
        list.push(self.f_dc[2]);
        let mut i: usize = 0;
        let ghost head = list@;
        assert(head + self.f_rest@.take(0) =~= head);
        while i < self.f_rest.len()
            invariant
                i <= self.f_rest@.len(),
                list@ == head + self.f_rest@.take(i as int),
            decreases self.f_rest@.len() - i,
        {
            assert(self.f_rest@.take(i + 1) =~= self.f_rest@.take(i as int).push(
                self.f_rest@[i as int],
            ));
            list.push(self.f_rest[i]);
            assert(list@ =~= head + self.f_rest@.take(i + 1));
            i = i + 1;
        }
        assert(self.f_rest@.take(i as int) =~= self.f_rest@);
        list.push(self.opacity);
        list.push(self.scale[0]);
        list.push(self.scale[1]);
        list.push(self.scale[2]);
        list.push(self.rot[0]);
        list.push(self.rot[1]);
        list.push(self.rot[2]);
        list.push(self.rot[3]);
        assert(crate::ply::layout::ints(list@) =~= self@.offsets);
        list
    }
}

/// The splat whose values in canonical order are `w`.
fn make_splat(w: &Vec<u32>, coeffs: usize) -> (s: RawSplat)
    requires
        1 <= coeffs <= 16,
        w@.len() == 14 + 3 * (coeffs - 1),
    ensures
        s@ == splat_of(w@, coeffs as int),
{
    let rest: usize = 3 * (coeffs - 1);
    let all = w.as_slice();
    let dc = vstd::slice::slice_subrange(all, 3, 6);
    let more = vstd::slice::slice_subrange(all, 6, 6 + rest);
    let s = RawSplat {
        position: [w[0], w[1], w[2]],
        sh: interleave(dc, more, coeffs),
        opacity: w[6 + rest],
        scale: [w[7 + rest], w[8 + rest], w[9 + rest]],
        rotation: [w[11 + rest], w[12 + rest], w[13 + rest], w[10 + rest]],
    };
    proof {
        let v = splat_of(w@, coeffs as int);
        assert(s@.position =~= v.position);
        assert(s@.scale =~= v.scale);
        assert(s@.rotation =~= v.rotation);
        assert(s@ =~= v);
    }
    s
}

/// Decodes the rows of a splat payload.
pub fn read_splats(payload: &[u8], l: &GaussianLayout) -> (r: Result<Vec<RawSplat>, PlyError>)
    requires
        l.wf(),
    ensures
        match splats_in(payload@, l@) {
            Ok(splats) => r matches Ok(v) && v@.map_values(|s: RawSplat| s@) == splats,
            Err(e) => r matches Err(x) && x@ == e,
        },
{
    let len: usize = payload.len();
    assert(payload@.len() == len);
    let ghost g = l@;
    let offsets = l.offset_list();
    assert(g.offsets.len() == offsets@.len());
    assert(g.offsets[0] + 4 <= l.stride);
    let stride: usize = l.stride;
    let rows: usize = len / stride;
    if rows < l.count {
        return Err(PlyError::UnexpectedEof { expected: l.count, got: rows });
    }
    let coeffs: usize = num_coeffs(l.sh_degree);
    proof {
        assert(coeffs_in_range(l.sh_degree as int)) by {
            lemma_coeffs(l.sh_degree as int);
        }
    }
    let mut out: Vec<RawSplat> = Vec::new();
    let mut row: usize = 0;
    while row < l.count
        invariant
            row <= l.count <= rows,
            len == payload@.len(),
            stride == l.stride,
            0 < stride,
            rows == len / stride,
            g == l@,
            l.wf(),
            crate::ply::layout::ints(offsets@) == g.offsets,
            offsets@.len() == 14 + 3 * (coeffs - 1),
            coeffs == crate::sh::coeffs_of(l.sh_degree as int),
            1 <= coeffs <= 16,
            out@.len() == row,
            forall|i: int|
                0 <= i < row ==> (#[trigger] out@[i])@ == splat_of(
                    row_words(payload@, i, g.stride, g.offsets),
                    coeffs as int,
                ),
        decreases l.count - row,
    {
        proof {
            lemma_row_in_payload(len as int, stride as int, rows as int, row as int);
            assert forall|k: int| 0 <= k < offsets@.len() implies row * stride + (
            #[trigger] offsets@[k]) + 4 <= payload@.len() by {
                assert(g.offsets[k] == offsets@[k]);
            }
        }
        let w = gather(payload, row * stride, offsets.as_slice());
        proof {
            assert forall|k: int| 0 <= k < w@.len() implies w@[k] == row_words(
                payload@,
                row as int,
                g.stride,
                g.offsets,
            )[k] by {
                assert(g.offsets[k] == offsets@[k]);
            }
            assert(w@ =~= row_words(payload@, row as int, g.stride, g.offsets));
        }
        out.push(make_splat(&w, coeffs));
        row = row + 1;
    }
    proof {
        let want = splats_in(payload@, g)->Ok_0;
        assert(out@.map_values(|s: RawSplat| s@) =~= want);
    }
    Ok(out)
}

spec fn coeffs_in_range(degree: int) -> bool {
    1 <= crate::sh::coeffs_of(degree) <= 16
}

proof fn lemma_coeffs(degree: int)
    requires
        0 <= degree <= 3,
    ensures
        coeffs_in_range(degree),
{
    assert(1 <= (degree + 1) * (degree + 1) <= 16) by (nonlinear_arith)
        requires
            0 <= degree <= 3,
    ;
}

fn read_color(payload: &[u8], start: usize, l: &PointsLayout) -> (c: RawColor)
    requires
        l.wf(),
        payload@.len() <= usize::MAX,
        start + l.stride <= payload@.len(),
    ensures
        forall|row: int| row * l.stride == start ==> c@ == #[trigger] color_at(payload@, row, l@),
{
    match l.color {
        None => RawColor::Absent,
        Some((offsets, ty)) => {
            assert(offsets@[0] + ty.bytes() <= l.stride);
            assert(offsets@[1] + ty.bytes() <= l.stride);
            assert(offsets@[2] + ty.bytes() <= l.stride);
            let ghost offs = crate::ply::layout::ints(offsets@);
            assert(offs.len() == 3);
            match ty {
                PropertyType::UChar => {
                    let c: [u8; 3] = [
                        payload[start + offsets[0]],
                        payload[start + offsets[1]],
                        payload[start + offsets[2]],
                    ];
                    proof {
                        assert forall|row: int| row * l.stride == start implies RawColorView::Bytes(
                            c@,
                        ) == #[trigger] color_at(payload@, row, l@) by {
                            assert(c@ =~= Seq::new(
                                3,
                                |k: int| payload@[row * l@.stride + offs[k]],
                            ));
                        }
                    }
                    RawColor::Bytes(c)
                },
                _ => {
                    let c: [u32; 3] = [
                        read_word(payload, start + offsets[0]),
                        read_word(payload, start + offsets[1]),
                        read_word(payload, start + offsets[2]),
                    ];
                    proof {
                        assert forall|row: int|
                            row * l.stride == start implies RawColorView::Floats(c@)
                            == #[trigger] color_at(payload@, row, l@) by {
                            assert(c@ =~= row_words(payload@, row, l@.stride, offs));
                        }
                    }
                    RawColor::Floats(c)
                },
            }
        },
    }
}

/// Decodes the rows of a point payload.
pub fn read_points(payload: &[u8], l: &PointsLayout) -> (r: Result<Vec<RawPoint>, PlyError>)
    requires
        l.wf(),
    ensures
        match points_in(payload@, l@) {
            Ok(points) => r matches Ok(v) && v@.map_values(|p: RawPoint| p@) == points,
            Err(e) => r matches Err(x) && x@ == e,
        },
{
    let len: usize = payload.len();
    assert(payload@.len() == len);
    let ghost p = l@;
    assert(l.pos@[0] + 4 <= l.stride);
    assert(l.pos@[1] + 4 <= l.stride);
    assert(l.pos@[2] + 4 <= l.stride);
    let stride: usize = l.stride;
    let rows: usize = len / stride;
    if rows < l.count {
        return Err(PlyError::UnexpectedEof { expected: l.count, got: rows });
    }
    let mut out: Vec<RawPoint> = Vec::new();
    let mut row: usize = 0;
    while row < l.count
        invariant
            row <= l.count <= rows,
            len == payload@.len(),
            stride == l.stride,
            l.pos@[0] + 4 <= stride,
            l.pos@[1] + 4 <= stride,
            l.pos@[2] + 4 <= stride,
            rows == len / stride,
            p == l@,
            l.wf(),
            out@.len() == row,
            forall|i: int|
                0 <= i < row ==> (#[trigger] out@[i])@ == (RawPointView {
                    position: row_words(payload@, i, p.stride, p.pos),
                    color: color_at(payload@, i, p),
                }),
        decreases l.count - row,
    {
        proof {
            lemma_row_in_payload(len as int, stride as int, rows as int, row as int);
        }
        let start: usize = row * stride;
        let position: [u32; 3] = [
            read_word(payload, start + l.pos[0]),
            read_word(payload, start + l.pos[1]),
            read_word(payload, start + l.pos[2]),
        ];
        assert(position@ =~= row_words(payload@, row as int, p.stride, p.pos));
        let color = read_color(payload, start, l);
        assert(color@ == color_at(payload@, row as int, l@));
        out.push(RawPoint { position, color });
        row = row + 1;
    }
    proof {
        let want = points_in(payload@, p)->Ok_0;
        assert(out@.map_values(|p: RawPoint| p@) =~= want);
    }
    Ok(out)
}

/// Decodes a whole file: splats or points, whichever its vertex element holds.
pub fn load_ply_from(data: &[u8]) -> (r: Result<PlyContents, PlyError>)
    requires
        8 * data@.len() <= usize::MAX,
    ensures
        match contents_of(data@) {
            Ok(c) => r matches Ok(x) && x@ == c,
            Err(e) => r matches Err(x) && x@ == e,
        },
{
    let (header, next) = parse_header(data)?;
    let layout = detect(&header)?;
    let payload = vstd::slice::slice_subrange(data, next, data.len());
    assert(payload@ =~= data@.skip(next as int));
    match layout {
        Layout::Gaussian3d(l) => {
            let splats = read_splats(payload, &l)?;
            Ok(PlyContents::Splats { splats, sh_degree: l.sh_degree })
        },
        Layout::Points(l) => Ok(PlyContents::Points(read_points(payload, &l)?)),
    }
}

} // verus!
