//! What a video reader does with the samples of an MP4 track: length-prefixed
//! NALs are split and the coded slices picked out, decoded frames are cropped
//! to planar 4:2:0 at display size (10-bit frames reduced to 8 bits, wide
//! gamut folded), and frames are put back into presentation order.
use crate::h265::{is_vcl, nal_type};
use crate::hevc_demux::be_uint;
use crate::nvdec::Nv12Frame;
use crate::nvdec_h265::H265Frame;
use vstd::prelude::*;
use vstd::slice::slice_subrange;

verus! {

// ---- samples ----

/// Whether a whole NAL stands at `off`, behind a length of `ls` bytes.
pub open spec fn nal_fits(data: Seq<u8>, off: int, ls: nat) -> bool {
    let n = crate::hevc_demux::be_value(data, off, ls);
    off + ls <= data.len() && n > 0 && off + ls + n <= data.len()
}

/// The NALs of a sample from `off` on, up to the first that is empty or does
/// not fit.
pub open spec fn nals_from(data: Seq<u8>, off: int, ls: nat) -> Seq<Seq<u8>>
    decreases data.len() - off,
{
    if !nal_fits(data, off, ls) {
        Seq::empty()
    } else {
        let start = off + ls;
        let end = start + crate::hevc_demux::be_value(data, off, ls);
        seq![data.subrange(start, end)] + nals_from(data, end, ls)
    }
}

/// The codec of a track.
#[derive(Debug, Clone, Copy, PartialEq, Eq, Structural)]
pub enum Codec {
    H264,
    H265,
}

/// Whether a NAL is a coded slice: types 1 and 5 of H.264, the VCL types of
/// H.265.
pub open spec fn is_coded_slice(codec: Codec, nal: Seq<u8>) -> bool {
    match codec {
        Codec::H264 => nal[0] & 0x1f == 1 || nal[0] & 0x1f == 5,
        Codec::H265 => crate::h265::nal_type_of(nal) <= 31,
    }
}

/// The coded slices among the first `n` NALs.
pub open spec fn coded_slices(codec: Codec, nals: Seq<Seq<u8>>, n: nat) -> Seq<Seq<u8>>
    decreases n,
{
    if n == 0 {
        Seq::empty()
    } else {
        let s = coded_slices(codec, nals, (n - 1) as nat);
        if is_coded_slice(codec, nals[n - 1]) {
            s.push(nals[n - 1])
        } else {
            s
        }
    }
}

/// The contents of a list of byte slices.
pub open spec fn slice_views(v: Seq<&[u8]>) -> Seq<Seq<u8>> {
    v.map_values(|x: &[u8]| x@)
}

proof fn lemma_coded_slices_push(codec: Codec, a: Seq<Seq<u8>>, x: Seq<u8>, n: nat)
    requires
        n <= a.len(),
    ensures
        coded_slices(codec, a.push(x), n) == coded_slices(codec, a, n),
    decreases n,
{
    if n > 0 {
        lemma_coded_slices_push(codec, a, x, (n - 1) as nat);
        assert(a.push(x)[n - 1] == a[n - 1]);
    }
}

/// Splits a sample into its length-prefixed NALs and keeps the coded slices;
/// parameter sets and SEI are left out. Stops at an empty NAL or one that runs
/// past the sample.
pub fn split_slices<'a>(codec: Codec, data: &'a [u8], length_size: usize) -> (out: Vec<&'a [u8]>)
    requires
        1 <= length_size <= 4,
    ensures
        ({
            let nals = nals_from(data@, 0, length_size as nat);
            slice_views(out@) == coded_slices(codec, nals, nals.len())
        }),
{
    let ghost all = nals_from(data@, 0, length_size as nat);
    let ghost mut seen: Seq<Seq<u8>> = Seq::empty();
    let mut out: Vec<&'a [u8]> = Vec::new();
    let mut off: usize = 0;
    assert(slice_views(out@) =~= Seq::empty());
    assert(seen + all =~= all);
    while length_size <= data.len() - off
        invariant_except_break
            seen + nals_from(data@, off as int, length_size as nat) == all,
        invariant
            1 <= length_size <= 4,
            off <= data@.len(),
            slice_views(out@) == coded_slices(codec, seen, seen.len()),
        ensures
            seen == all,
        decreases data@.len() - off,
    {
        let len: u64 = be_uint(data, off, length_size);
        let start: usize = off + length_size;
        if len == 0 || len > (data.len() - start) as u64 {
            assert(nals_from(data@, off as int, length_size as nat) =~= Seq::empty());
            assert(seen + Seq::<Seq<u8>>::empty() =~= seen);
            break;
        }
        let end: usize = start + len as usize;
        let nal: &'a [u8] = slice_subrange(data, start, end);
        let ghost before = seen;
        proof {
            let rest = nals_from(data@, end as int, length_size as nat);
            seen = before.push(nal@);
            assert(nals_from(data@, off as int, length_size as nat) =~= seq![nal@] + rest);
            assert(seen + rest =~= before + (seq![nal@] + rest));
            lemma_coded_slices_push(codec, before, nal@, before.len());
        }
        let keep: bool = match codec {
            Codec::H264 => nal[0] & 0x1f == 1 || nal[0] & 0x1f == 5,
            Codec::H265 => is_vcl(nal_type(nal)),
        };
        if keep {
            let ghost views = slice_views(out@);
            out.push(nal);
            assert(slice_views(out@) =~= views.push(nal@));
        }
        off = end;
        proof {
            if data@.len() - off < length_size {
                assert(nals_from(data@, off as int, length_size as nat) =~= Seq::empty());
                assert(seen + Seq::<Seq<u8>>::empty() =~= seen);
            }
        }
    }
    out
}

proof fn lemma_nals_not_empty(data: Seq<u8>, off: int, ls: nat, i: int)
    requires
        0 <= i < nals_from(data, off, ls).len(),
        0 <= off,
    ensures
        nals_from(data, off, ls)[i].len() >= 1,
    decreases data.len() - off,
{
    let n = crate::hevc_demux::be_value(data, off, ls);
    if i > 0 {
        lemma_nals_not_empty(data, off + ls + n, ls, i - 1);
    }
}

/// Every coded slice of a sample has at least its first byte.
pub proof fn lemma_slices_not_empty(codec: Codec, data: Seq<u8>, ls: nat, i: int)
    requires
        ({
            let nals = nals_from(data, 0, ls);
            0 <= i < coded_slices(codec, nals, nals.len()).len()
        }),
    ensures
        ({
            let nals = nals_from(data, 0, ls);
            coded_slices(codec, nals, nals.len())[i].len() >= 1
        }),
{
    let nals = nals_from(data, 0, ls);
    assert forall|k: int| 0 <= k < nals.len() implies (#[trigger] nals[k]).len() >= 1 by {
        lemma_nals_not_empty(data, 0, ls, k);
    }
    lemma_slices_are_nals(codec, nals, nals.len(), i);
}

proof fn lemma_slices_are_nals(codec: Codec, nals: Seq<Seq<u8>>, n: nat, i: int)
    requires
        n <= nals.len(),
        0 <= i < coded_slices(codec, nals, n).len(),
        forall|k: int| 0 <= k < nals.len() ==> (#[trigger] nals[k]).len() >= 1,
    ensures
        coded_slices(codec, nals, n)[i].len() >= 1,
    decreases n,
{
    if n > 0 && i < coded_slices(codec, nals, (n - 1) as nat).len() {
        lemma_slices_are_nals(codec, nals, (n - 1) as nat, i);
    }
}

/// A length in `ls` bytes, the highest first.
pub open spec fn length_prefix(n: nat, ls: nat) -> Seq<u8>
    decreases ls,
{
    if ls == 0 {
        Seq::empty()
    } else {
        length_prefix(n / 256, (ls - 1) as nat).push((n % 256) as u8)
    }
}

/// The lengths that `ls` bytes hold are below this.
pub open spec fn length_limit(ls: nat) -> nat
    decreases ls,
{
    if ls == 0 {
        1
    } else {
        256 * length_limit((ls - 1) as nat)
    }
}

/// A sample of the last `n` of these NALs, each behind its length of `ls`
/// bytes.
pub open spec fn packed(nals: Seq<Seq<u8>>, ls: nat, n: nat) -> Seq<u8>
    decreases n,
{
    if n == 0 {
        Seq::empty()
    } else {
        let nal = nals[nals.len() - n];
        length_prefix(nal.len(), ls) + nal + packed(nals, ls, (n - 1) as nat)
    }
}

/// Whether each NAL has a byte, and a length that `ls` bytes hold.
pub open spec fn packable(nals: Seq<Seq<u8>>, ls: nat) -> bool {
    forall|k: int| 0 <= k < nals.len() ==> 1 <= (#[trigger] nals[k]).len() < length_limit(ls)
}

proof fn lemma_prefix_len(n: nat, ls: nat)
    ensures
        length_prefix(n, ls).len() == ls,
    decreases ls,
{
    if ls > 0 {
        lemma_prefix_len(n / 256, (ls - 1) as nat);
    }
}

proof fn lemma_length_prefix(data: Seq<u8>, off: int, n: nat, ls: nat)
    requires
        0 <= off,
        off + ls <= data.len(),
        n < length_limit(ls),
        data.subrange(off, off + ls) == length_prefix(n, ls),
    ensures
        crate::hevc_demux::be_value(data, off, ls) == n,
    decreases ls,
{
    if ls > 0 {
        let p = length_prefix(n, ls);
        let head = length_prefix(n / 256, (ls - 1) as nat);
        lemma_prefix_len(n, ls);
        lemma_prefix_len(n / 256, (ls - 1) as nat);
        assert(data.subrange(off, off + ls - 1) =~= head) by {
            assert forall|k: int| 0 <= k < ls - 1 implies data[off + k] == head[k] by {
                assert(data.subrange(off, off + ls)[k] == p[k]);
            }
        }
        assert(data.subrange(off, off + ls)[ls - 1] == p[ls - 1]);
        lemma_length_prefix(data, off, n / 256, (ls - 1) as nat);
    }
}

proof fn lemma_split_packed(before: Seq<u8>, nals: Seq<Seq<u8>>, ls: nat, n: nat)
    requires
        1 <= ls,
        n <= nals.len(),
        packable(nals, ls),
    ensures
        nals_from(before + packed(nals, ls, n), before.len() as int, ls) == nals.skip(
            nals.len() - n,
        ),
    decreases n,
{
    let data = before + packed(nals, ls, n);
    let off = before.len() as int;
    if n == 0 {
        assert(nals.skip(nals.len() - n) =~= Seq::empty());
    } else {
        let nal = nals[nals.len() - n];
        let rest = packed(nals, ls, (n - 1) as nat);
        let prefix = length_prefix(nal.len(), ls);
        lemma_prefix_len(nal.len(), ls);
        let head = before + (prefix + nal);
        assert(data =~= head + rest);
        assert(data.subrange(off, off + ls) =~= prefix);
        lemma_length_prefix(data, off, nal.len(), ls);
        let end = off + ls + nal.len();
        assert(data.subrange(off + ls, end) =~= nal);
        lemma_split_packed(head, nals, ls, (n - 1) as nat);
        assert(head.len() == end);
        assert(nals.skip(nals.len() - n) =~= seq![nal] + nals.skip(nals.len() - (n - 1)));
    }
}

/// Splitting a sample gives back the NALs that were packed into it, for every
/// size of the length prefix that holds their lengths.
pub proof fn splitting_undoes_packing(nals: Seq<Seq<u8>>, ls: nat)
    requires
        1 <= ls,
        packable(nals, ls),
    ensures
        nals_from(packed(nals, ls, nals.len()), 0, ls) == nals,
{
    lemma_split_packed(Seq::empty(), nals, ls, nals.len());
    assert(Seq::<u8>::empty() + packed(nals, ls, nals.len()) =~= packed(nals, ls, nals.len()));
    assert(nals.skip(0) =~= nals);
}

// ---- frames ----

/// A frame in planar 4:2:0, strides equal to plane widths.
pub struct Planes {
    pub width: u32,
    pub height: u32,
    pub y: Vec<u8>,
    pub u: Vec<u8>,
    pub v: Vec<u8>,
}

/// The display window of a coded frame.
#[derive(Debug, Clone, Copy, PartialEq, Eq, Structural)]
pub struct Window {
    pub x0: u32,
    pub y0: u32,
    pub width: u32,
    pub height: u32,
}

/// Index in a coded luma plane of sample `k` of the display window, counted
/// row by row.
pub open spec fn luma_index(w: Window, stride: int, k: int) -> int {
    (w.y0 + k / w.width as int) * stride + w.x0 + k % (w.width as int)
}

/// Index in a coded chroma plane, where Cb and Cr alternate, of component `c`
/// of sample `k` of the half-size display window.
pub open spec fn chroma_index(w: Window, stride: int, c: int, k: int) -> int {
    let cw = w.width / 2;
    (w.y0 / 2 + k / cw as int) * stride + (w.x0 - w.x0 % 2) + 2 * (k % (cw as int)) + c
}

/// The samples of the display window.
pub open spec fn luma_window<T>(plane: Seq<T>, w: Window, stride: int) -> Seq<T> {
    Seq::new((w.width * w.height) as nat, |k: int| plane[luma_index(w, stride, k)])
}

/// One chroma component of the display window.
pub open spec fn chroma_window<T>(plane: Seq<T>, w: Window, stride: int, c: int) -> Seq<T> {
    Seq::new(
        ((w.width / 2) * (w.height / 2)) as nat,
        |k: int| plane[chroma_index(w, stride, c, k)],
    )
}

/// Whether the planes of a frame hold its display window.
pub open spec fn window_fits(w: Window, stride: int, luma_len: int, chroma_len: int) -> bool {
    &&& w.height > 0 ==> (w.y0 + w.height - 1) * stride + w.x0 + w.width <= luma_len
    &&& w.height >= 2 && w.width >= 2 ==> (w.y0 / 2 + w.height / 2 - 1) * stride + (w.x0 - w.x0
        % 2) + 2 * (w.width / 2) <= chroma_len
    &&& w.width * w.height <= usize::MAX
    &&& w.y0 + w.height <= usize::MAX
}

/// Row and column of a sample from its number.
proof fn lemma_row_col(row: int, col: int, w: int)
    requires
        0 <= row,
        0 <= col < w,
    ensures
        (row * w + col) / w == row,
        (row * w + col) % w == col,
{
    vstd::arithmetic::div_mod::lemma_fundamental_div_mod_converse(row * w + col, w, row, col);
}

/// A row that is not the last starts no later than the last.
proof fn lemma_row_start(row: int, last: int, stride: int)
    requires
        0 <= row <= last,
        0 <= stride,
    ensures
        0 <= row * stride <= last * stride,
{
    vstd::arithmetic::mul::lemma_mul_inequality(row, last, stride);
    vstd::arithmetic::mul::lemma_mul_nonnegative(row, stride);
}

/// Rows of a plane fit into its number of samples.
proof fn lemma_row_in_plane(row: int, h: int, w: int)
    requires
        0 <= row < h,
        0 <= w,
    ensures
        0 <= row * w,
        (row + 1) * w == row * w + w,
        (row + 1) * w <= h * w,
{
    vstd::arithmetic::mul::lemma_mul_inequality(row + 1, h, w);
    vstd::arithmetic::mul::lemma_mul_nonnegative(row, w);
    vstd::arithmetic::mul::lemma_mul_is_distributive_add_other_way(w, row, 1);
}

/// Copies the display window out of a coded luma plane.
pub fn crop_luma<T: Copy>(plane: &[T], w: Window, stride: usize) -> (out: Vec<T>)
    requires
        w.height > 0 ==> (w.y0 + w.height - 1) * stride + w.x0 + w.width <= plane@.len(),
        w.width * w.height <= usize::MAX,
        w.y0 + w.height <= usize::MAX,
    ensures
        out@ == luma_window(plane@, w, stride as int),
{
    let total: usize = plane.len();
    let (width, height): (usize, usize) = (w.width as usize, w.height as usize);
    let mut out: Vec<T> = Vec::new();
    let mut row: usize = 0;
    proof {
        vstd::arithmetic::mul::lemma_mul_nonnegative(w.width as int, w.height as int);
    }
    while row < height
        invariant
            row <= height,
            width == w.width,
            height == w.height,
            total == plane@.len(),
            w.y0 + w.height <= usize::MAX,
            w.height > 0 ==> (w.y0 + w.height - 1) * stride + w.x0 + w.width <= plane@.len(),
            out@.len() == row * width,
            forall|k: int|
                0 <= k < out@.len() ==> (#[trigger] out@[k]) == plane@[luma_index(
                    w,
                    stride as int,
                    k,
                )],
        decreases height - row,
    {
        proof {
            lemma_row_start(w.y0 + row, w.y0 + w.height - 1, stride as int);
            assert((w.y0 + row) * stride == (w.y0 as usize + row) * stride);
        }
        let src: usize = (w.y0 as usize + row) * stride + w.x0 as usize;
        let mut col: usize = 0;
        while col < width
            invariant
                col <= width,
                row < height,
                width == w.width,
                height == w.height,
                src == (w.y0 + row) * stride + w.x0,
                src + width <= plane@.len(),
                total == plane@.len(),
                out@.len() == row * width + col,
                forall|k: int|
                    0 <= k < out@.len() ==> (#[trigger] out@[k]) == plane@[luma_index(
                        w,
                        stride as int,
                        k,
                    )],
            decreases width - col,
        {
            out.push(plane[src + col]);
            proof {
                lemma_row_col(row as int, col as int, width as int);
            }
            col = col + 1;
        }
        proof {
            lemma_row_in_plane(row as int, height as int, width as int);
        }
        row = row + 1;
    }
    proof {
        vstd::arithmetic::mul::lemma_mul_is_commutative(width as int, height as int);
    }
    assert(out@ =~= luma_window(plane@, w, stride as int));
    out
}

/// Copies one component of the half-size display window out of a coded chroma
/// plane.
pub fn crop_chroma<T: Copy>(plane: &[T], w: Window, stride: usize, c: usize) -> (out: Vec<T>)
    requires
        c <= 1,
        w.height >= 2 && w.width >= 2 ==> (w.y0 / 2 + w.height / 2 - 1) * stride + (w.x0 - w.x0
            % 2) + 2 * (w.width / 2) <= plane@.len(),
        w.width * w.height <= usize::MAX,
        w.y0 + w.height <= usize::MAX,
    ensures
        out@ == chroma_window(plane@, w, stride as int, c as int),
{
    let total: usize = plane.len();
    let (cw, ch): (usize, usize) = ((w.width / 2) as usize, (w.height / 2) as usize);
    let x_even: usize = (w.x0 - w.x0 % 2) as usize;
    let mut out: Vec<T> = Vec::new();
    proof {
        vstd::arithmetic::mul::lemma_mul_nonnegative(cw as int, ch as int);
    }
    if cw > 0 {
        let mut row: usize = 0;
        while row < ch
            invariant
                c <= 1,
                row <= ch,
                0 < cw,
                cw == w.width / 2,
                ch == w.height / 2,
                x_even == w.x0 - w.x0 % 2,
                total == plane@.len(),
                w.y0 + w.height <= usize::MAX,
                w.height >= 2 && w.width >= 2 ==> (w.y0 / 2 + w.height / 2 - 1) * stride + (w.x0
                    - w.x0 % 2) + 2 * (w.width / 2) <= plane@.len(),
                out@.len() == row * cw,
                forall|k: int|
                    0 <= k < out@.len() ==> (#[trigger] out@[k]) == plane@[chroma_index(
                        w,
                        stride as int,
                        c as int,
                        k,
                    )],
            decreases ch - row,
        {
            proof {
                lemma_row_start(w.y0 / 2 + row, w.y0 / 2 + w.height / 2 - 1, stride as int);
                assert((w.y0 / 2 + row) * stride == ((w.y0 / 2) as usize + row) * stride);
            }
            let src: usize = ((w.y0 / 2) as usize + row) * stride + x_even;
            let mut col: usize = 0;
            while col < cw
                invariant
                    c <= 1,
                    col <= cw,
                    row < ch,
                    0 < cw,
                    cw == w.width / 2,
                    ch == w.height / 2,
                    src == (w.y0 / 2 + row) * stride + (w.x0 - w.x0 % 2),
                    src + 2 * cw <= plane@.len(),
                    total == plane@.len(),
                    out@.len() == row * cw + col,
                    forall|k: int|
                        0 <= k < out@.len() ==> (#[trigger] out@[k]) == plane@[chroma_index(
                            w,
                            stride as int,
                            c as int,
                            k,
                        )],
                decreases cw - col,
            {
                out.push(plane[src + 2 * col + c]);
                proof {
                    lemma_row_col(row as int, col as int, cw as int);
                }
                col = col + 1;
            }
            proof {
                lemma_row_in_plane(row as int, ch as int, cw as int);
            }
            row = row + 1;
        }
    }
    assert(out@.len() == cw * ch) by {
        vstd::arithmetic::mul::lemma_mul_is_commutative(cw as int, ch as int);
        vstd::arithmetic::mul::lemma_mul_basics(ch as int);
    }
    assert(out@ =~= chroma_window(plane@, w, stride as int, c as int));
    out
}

/// What a frame is at its display size.
pub open spec fn is_display_frame(f: Planes, w: Window, stride: int, y: Seq<u8>, uv: Seq<u8>) -> bool {
    &&& f.width == w.width
    &&& f.height == w.height
    &&& f.y@ == luma_window(y, w, stride)
    &&& f.u@ == chroma_window(uv, w, stride, 0)
    &&& f.v@ == chroma_window(uv, w, stride, 1)
}

/// NV12 at coded size to planar 4:2:0 at display size.
pub fn nv12_to_planes(frame: &Nv12Frame, w: Window) -> (f: Planes)
    requires
        window_fits(w, frame.stride as int, frame.y@.len() as int, frame.uv@.len() as int),
    ensures
        is_display_frame(f, w, frame.stride as int, frame.y@, frame.uv@),
{
    let stride: usize = frame.stride as usize;
    let y = crop_luma(frame.y.as_slice(), w, stride);
    let u = crop_chroma(frame.uv.as_slice(), w, stride, 0);
    let v = crop_chroma(frame.uv.as_slice(), w, stride, 1);
    Planes { width: w.width, height: w.height, y, u, v }
}

/// Little-endian 16-bit samples.
pub open spec fn samples_of(bytes: Seq<u8>) -> Seq<u16> {
    Seq::new(
        bytes.len() / 2,
        |i: int| (bytes[2 * i] as int + 256 * bytes[2 * i + 1] as int) as u16,
    )
}

/// Little-endian byte buffer to 16-bit samples; an odd last byte is left out.
pub fn le_u16(bytes: &[u8]) -> (out: Vec<u16>)
    ensures
        out@ == samples_of(bytes@),
{
    let n: usize = bytes.len() / 2;
    let mut out: Vec<u16> = Vec::new();
    let mut i: usize = 0;
    while i < n
        invariant
            i <= n,
            n == bytes@.len() / 2,
            bytes@.len() <= usize::MAX,
            out@.len() == i,
            forall|k: int| 0 <= k < i ==> (#[trigger] out@[k]) == samples_of(bytes@)[k],
        decreases n - i,
    {
        out.push(bytes[2 * i] as u16 + 256 * bytes[2 * i + 1] as u16);
        i = i + 1;
    }
    assert(out@ =~= samples_of(bytes@));
    out
}

/// The 10-bit value of a sample, which stands in the top bits.
pub open spec fn ten_bits(v: u16) -> u16 {
    v / 64
}

/// A sample reduced to 8 bits.
pub open spec fn eight_bits(v: u16) -> u8 {
    (ten_bits(v) / 4) as u8
}

fn reduce(v: &Vec<u16>) -> (out: Vec<u8>)
    ensures
        out@ == v@.map_values(|x: u16| eight_bits(x)),
{
    let mut out: Vec<u8> = Vec::new();
    let mut i: usize = 0;
    while i < v.len()
        invariant
            i <= v@.len(),
            out@.len() == i,
            forall|k: int| 0 <= k < i ==> (#[trigger] out@[k]) == eight_bits(v@[k]),
        decreases v@.len() - i,
    {
        out.push((v[i] / 64 / 4) as u8);
        i = i + 1;
    }
    assert(out@ =~= v@.map_values(|x: u16| eight_bits(x)));
    out
}

/// The 10-bit (Y, Cb, Cr) of luma sample `k`: its own luma with the chroma
/// pair that it shares with its neighbours.
pub open spec fn luma_pixel(y: Seq<u16>, uv: Seq<u16>, w: Window, stride: int, k: int) -> (
    u16,
    u16,
    u16,
) {
    let row = k / w.width as int;
    let col = k % (w.width as int);
    let c = (w.y0 / 2 + row / 2) * stride + (w.x0 - w.x0 % 2) + (col - col % 2);
    (ten_bits(y[luma_index(w, stride, k)]), ten_bits(uv[c]), ten_bits(uv[c + 1]))
}

/// The 10-bit (Y, Cb, Cr) of chroma sample `k`: the pair with the luma sample
/// at its top left.
pub open spec fn chroma_pixel(y: Seq<u16>, uv: Seq<u16>, w: Window, stride: int, k: int) -> (
    u16,
    u16,
    u16,
) {
    let cw = w.width / 2;
    let row = k / cw as int;
    let col = k % (cw as int);
    (
        ten_bits(y[(w.y0 + 2 * row) * stride + w.x0 + 2 * col]),
        ten_bits(uv[chroma_index(w, stride, 0, k)]),
        ten_bits(uv[chroma_index(w, stride, 1, k)]),
    )
}

/// Whether the chroma plane holds the pair of every luma sample.
pub open spec fn pairs_fit(w: Window, stride: int, chroma_len: int) -> bool {
    w.height > 0 && w.width > 0 ==> (w.y0 / 2 + (w.height - 1) / 2) * stride + (w.x0 - w.x0 % 2)
        + ((w.width - 1) - (w.width - 1) % 2) + 2 <= chroma_len
}

/// `luma` is a luma that the fold may give for `pixel`.
pub open spec fn luma_folds<F: Fn(u16, u16, u16) -> (u8, u8, u8)>(
    fold: F,
    pixel: (u16, u16, u16),
    luma: u8,
) -> bool {
    exists|t: (u8, u8, u8)| call_ensures(fold, pixel, t) && t.0 == luma
}

/// `cb` and `cr` are a chroma pair that the fold may give for `pixel`.
pub open spec fn chroma_folds<F: Fn(u16, u16, u16) -> (u8, u8, u8)>(
    fold: F,
    pixel: (u16, u16, u16),
    cb: u8,
    cr: u8,
) -> bool {
    exists|t: (u8, u8, u8)| call_ensures(fold, pixel, t) && t.1 == cb && t.2 == cr
}

fn fold_luma<F: Fn(u16, u16, u16) -> (u8, u8, u8)>(
    y: &Vec<u16>,
    uv: &Vec<u16>,
    w: Window,
    stride: usize,
    fold: &F,
) -> (out: Vec<u8>)
    requires
        window_fits(w, stride as int, y@.len() as int, uv@.len() as int),
        pairs_fit(w, stride as int, uv@.len() as int),
        forall|a: u16, b: u16, c: u16| call_requires(*fold, (a, b, c)),
    ensures
        out@.len() == w.width * w.height,
        forall|k: int|
            0 <= k < out@.len() ==> luma_folds(
                            *fold,
                            luma_pixel(y@, uv@, w, stride as int, k),
                            #[trigger] out@[k],
                        ),
{
    let (width, height): (usize, usize) = (w.width as usize, w.height as usize);
    let x_even: usize = (w.x0 - w.x0 % 2) as usize;
    let (ylen, clen): (usize, usize) = (y.len(), uv.len());
    let mut out: Vec<u8> = Vec::new();
    if width > 0 {
        let mut row: usize = 0;
        while row < height
            invariant
                row <= height,
                0 < width,
                width == w.width,
                height == w.height,
                x_even == w.x0 - w.x0 % 2,
                ylen == y@.len(),
                clen == uv@.len(),
                window_fits(w, stride as int, y@.len() as int, uv@.len() as int),
                pairs_fit(w, stride as int, uv@.len() as int),
                forall|a: u16, b: u16, c: u16| call_requires(*fold, (a, b, c)),
                out@.len() == row * width,
                forall|k: int|
                    0 <= k < out@.len() ==> luma_folds(
                            *fold,
                            luma_pixel(y@, uv@, w, stride as int, k),
                            #[trigger] out@[k],
                        ),
            decreases height - row,
        {
            proof {
                lemma_row_start(w.y0 + row, w.y0 + w.height - 1, stride as int);
                assert((w.y0 + row) * stride == (w.y0 as usize + row) * stride);
                lemma_row_start(w.y0 / 2 + row / 2, w.y0 / 2 + (w.height - 1) / 2, stride as int);
                assert((w.y0 / 2 + row / 2) * stride == ((w.y0 / 2) as usize + row / 2) * stride);
            }
            let ysrc: usize = (w.y0 as usize + row) * stride + w.x0 as usize;
            let csrc: usize = ((w.y0 / 2) as usize + row / 2) * stride + x_even;
            let mut col: usize = 0;
            while col < width
                invariant
                    row < height,
                    col <= width,
                    0 < width,
                    width == w.width,
                    height == w.height,
                    ysrc == (w.y0 + row) * stride + w.x0,
                    csrc == (w.y0 / 2 + row as int / 2) * stride + (w.x0 - w.x0 % 2),
                    ysrc + width <= ylen,
                    csrc + ((width - 1) - (width - 1) % 2) + 2 <= clen,
                    ylen == y@.len(),
                    clen == uv@.len(),
                    forall|a: u16, b: u16, c: u16| call_requires(*fold, (a, b, c)),
                    out@.len() == row * width + col,
                    forall|k: int|
                        0 <= k < out@.len() ==> luma_folds(
                            *fold,
                            luma_pixel(y@, uv@, w, stride as int, k),
                            #[trigger] out@[k],
                        ),
                decreases width - col,
            {
                let at: usize = csrc + (col - col % 2);
                let (y10, cb10, cr10): (u16, u16, u16) = (
                    y[ysrc + col] / 64,
                    uv[at] / 64,
                    uv[at + 1] / 64,
                );
                let t: (u8, u8, u8) = fold(y10, cb10, cr10);
                let ghost k = row * width + col;
                proof {
                    lemma_row_col(row as int, col as int, width as int);
                    assert(luma_pixel(y@, uv@, w, stride as int, k as int) == (y10, cb10, cr10));
                    assert(luma_folds(*fold, (y10, cb10, cr10), t.0));
                }
                out.push(t.0);
                col = col + 1;
            }
            proof {
                lemma_row_in_plane(row as int, height as int, width as int);
            }
            row = row + 1;
        }
    }
    proof {
        vstd::arithmetic::mul::lemma_mul_is_commutative(width as int, height as int);
        vstd::arithmetic::mul::lemma_mul_basics(height as int);
    }
    out
}

fn fold_chroma<F: Fn(u16, u16, u16) -> (u8, u8, u8)>(
    y: &Vec<u16>,
    uv: &Vec<u16>,
    w: Window,
    stride: usize,
    fold: &F,
) -> (out: (Vec<u8>, Vec<u8>))
    requires
        window_fits(w, stride as int, y@.len() as int, uv@.len() as int),
        forall|a: u16, b: u16, c: u16| call_requires(*fold, (a, b, c)),
    ensures
        out.0@.len() == (w.width / 2) * (w.height / 2),
        out.1@.len() == (w.width / 2) * (w.height / 2),
        forall|k: int|
            0 <= k < out.0@.len() ==> chroma_folds(
                            *fold,
                            chroma_pixel(y@, uv@, w, stride as int, k),
                            #[trigger] out.0@[k],
                            out.1@[k],
                        ),
{
    let (cw, ch): (usize, usize) = ((w.width / 2) as usize, (w.height / 2) as usize);
    let x_even: usize = (w.x0 - w.x0 % 2) as usize;
    let (ylen, clen): (usize, usize) = (y.len(), uv.len());
    let mut cb: Vec<u8> = Vec::new();
    let mut cr: Vec<u8> = Vec::new();
    if cw > 0 {
        let mut row: usize = 0;
        while row < ch
            invariant
                row <= ch,
                0 < cw,
                cw == w.width / 2,
                ch == w.height / 2,
                x_even == w.x0 - w.x0 % 2,
                ylen == y@.len(),
                clen == uv@.len(),
                window_fits(w, stride as int, y@.len() as int, uv@.len() as int),
                forall|a: u16, b: u16, c: u16| call_requires(*fold, (a, b, c)),
                cb@.len() == row * cw,
                cr@.len() == row * cw,
                forall|k: int|
                    0 <= k < cb@.len() ==> chroma_folds(
                            *fold,
                            chroma_pixel(y@, uv@, w, stride as int, k),
                            #[trigger] cb@[k],
                            cr@[k],
                        ),
            decreases ch - row,
        {
            proof {
                lemma_row_start(w.y0 + 2 * row, w.y0 + w.height - 1, stride as int);
                assert((w.y0 + 2 * row) * stride == (w.y0 as usize + 2 * row) * stride);
                lemma_row_start(w.y0 / 2 + row, w.y0 / 2 + w.height / 2 - 1, stride as int);
                assert((w.y0 / 2 + row) * stride == ((w.y0 / 2) as usize + row) * stride);
            }
            let ysrc: usize = (w.y0 as usize + 2 * row) * stride + w.x0 as usize;
            let csrc: usize = ((w.y0 / 2) as usize + row) * stride + x_even;
            let mut col: usize = 0;
            while col < cw
                invariant
                    row < ch,
                    col <= cw,
                    0 < cw,
                    cw == w.width / 2,
                    ch == w.height / 2,
                    ysrc == (w.y0 + 2 * row) * stride + w.x0,
                    csrc == (w.y0 / 2 + row) * stride + (w.x0 - w.x0 % 2),
                    ysrc + 2 * cw <= ylen,
                    csrc + 2 * cw <= clen,
                    ylen == y@.len(),
                    clen == uv@.len(),
                    forall|a: u16, b: u16, c: u16| call_requires(*fold, (a, b, c)),
                    cb@.len() == row * cw + col,
                    cr@.len() == row * cw + col,
                    forall|k: int|
                        0 <= k < cb@.len() ==> chroma_folds(
                            *fold,
                            chroma_pixel(y@, uv@, w, stride as int, k),
                            #[trigger] cb@[k],
                            cr@[k],
                        ),
                decreases cw - col,
            {
                let (y10, cb10, cr10): (u16, u16, u16) = (
                    y[ysrc + 2 * col] / 64,
                    uv[csrc + 2 * col] / 64,
                    uv[csrc + 2 * col + 1] / 64,
                );
                let t: (u8, u8, u8) = fold(y10, cb10, cr10);
                let ghost k = row * cw + col;
                proof {
                    lemma_row_col(row as int, col as int, cw as int);
                    assert(chroma_pixel(y@, uv@, w, stride as int, k as int) == (y10, cb10, cr10));
                    assert(chroma_folds(*fold, (y10, cb10, cr10), t.1, t.2));
                }
                cb.push(t.1);
                cr.push(t.2);
                col = col + 1;
            }
            proof {
                lemma_row_in_plane(row as int, ch as int, cw as int);
            }
            row = row + 1;
        }
    }
    proof {
        vstd::arithmetic::mul::lemma_mul_is_commutative(cw as int, ch as int);
        vstd::arithmetic::mul::lemma_mul_basics(ch as int);
    }
    (cb, cr)
}

/// Whether the planes of a frame hold what its display window needs.
pub open spec fn frame_fits(frame: H265Frame, w: Window, wide_gamut: bool) -> bool {
    let stride = frame.stride as int;
    if frame.bit_depth == 8 {
        window_fits(w, stride, frame.y@.len() as int, frame.uv@.len() as int)
    } else {
        &&& window_fits(
            w,
            stride,
            samples_of(frame.y@).len() as int,
            samples_of(frame.uv@).len() as int,
        )
        &&& wide_gamut ==> pairs_fit(w, stride, samples_of(frame.uv@).len() as int)
    }
}

/// A coded 8- or 10-bit frame to 8-bit planar 4:2:0 at display size. 8-bit
/// samples are copied. 10-bit samples lose their two lowest bits, or, for a
/// wide-gamut stream, go through `fold` as (Y, Cb, Cr).
pub fn to_display<F: Fn(u16, u16, u16) -> (u8, u8, u8)>(
    frame: &H265Frame,
    w: Window,
    wide_gamut: bool,
    fold: &F,
) -> (f: Planes)
    requires
        frame_fits(*frame, w, wide_gamut),
        forall|a: u16, b: u16, c: u16| call_requires(*fold, (a, b, c)),
    ensures
        f.width == w.width,
        f.height == w.height,
        frame.bit_depth == 8 ==> is_display_frame(f, w, frame.stride as int, frame.y@, frame.uv@),
        frame.bit_depth != 8 && !wide_gamut ==> ({
            let y = luma_window(samples_of(frame.y@), w, frame.stride as int);
            let u = chroma_window(samples_of(frame.uv@), w, frame.stride as int, 0);
            let v = chroma_window(samples_of(frame.uv@), w, frame.stride as int, 1);
            &&& f.y@ == y.map_values(|x: u16| eight_bits(x))
            &&& f.u@ == u.map_values(|x: u16| eight_bits(x))
            &&& f.v@ == v.map_values(|x: u16| eight_bits(x))
        }),
        frame.bit_depth != 8 && wide_gamut ==> ({
            let y = samples_of(frame.y@);
            let uv = samples_of(frame.uv@);
            let stride = frame.stride as int;
            &&& f.y@.len() == w.width * w.height
            &&& f.u@.len() == (w.width / 2) * (w.height / 2)
            &&& f.v@.len() == (w.width / 2) * (w.height / 2)
            &&& forall|k: int|
                0 <= k < f.y@.len() ==> luma_folds(
                    *fold,
                    luma_pixel(y, uv, w, stride, k),
                    #[trigger] f.y@[k],
                )
            &&& forall|k: int|
                0 <= k < f.u@.len() ==> chroma_folds(
                    *fold,
                    chroma_pixel(y, uv, w, stride, k),
                    #[trigger] f.u@[k],
                    f.v@[k],
                )
        }),
{
    let stride: usize = frame.stride as usize;
    if frame.bit_depth == 8 {
        let y = crop_luma(frame.y.as_slice(), w, stride);
        let u = crop_chroma(frame.uv.as_slice(), w, stride, 0);
        let v = crop_chroma(frame.uv.as_slice(), w, stride, 1);
        return Planes { width: w.width, height: w.height, y, u, v };
    }
    let y16 = le_u16(frame.y.as_slice());
    let uv16 = le_u16(frame.uv.as_slice());
    if wide_gamut {
        let y = fold_luma(&y16, &uv16, w, stride, fold);
        let (u, v) = fold_chroma(&y16, &uv16, w, stride, fold);
        Planes { width: w.width, height: w.height, y, u, v }
    } else {
        let y = reduce(&crop_luma(y16.as_slice(), w, stride));
        let u = reduce(&crop_chroma(uv16.as_slice(), w, stride, 0));
        let v = reduce(&crop_chroma(uv16.as_slice(), w, stride, 1));
        Planes { width: w.width, height: w.height, y, u, v }
    }
}

/// Whether a stream is wide gamut: the container says BT.2020 primaries, or it
/// says nothing and the stream is 10-bit.
pub fn is_wide_gamut(colr: Option<(u16, u16, u16)>, bit_depth_luma: u8) -> (b: bool)
    ensures
        b == (match colr {
            Some(c) => c.0 == 9,
            None => bit_depth_luma == 10,
        }),
{
    match colr {
        Some(c) => c.0 == 9,
        None => bit_depth_luma == 10,
    }
}

/// The display window is cut out of the coded planes: its sample at row `r`
/// and column `c` is the coded one `y0` rows down and `x0` columns to the
/// right of there.
pub proof fn window_is_cut_out<T>(plane: Seq<T>, w: Window, stride: int, r: int, c: int)
    requires
        0 <= r < w.height,
        0 <= c < w.width,
    ensures
        luma_window(plane, w, stride).len() == w.width * w.height,
        luma_window(plane, w, stride)[r * w.width + c] == plane[(w.y0 + r) * stride + (w.x0 + c)],
{
    let width = w.width as int;
    vstd::arithmetic::div_mod::lemma_fundamental_div_mod_converse(r * width + c, width, r, c);
    assert(0 <= r * width && r * width + c < width * w.height) by (nonlinear_arith)
        requires
            0 <= r < w.height,
            0 <= c < width,
    ;
}

/// Chroma is cut out at half the place and half the size, a pair of Cb and Cr
/// for every two rows and columns of luma: component `k` of the pair at row
/// `r` and column `c`.
pub proof fn chroma_window_is_cut_out<T>(
    plane: Seq<T>,
    w: Window,
    stride: int,
    k: int,
    r: int,
    c: int,
)
    requires
        0 <= r < w.height as int / 2,
        0 <= c < w.width as int / 2,
    ensures
        chroma_window(plane, w, stride, k).len() == (w.width / 2) * (w.height / 2),
        chroma_window(plane, w, stride, k)[r * (w.width / 2) + c] == plane[(w.y0 as int / 2 + r)
            * stride + 2 * (w.x0 as int / 2 + c) + k],
{
    let width = w.width as int / 2;
    vstd::arithmetic::div_mod::lemma_fundamental_div_mod_converse(r * width + c, width, r, c);
    assert(0 <= r * width && r * width + c < width * (w.height as int / 2)) by (nonlinear_arith)
        requires
            0 <= r < w.height as int / 2,
            0 <= c < width,
    ;
}

/// Luma and chroma share their pairs: the luma sample at row `r` and column
/// `c` goes with the chroma pair at half that place, and the pair with the
/// luma sample at twice its place.
pub proof fn luma_and_chroma_share_pairs(
    y: Seq<u16>,
    uv: Seq<u16>,
    w: Window,
    stride: int,
    r: int,
    c: int,
)
    requires
        0 <= r < w.height,
        0 <= c < w.width,
    ensures
        ({
            let k = r * w.width + c;
            let p = luma_pixel(y, uv, w, stride, k);
            &&& p.0 == ten_bits(luma_window(y, w, stride)[k])
            &&& r / 2 < w.height as int / 2 && c / 2 < w.width as int / 2 ==> ({
                let j = (r / 2) * (w.width as int / 2) + c / 2;
                let q = chroma_pixel(y, uv, w, stride, j);
                &&& p.1 == ten_bits(chroma_window(uv, w, stride, 0)[j])
                &&& p.2 == ten_bits(chroma_window(uv, w, stride, 1)[j])
                &&& q.1 == p.1 && q.2 == p.2
                &&& r % 2 == 0 && c % 2 == 0 ==> q == p
            })
        }),
{
    let width = w.width as int;
    let half = width / 2;
    let k = r * width + c;
    vstd::arithmetic::div_mod::lemma_fundamental_div_mod_converse(k, width, r, c);
    window_is_cut_out(y, w, stride, r, c);
    if r / 2 < w.height as int / 2 && c / 2 < half {
        let j = (r / 2) * half + c / 2;
        vstd::arithmetic::div_mod::lemma_fundamental_div_mod_converse(j, half, r / 2, c / 2);
        chroma_window_is_cut_out(uv, w, stride, 0, r / 2, c / 2);
        chroma_window_is_cut_out(uv, w, stride, 1, r / 2, c / 2);
        assert(c - c % 2 == 2 * (c / 2));
        assert(w.x0 - w.x0 % 2 == 2 * (w.x0 as int / 2));
        if r % 2 == 0 && c % 2 == 0 {
            assert(2 * (r / 2) == r && 2 * (c / 2) == c);
        }
    }
}

/// Ten bits stand at the top of a sample, and eight of those at the top of
/// them: whatever the lower bits hold.
pub proof fn samples_keep_their_top_bits(s: nat, low: nat)
    requires
        s < 1024,
        low < 64,
    ensures
        ten_bits((64 * s + low) as u16) == s,
        eight_bits((64 * s + low) as u16) <= s as int / 4,
        s < 4 * (eight_bits((64 * s + low) as u16) + 1),
{
}

/// Reading undoes writing: samples written in two bytes each, lowest first,
/// are read back, and an odd byte behind them is left out.
pub proof fn reading_samples_undoes_writing(list: Seq<u16>, bytes: Seq<u8>)
    requires
        bytes.len() / 2 == list.len(),
        forall|i: int|
            0 <= i < list.len() ==> crate::wire::stands_at(
                bytes,
                2 * i,
                crate::wire::low_first(#[trigger] list[i] as nat, 2),
            ),
    ensures
        samples_of(bytes) == list,
{
    assert forall|i: int| 0 <= i < list.len() implies samples_of(bytes)[i] == list[i] by {
        let v = list[i] as nat;
        let all = crate::wire::low_first(v, 2);
        assert(crate::wire::stands_at(bytes, 2 * i, all));
        reveal_with_fuel(crate::wire::low_first, 3);
        assert(all =~= seq![(v % 256) as u8, (v / 256 % 256) as u8]);
        assert(bytes[2 * i + 0] == all[0]);
        assert(bytes[2 * i + 1] == all[1]);
    }
    assert(samples_of(bytes) =~= list);
}

/// The slices of a sample are the NALs of its coded pictures, all of them and
/// in order: of H.264 those whose first byte ends in type 1 or 5, of H.265
/// those with a type of at most 31 above the first byte's lowest bit.
pub proof fn slices_are_the_picture_nals(codec: Codec, nals: Seq<Seq<u8>>)
    requires
        forall|k: int| 0 <= k < nals.len() ==> (#[trigger] nals[k]).len() > 0,
    ensures
        coded_slices(codec, nals, nals.len()) == nals.filter(
            |n: Seq<u8>|
                match codec {
                    Codec::H264 => n[0] % 32 == 1 || n[0] % 32 == 5,
                    Codec::H265 => n[0] as int / 2 % 64 <= 31,
                },
        ),
{
    lemma_slices(codec, nals, nals.len());
    assert(nals.take(nals.len() as int) =~= nals);
}

proof fn lemma_slices(codec: Codec, nals: Seq<Seq<u8>>, n: nat)
    requires
        n <= nals.len(),
        forall|k: int| 0 <= k < nals.len() ==> (#[trigger] nals[k]).len() > 0,
    ensures
        coded_slices(codec, nals, n) == nals.take(n as int).filter(
            |n: Seq<u8>|
                match codec {
                    Codec::H264 => n[0] % 32 == 1 || n[0] % 32 == 5,
                    Codec::H265 => n[0] as int / 2 % 64 <= 31,
                },
        ),
    decreases n,
{
    reveal(Seq::filter);
    if n > 0 {
        lemma_slices(codec, nals, (n - 1) as nat);
        let t = nals.take(n as int);
        assert(t.drop_last() =~= nals.take(n - 1));
        assert(t.last() == nals[n - 1]);
        assert(nals[n - 1].len() > 0);
        let b = nals[n - 1][0];
        assert(b & 0x1f == b % 32 && (b >> 1) & 0x3f == b / 2 % 64) by (bit_vector);
    }
}

/// A displayed frame holds the luma of its window, and of each pair of chroma
/// samples the first in one plane and the second in the other.
pub proof fn planes_part_the_chroma_pairs(
    f: Planes,
    w: Window,
    stride: int,
    y: Seq<u8>,
    uv: Seq<u8>,
    row: int,
    col: int,
)
    requires
        is_display_frame(f, w, stride, y, uv),
        0 <= row,
        0 <= col,
    ensures
        row < w.height && col < w.width ==> f.y@[row * w.width + col] == y[(w.y0 + row) * stride
            + w.x0 + col],
        row < w.height / 2 && col < w.width / 2 ==> f.u@[row * (w.width / 2) + col] == uv[(w.y0 / 2
            + row) * stride + 2 * (w.x0 / 2) + 2 * col],
        row < w.height / 2 && col < w.width / 2 ==> f.v@[row * (w.width / 2) + col] == uv[(w.y0 / 2
            + row) * stride + 2 * (w.x0 / 2) + 2 * col + 1],
        f.width == w.width,
        f.height == w.height,
{
    if row < w.height && col < w.width {
        lemma_place_in_row(row, col, w.width as int, w.height as int);
    }
    if row < w.height / 2 && col < w.width / 2 {
        lemma_place_in_row(row, col, (w.width / 2) as int, (w.height / 2) as int);
    }
}

proof fn lemma_place_in_row(row: int, col: int, width: int, height: int)
    requires
        0 <= row < height,
        0 <= col < width,
    ensures
        (row * width + col) / width == row,
        (row * width + col) % width == col,
        0 <= row * width + col < width * height,
{
    vstd::arithmetic::div_mod::lemma_fundamental_div_mod_converse(
        row * width + col,
        width,
        row,
        col,
    );
    assert(0 <= row * width + col < width * height) by (nonlinear_arith)
        requires
            0 <= row < height,
            0 <= col < width,
    ;
}

/// A NAL without a byte, and one that states more bytes than there are, end
/// the list.
pub proof fn empty_and_cut_nals_end_the_list(data: Seq<u8>, off: int, ls: nat, n: nat)
    requires
        0 <= off,
        crate::wire::fits(n, ls),
        crate::wire::stands_at(data, off, crate::wire::high_first(n, ls)),
        n == 0 || off + ls + n > data.len(),
    ensures
        nals_from(data, off, ls).len() == 0,
{
    crate::iso_writing::reading_undoes_writing(data, off, n, ls);
}

} // verus!
