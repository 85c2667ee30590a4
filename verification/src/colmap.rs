//! Binary sparse models of posed image sequences: cameras, images, points.
//! Floats are kept as their 64 bits.
use vstd::prelude::*;
use vstd::string::StringExecFns;

use crate::text::dec_string;
use crate::words::text_from_utf8;

verus! {

#[derive(Debug)]
pub enum ColmapError {
    Io(String),
    Malformed(String),
    UnsupportedModel(u32),
    NoSparseModel(String),
    Image(String, String),
}

/// `ColmapError` with its strings as character sequences.
pub enum ColmapErrorView {
    Io(Seq<char>),
    Malformed(Seq<char>),
    UnsupportedModel(u32),
    NoSparseModel(Seq<char>),
    Image(Seq<char>, Seq<char>),
}

impl View for ColmapError {
    type V = ColmapErrorView;

    open spec fn view(&self) -> ColmapErrorView {
        match *self {
            ColmapError::Io(s) => ColmapErrorView::Io(s@),
            ColmapError::Malformed(s) => ColmapErrorView::Malformed(s@),
            ColmapError::UnsupportedModel(id) => ColmapErrorView::UnsupportedModel(id),
            ColmapError::NoSparseModel(s) => ColmapErrorView::NoSparseModel(s@),
            ColmapError::Image(p, s) => ColmapErrorView::Image(p@, s@),
        }
    }
}

impl ColmapErrorView {
    /// The message shown to a user.
    pub open spec fn message(self) -> Seq<char> {
        match self {
            ColmapErrorView::Io(s) => "i/o error: "@ + s,
            ColmapErrorView::Malformed(s) => "malformed colmap file: "@ + s,
            ColmapErrorView::UnsupportedModel(id) => "unsupported camera model id "@
                + crate::text::dec(id as nat)
                + " (supported: SIMPLE_PINHOLE, PINHOLE, SIMPLE_RADIAL)"@,
            ColmapErrorView::NoSparseModel(s) => "no sparse model found under "@ + s
                + " (looked for sparse/0 and sparse)"@,
            ColmapErrorView::Image(p, s) => "image load failed for "@ + p + ": "@ + s,
        }
    }
}

impl ColmapError {
    /// The message shown to a user.
    pub fn message(&self) -> (m: String)
        ensures
            m@ == self@.message(),
    {
        match self {
            ColmapError::Io(s) => {
                let mut m = String::from_str("i/o error: ");
                m.append(s.as_str());
                m
            },
            ColmapError::Malformed(s) => {
                let mut m = String::from_str("malformed colmap file: ");
                m.append(s.as_str());
                m
            },
            ColmapError::UnsupportedModel(id) => {
                let mut m = String::from_str("unsupported camera model id ");
                m.append(dec_string(*id as u64).as_str());
                m.append(" (supported: SIMPLE_PINHOLE, PINHOLE, SIMPLE_RADIAL)");
                m
            },
            ColmapError::NoSparseModel(s) => {
                let mut m = String::from_str("no sparse model found under ");
                m.append(s.as_str());
                m.append(" (looked for sparse/0 and sparse)");
                m
            },
            ColmapError::Image(p, s) => {
                let mut m = String::from_str("image load failed for ");
                m.append(p.as_str());
                m.append(": ");
                m.append(s.as_str());
                m
            },
        }
    }
}

/// The error of a file that ends inside a record.
pub open spec fn ended_early() -> ColmapErrorView {
    ColmapErrorView::Io("failed to fill whole buffer"@)
}

fn early_end() -> (e: ColmapError)
    ensures
        e@ == ended_early(),
{
    ColmapError::Io(String::from_str("failed to fill whole buffer"))
}

/// The 32-bit little-endian number at `at`.
pub open spec fn u32_at(data: Seq<u8>, at: int) -> u32 {
    crate::ply::reader::word_at(data, at)
}

/// The 64-bit little-endian number at `at`.
pub open spec fn u64_at(data: Seq<u8>, at: int) -> u64 {
    crate::profile::tick_low_first(data, at) as u64
}

fn get_u32(data: &[u8], at: usize) -> (v: u32)
    requires
        at + 4 <= data@.len(),
        data@.len() <= usize::MAX,
    ensures
        v == u32_at(data@, at as int),
{
    data[at] as u32 + 0x100 * (data[at + 1] as u32) + 0x1_0000 * (data[at + 2] as u32) + 0x100_0000
        * (data[at + 3] as u32)
}

fn get_u64(data: &[u8], at: usize) -> (v: u64)
    requires
        at + 8 <= data@.len(),
        data@.len() <= usize::MAX,
    ensures
        v == u64_at(data@, at as int),
{
    data[at] as u64 + 0x100 * (data[at + 1] as u64) + 0x1_0000 * (data[at + 2] as u64) + 0x100_0000
        * (data[at + 3] as u64) + 0x1_0000_0000 * (data[at + 4] as u64) + 0x100_0000_0000 * (data[at
        + 5] as u64) + 0x1_0000_0000_0000 * (data[at + 6] as u64) + 0x100_0000_0000_0000 * (data[at
        + 7] as u64)
}

/// Where a skip of `count` items of `size` bytes from `pos` ends: at the end
/// of the file where that comes first.
pub open spec fn skipped_to(len: int, pos: int, count: int, size: int) -> int {
    if pos + count * size <= len {
        pos + count * size
    } else {
        len
    }
}

fn skip_items(len: usize, pos: usize, count: u64, size: u64) -> (end: usize)
    requires
        pos <= len,
        1 <= size,
    ensures
        end == skipped_to(len as int, pos as int, count as int, size as int),
        pos <= end <= len,
{
    let left: u64 = (len - pos) as u64;
    let fits: bool = count <= left / size;
    proof {
        vstd::arithmetic::div_mod::lemma_fundamental_div_mod(left as int, size as int);
        vstd::arithmetic::mul::lemma_mul_nonnegative(count as int, size as int);
        let q = left / size;
        if fits {
            assert(count * size <= left) by (nonlinear_arith)
                requires
                    count <= q,
                    left == size * q + left % size,
                    0 <= left % size,
                    0 <= size,
            ;
        } else {
            assert(count * size > left) by (nonlinear_arith)
                requires
                    count >= q + 1,
                    left == size * q + left % size,
                    left % size < size,
                    0 <= size,
            ;
        }
    }
    if fits {
        pos + (count * size) as usize
    } else {
        len
    }
}

// ---- cameras ----

/// Intrinsics of a camera.
#[derive(Debug, Clone, Copy, PartialEq, Eq, Structural)]
pub struct CameraIntrinsics {
    pub width: u64,
    pub height: u64,
    pub fx: u64,
    pub fy: u64,
    pub cx: u64,
    pub cy: u64,
    /// Radial distortion, where the model has one. It is not applied.
    pub radial: Option<u64>,
}

/// The camera at `pos`, with its number, and where the next one starts.
pub open spec fn camera_at(data: Seq<u8>, pos: int) -> Result<
    ((u32, CameraIntrinsics), int),
    ColmapErrorView,
> {
    if pos + 24 > data.len() {
        Err(ended_early())
    } else {
        let id = u32_at(data, pos);
        let model = u32_at(data, pos + 4);
        let width = u64_at(data, pos + 8);
        let height = u64_at(data, pos + 16);
        let p = |k: int| u64_at(data, pos + 24 + 8 * k);
        if model == 0 {
            if pos + 48 > data.len() {
                Err(ended_early())
            } else {
                Ok(
                    (
                        (
                            id,
                            CameraIntrinsics {
                                width,
                                height,
                                fx: p(0),
                                fy: p(0),
                                cx: p(1),
                                cy: p(2),
                                radial: None,
                            },
                        ),
                        pos + 48,
                    ),
                )
            }
        } else if model == 1 || model == 2 {
            if pos + 56 > data.len() {
                Err(ended_early())
            } else if model == 1 {
                Ok(
                    (
                        (
                            id,
                            CameraIntrinsics {
                                width,
                                height,
                                fx: p(0),
                                fy: p(1),
                                cx: p(2),
                                cy: p(3),
                                radial: None,
                            },
                        ),
                        pos + 56,
                    ),
                )
            } else {
                Ok(
                    (
                        (
                            id,
                            CameraIntrinsics {
                                width,
                                height,
                                fx: p(0),
                                fy: p(0),
                                cx: p(1),
                                cy: p(2),
                                radial: Some(p(3)),
                            },
                        ),
                        pos + 56,
                    ),
                )
            }
        } else {
            Err(ColmapErrorView::UnsupportedModel(model))
        }
    }
}

/// `n` cameras from `pos` on.
pub open spec fn cameras_from(data: Seq<u8>, pos: int, n: nat) -> Result<
    Seq<(u32, CameraIntrinsics)>,
    ColmapErrorView,
>
    decreases n,
{
    if n == 0 {
        Ok(Seq::empty())
    } else {
        match camera_at(data, pos) {
            Err(e) => Err(e),
            Ok((camera, next)) => match cameras_from(data, next, (n - 1) as nat) {
                Err(e) => Err(e),
                Ok(rest) => Ok(seq![camera] + rest),
            },
        }
    }
}

/// The cameras of a file.
pub open spec fn cameras_in(data: Seq<u8>) -> Result<
    Seq<(u32, CameraIntrinsics)>,
    ColmapErrorView,
> {
    if data.len() < 8 {
        Err(ended_early())
    } else {
        cameras_from(data, 8, u64_at(data, 0) as nat)
    }
}

fn read_camera(data: &[u8], pos: usize) -> (r: Result<
    ((u32, CameraIntrinsics), usize),
    ColmapError,
>)
    requires
        pos <= data@.len() <= usize::MAX,
    ensures
        match camera_at(data@, pos as int) {
            Ok((camera, next)) => r matches Ok((c, n)) && c == camera && n == next && pos < n
                <= data@.len(),
            Err(e) => r matches Err(x) && x@ == e,
        },
{
    let len: usize = data.len();
    if len - pos < 24 {
        return Err(early_end());
    }
    let id: u32 = get_u32(data, pos);
    let model: u32 = get_u32(data, pos + 4);
    let width: u64 = get_u64(data, pos + 8);
    let height: u64 = get_u64(data, pos + 16);
    if model == 0 {
        if len - pos < 48 {
            return Err(early_end());
        }
        let f: u64 = get_u64(data, pos + 24);
        let cx: u64 = get_u64(data, pos + 32);
        let cy: u64 = get_u64(data, pos + 40);
        Ok(((id, CameraIntrinsics { width, height, fx: f, fy: f, cx, cy, radial: None }), pos + 48))
    } else if model == 1 {
        if len - pos < 56 {
            return Err(early_end());
        }
        let fx: u64 = get_u64(data, pos + 24);
        let fy: u64 = get_u64(data, pos + 32);
        let cx: u64 = get_u64(data, pos + 40);
        let cy: u64 = get_u64(data, pos + 48);
        Ok(((id, CameraIntrinsics { width, height, fx, fy, cx, cy, radial: None }), pos + 56))
    } else if model == 2 {
        if len - pos < 56 {
            return Err(early_end());
        }
        let f: u64 = get_u64(data, pos + 24);
        let cx: u64 = get_u64(data, pos + 32);
        let cy: u64 = get_u64(data, pos + 40);
        let k: u64 = get_u64(data, pos + 48);
        Ok(
            (
                (id, CameraIntrinsics { width, height, fx: f, fy: f, cx, cy, radial: Some(k) }),
                pos + 56,
            ),
        )
    } else {
        Err(ColmapError::UnsupportedModel(model))
    }
}

/// Reads the cameras of a file, in order.
pub fn read_cameras(data: &[u8]) -> (r: Result<Vec<(u32, CameraIntrinsics)>, ColmapError>)
    ensures
        match cameras_in(data@) {
            Ok(list) => r matches Ok(v) && v@ == list,
            Err(e) => r matches Err(x) && x@ == e,
        },
{
    let len: usize = data.len();
    assert(data@.len() == len);
    if len < 8 {
        return Err(early_end());
    }
    let n: u64 = get_u64(data, 0);
    let mut out: Vec<(u32, CameraIntrinsics)> = Vec::new();
    let mut pos: usize = 8;
    let mut i: u64 = 0;
    proof {
        let rest = cameras_from(data@, 8, n as nat);
        if rest is Ok {
            assert(out@ + rest->Ok_0 =~= rest->Ok_0);
        }
    }
    while i < n
        invariant
            i <= n,
            len == data@.len(),
            pos <= len,
            match cameras_from(data@, pos as int, (n - i) as nat) {
                Ok(rest) => cameras_in(data@) == Ok::<
                    Seq<(u32, CameraIntrinsics)>,
                    ColmapErrorView,
                >(out@ + rest),
                Err(e) => cameras_in(data@) == Err::<
                    Seq<(u32, CameraIntrinsics)>,
                    ColmapErrorView,
                >(e),
            },
        decreases n - i,
    {
        let ghost before = out@;
        let (camera, next) = read_camera(data, pos)?;
        out.push(camera);
        proof {
            let rest = cameras_from(data@, next as int, (n - i - 1) as nat);
            if rest is Ok {
                assert(before + (seq![camera] + rest->Ok_0) =~= out@ + rest->Ok_0);
            }
        }
        pos = next;
        i = i + 1;
    }
    assert(out@ + Seq::<(u32, CameraIntrinsics)>::empty() =~= out@);
    Ok(out)
}

/// First place at or after `i` of the camera with this number, or the length.
pub open spec fn camera_place(list: Seq<(u32, CameraIntrinsics)>, id: u32, i: int) -> int
    decreases list.len() - i,
{
    if i >= list.len() || list[i].0 == id {
        i
    } else {
        camera_place(list, id, i + 1)
    }
}

/// Intrinsics of the camera that an image names.
pub fn intrinsics(list: &Vec<(u32, CameraIntrinsics)>, id: u32) -> (r: Result<
    CameraIntrinsics,
    ColmapError,
>)
    ensures
        ({
            let i = camera_place(list@, id, 0);
            if i < list@.len() {
                r == Ok::<CameraIntrinsics, ColmapError>(list@[i].1)
            } else {
                r matches Err(e) && e@ == ColmapErrorView::Malformed(
                    "image references unknown camera"@,
                )
            }
        }),
{
    let mut k: usize = 0;
    while k < list.len()
        invariant
            k <= list@.len(),
            camera_place(list@, id, 0) == camera_place(list@, id, k as int),
        decreases list@.len() - k,
    {
        if list[k].0 == id {
            return Ok(list[k].1);
        }
        k = k + 1;
    }
    Err(ColmapError::Malformed(String::from_str("image references unknown camera")))
}

// ---- images ----

/// An image: its name, and the pose of the world in its camera.
#[derive(Debug)]
pub struct RawImage {
    pub name: String,
    /// Rotation from world to camera, scalar part first.
    pub quat_wxyz: [u64; 4],
    pub t: [u64; 3],
    pub camera_id: u32,
}

#[verifier::ext_equal]
pub struct RawImageView {
    pub name: Seq<char>,
    pub quat_wxyz: Seq<u64>,
    pub t: Seq<u64>,
    pub camera_id: u32,
}

impl View for RawImage {
    type V = RawImageView;

    open spec fn view(&self) -> RawImageView {
        RawImageView {
            name: self.name@,
            quat_wxyz: self.quat_wxyz@,
            t: self.t@,
            camera_id: self.camera_id,
        }
    }
}

/// First zero byte at or after `pos`, or the length.
pub open spec fn zero_at(data: Seq<u8>, pos: int) -> int
    decreases data.len() - pos,
{
    if pos >= data.len() || data[pos] == 0 {
        pos
    } else {
        zero_at(data, pos + 1)
    }
}

/// The image at `pos`, and where the next one starts. What it says of its
/// points is passed over.
pub open spec fn image_at(data: Seq<u8>, pos: int) -> Result<(RawImageView, int), ColmapErrorView> {
    let end = zero_at(data, pos + 64);
    if pos + 64 > data.len() || end >= data.len() {
        Err(ended_early())
    } else if !vstd::utf8::valid_utf8(data.subrange(pos + 64, end)) {
        Err(ColmapErrorView::Malformed("non-utf8 image name"@))
    } else if end + 9 > data.len() {
        Err(ended_early())
    } else {
        Ok(
            (
                RawImageView {
                    name: vstd::utf8::decode_utf8(data.subrange(pos + 64, end)),
                    quat_wxyz: Seq::new(4, |k: int| u64_at(data, pos + 4 + 8 * k)),
                    t: Seq::new(3, |k: int| u64_at(data, pos + 36 + 8 * k)),
                    camera_id: u32_at(data, pos + 60),
                },
                skipped_to(data.len() as int, end + 9, u64_at(data, end + 1) as int, 24),
            ),
        )
    }
}

/// `n` images from `pos` on.
pub open spec fn images_from(data: Seq<u8>, pos: int, n: nat) -> Result<
    Seq<RawImageView>,
    ColmapErrorView,
>
    decreases n,
{
    if n == 0 {
        Ok(Seq::empty())
    } else {
        match image_at(data, pos) {
            Err(e) => Err(e),
            Ok((image, next)) => match images_from(data, next, (n - 1) as nat) {
                Err(e) => Err(e),
                Ok(rest) => Ok(seq![image] + rest),
            },
        }
    }
}

/// The images of a file.
pub open spec fn images_in(data: Seq<u8>) -> Result<Seq<RawImageView>, ColmapErrorView> {
    if data.len() < 8 {
        Err(ended_early())
    } else {
        images_from(data, 8, u64_at(data, 0) as nat)
    }
}

fn read_image(data: &[u8], pos: usize) -> (r: Result<(RawImage, usize), ColmapError>)
    requires
        pos <= data@.len() <= usize::MAX,
    ensures
        match image_at(data@, pos as int) {
            Ok((image, next)) => r matches Ok((x, n)) && x@ == image && n == next && n
                <= data@.len(),
            Err(e) => r matches Err(x) && x@ == e,
        },
{
    let len: usize = data.len();
    if len - pos < 64 {
        return Err(early_end());
    }
    let quat_wxyz: [u64; 4] = [
        get_u64(data, pos + 4),
        get_u64(data, pos + 12),
        get_u64(data, pos + 20),
        get_u64(data, pos + 28),
    ];
    let t: [u64; 3] = [get_u64(data, pos + 36), get_u64(data, pos + 44), get_u64(data, pos + 52)];
    let camera_id: u32 = get_u32(data, pos + 60);
    let start: usize = pos + 64;
    let mut end: usize = start;
    let mut bytes: Vec<u8> = Vec::new();
    assert(bytes@ =~= data@.subrange(start as int, start as int));
    while end < len && data[end] != 0
        invariant
            start <= end <= len,
            len == data@.len(),
            bytes@ == data@.subrange(start as int, end as int),
            zero_at(data@, start as int) == zero_at(data@, end as int),
        decreases len - end,
    {
        bytes.push(data[end]);
        assert(bytes@ =~= data@.subrange(start as int, end + 1));
        end = end + 1;
    }
    if end == len {
        return Err(early_end());
    }
    let name = match text_from_utf8(bytes) {
        Some(name) => name,
        None => {
            return Err(ColmapError::Malformed(String::from_str("non-utf8 image name")));
        },
    };
    if len - end < 9 {
        return Err(early_end());
    }
    let num_points: u64 = get_u64(data, end + 1);
    let next: usize = skip_items(len, end + 9, num_points, 24);
    proof {
        assert(quat_wxyz@ =~= Seq::new(4, |k: int| u64_at(data@, pos + 4 + 8 * k)));
        assert(t@ =~= Seq::new(3, |k: int| u64_at(data@, pos + 36 + 8 * k)));
    }
    Ok((RawImage { name, quat_wxyz, t, camera_id }, next))
}

pub open spec fn image_views(list: Seq<RawImage>) -> Seq<RawImageView> {
    list.map_values(|i: RawImage| i@)
}

/// Reads the images of a file, in order.
pub fn read_images(data: &[u8]) -> (r: Result<Vec<RawImage>, ColmapError>)
    ensures
        match images_in(data@) {
            Ok(list) => r matches Ok(v) && image_views(v@) == list,
            Err(e) => r matches Err(x) && x@ == e,
        },
{
    let len: usize = data.len();
    assert(data@.len() == len);
    if len < 8 {
        return Err(early_end());
    }
    let n: u64 = get_u64(data, 0);
    let mut out: Vec<RawImage> = Vec::new();
    let mut pos: usize = 8;
    let mut i: u64 = 0;
    proof {
        let rest = images_from(data@, 8, n as nat);
        if rest is Ok {
            assert(image_views(out@) + rest->Ok_0 =~= rest->Ok_0);
        }
    }
    while i < n
        invariant
            i <= n,
            len == data@.len(),
            pos <= len,
            match images_from(data@, pos as int, (n - i) as nat) {
                Ok(rest) => images_in(data@) == Ok::<Seq<RawImageView>, ColmapErrorView>(
                    image_views(out@) + rest,
                ),
                Err(e) => images_in(data@) == Err::<Seq<RawImageView>, ColmapErrorView>(e),
            },
        decreases n - i,
    {
        let ghost before = image_views(out@);
        let (image, next) = read_image(data, pos)?;
        let ghost v = image@;
        out.push(image);
        proof {
            let rest = images_from(data@, next as int, (n - i - 1) as nat);
            assert(image_views(out@) =~= before.push(v));
            if rest is Ok {
                assert(before + (seq![v] + rest->Ok_0) =~= before.push(v) + rest->Ok_0);
            }
        }
        pos = next;
        i = i + 1;
    }
    assert(image_views(out@) + Seq::<RawImageView>::empty() =~= image_views(out@));
    Ok(out)
}

// ---- points ----

/// A reconstructed point: position and colour.
#[derive(Debug)]
pub struct SfmPoint {
    pub position: [u64; 3],
    pub rgb: [u8; 3],
}

#[verifier::ext_equal]
pub struct SfmPointView {
    pub position: Seq<u64>,
    pub rgb: Seq<u8>,
}

impl View for SfmPoint {
    type V = SfmPointView;

    open spec fn view(&self) -> SfmPointView {
        SfmPointView { position: self.position@, rgb: self.rgb@ }
    }
}

/// The point at `pos`, and where the next one starts. Its number, its error
/// and its track are passed over.
pub open spec fn point_at(data: Seq<u8>, pos: int) -> Result<(SfmPointView, int), ColmapErrorView> {
    if pos + 51 > data.len() {
        Err(ended_early())
    } else {
        Ok(
            (
                SfmPointView {
                    position: Seq::new(3, |k: int| u64_at(data, pos + 8 + 8 * k)),
                    rgb: data.subrange(pos + 32, pos + 35),
                },
                skipped_to(data.len() as int, pos + 51, u64_at(data, pos + 43) as int, 8),
            ),
        )
    }
}

/// `n` points from `pos` on.
pub open spec fn points_from(data: Seq<u8>, pos: int, n: nat) -> Result<
    Seq<SfmPointView>,
    ColmapErrorView,
>
    decreases n,
{
    if n == 0 {
        Ok(Seq::empty())
    } else {
        match point_at(data, pos) {
            Err(e) => Err(e),
            Ok((point, next)) => match points_from(data, next, (n - 1) as nat) {
                Err(e) => Err(e),
                Ok(rest) => Ok(seq![point] + rest),
            },
        }
    }
}

/// The points of a file.
pub open spec fn points_in(data: Seq<u8>) -> Result<Seq<SfmPointView>, ColmapErrorView> {
    if data.len() < 8 {
        Err(ended_early())
    } else {
        points_from(data, 8, u64_at(data, 0) as nat)
    }
}

fn read_point(data: &[u8], pos: usize) -> (r: Result<(SfmPoint, usize), ColmapError>)
    requires
        pos <= data@.len() <= usize::MAX,
    ensures
        match point_at(data@, pos as int) {
            Ok((point, next)) => r matches Ok((x, n)) && x@ == point && n == next && n
                <= data@.len(),
            Err(e) => r matches Err(x) && x@ == e,
        },
{
    let len: usize = data.len();
    if len - pos < 51 {
        return Err(early_end());
    }
    let position: [u64; 3] = [
        get_u64(data, pos + 8),
        get_u64(data, pos + 16),
        get_u64(data, pos + 24),
    ];
    let rgb: [u8; 3] = [data[pos + 32], data[pos + 33], data[pos + 34]];
    let track_len: u64 = get_u64(data, pos + 43);
    let next: usize = skip_items(len, pos + 51, track_len, 8);
    proof {
        assert(position@ =~= Seq::new(3, |k: int| u64_at(data@, pos + 8 + 8 * k)));
        assert(rgb@ =~= data@.subrange(pos + 32, pos + 35));
    }
    Ok((SfmPoint { position, rgb }, next))
}

pub open spec fn point_views(list: Seq<SfmPoint>) -> Seq<SfmPointView> {
    list.map_values(|p: SfmPoint| p@)
}

/// Reads the points of a file, in order.
pub fn read_points(data: &[u8]) -> (r: Result<Vec<SfmPoint>, ColmapError>)
    ensures
        match points_in(data@) {
            Ok(list) => r matches Ok(v) && point_views(v@) == list,
            Err(e) => r matches Err(x) && x@ == e,
        },
{
    let len: usize = data.len();
    assert(data@.len() == len);
    if len < 8 {
        return Err(early_end());
    }
    let n: u64 = get_u64(data, 0);
    let mut out: Vec<SfmPoint> = Vec::new();
    let mut pos: usize = 8;
    let mut i: u64 = 0;
    proof {
        let rest = points_from(data@, 8, n as nat);
        if rest is Ok {
            assert(point_views(out@) + rest->Ok_0 =~= rest->Ok_0);
        }
    }
    while i < n
        invariant
            i <= n,
            len == data@.len(),
            pos <= len,
            match points_from(data@, pos as int, (n - i) as nat) {
                Ok(rest) => points_in(data@) == Ok::<Seq<SfmPointView>, ColmapErrorView>(
                    point_views(out@) + rest,
                ),
                Err(e) => points_in(data@) == Err::<Seq<SfmPointView>, ColmapErrorView>(e),
            },
        decreases n - i,
    {
        let ghost before = point_views(out@);
        let (point, next) = read_point(data, pos)?;
        let ghost v = point@;
        out.push(point);
        proof {
            let rest = points_from(data@, next as int, (n - i - 1) as nat);
            assert(point_views(out@) =~= before.push(v));
            if rest is Ok {
                assert(before + (seq![v] + rest->Ok_0) =~= before.push(v) + rest->Ok_0);
            }
        }
        pos = next;
        i = i + 1;
    }
    assert(point_views(out@) + Seq::<SfmPointView>::empty() =~= point_views(out@));
    Ok(out)
}

/// A file that promises `n` records and is read without error gives `n`.
pub proof fn readers_give_the_promised_count(data: Seq<u8>, pos: int, n: nat)
    ensures
        cameras_from(data, pos, n) matches Ok(s) ==> s.len() == n,
        images_from(data, pos, n) matches Ok(s) ==> s.len() == n,
        points_from(data, pos, n) matches Ok(s) ==> s.len() == n,
    decreases n,
{
    if n > 0 {
        if camera_at(data, pos) is Ok {
            let next = (camera_at(data, pos)->Ok_0).1;
            readers_give_the_promised_count(data, next, (n - 1) as nat);
        }
        if image_at(data, pos) is Ok {
            let next = (image_at(data, pos)->Ok_0).1;
            readers_give_the_promised_count(data, next, (n - 1) as nat);
        }
        if point_at(data, pos) is Ok {
            let next = (point_at(data, pos)->Ok_0).1;
            readers_give_the_promised_count(data, next, (n - 1) as nat);
        }
    }
}

// ---- the dataset ----

/// Whether `a` and `b` agree up to place `k`, where `a` ends or has the lower
/// character.
pub open spec fn lower_at(a: Seq<char>, b: Seq<char>, k: int) -> bool {
    &&& 0 <= k <= a.len()
    &&& k < b.len()
    &&& forall|i: int| 0 <= i < k ==> #[trigger] a[i] == b[i]
    &&& k == a.len() || (a[k] as u32) < (b[k] as u32)
}

/// Whether `a` comes before `b` in the order of their characters.
pub open spec fn text_before(a: Seq<char>, b: Seq<char>) -> bool {
    exists|k: int| lower_at(a, b, k)
}

proof fn lemma_text_before_is_strict(a: Seq<char>, b: Seq<char>)
    ensures
        text_before(a, b) ==> !text_before(b, a) && a != b,
{
    if text_before(a, b) {
        let k = choose|k: int| lower_at(a, b, k);
        if text_before(b, a) {
            let l = choose|l: int| lower_at(b, a, l);
            if l < k {
                assert(a[l] == b[l]);
            } else if k < l {
                assert(b[k] == a[k]);
            }
        }
    }
}

proof fn lemma_text_before_chains(a: Seq<char>, b: Seq<char>, c: Seq<char>)
    requires
        text_before(a, b),
        text_before(b, c),
    ensures
        text_before(a, c),
{
    let k = choose|k: int| lower_at(a, b, k);
    let l = choose|l: int| lower_at(b, c, l);
    let m = if k < l {
        k
    } else {
        l
    };
    assert forall|i: int| 0 <= i < m implies #[trigger] a[i] == c[i] by {
        assert(a[i] == b[i] && b[i] == c[i]);
    }
    if k < l {
        assert(b[k] == c[k]);
    } else if l < k {
        assert(a[l] == b[l]);
    }
    assert(lower_at(a, c, m));
}

/// Compares two texts by their characters.
fn is_before(a: &str, b: &str) -> (r: bool)
    ensures
        r == text_before(a@, b@),
        !r ==> a@ == b@ || text_before(b@, a@),
{
    let na: usize = a.unicode_len();
    let nb: usize = b.unicode_len();
    let mut k: usize = 0;
    while k < na && k < nb && a.get_char(k) == b.get_char(k)
        invariant
            na == a@.len(),
            nb == b@.len(),
            k <= na,
            k <= nb,
            forall|i: int| 0 <= i < k ==> #[trigger] a@[i] == b@[i],
        decreases na - k,
    {
        k = k + 1;
    }
    let r: bool = k < nb && (k == na || (a.get_char(k) as u32) < (b.get_char(k) as u32));
    proof {
        lemma_text_before_is_strict(a@, b@);
        lemma_text_before_is_strict(b@, a@);
        if r {
            assert(lower_at(a@, b@, k as int));
        } else if k < na {
            assert(lower_at(b@, a@, k as int));
        } else {
            assert(a@ =~= b@);
        }
    }
    r
}

/// Whether image `a` stands before image `b`: by name, and by place where the
/// names agree.
pub open spec fn stands_before(images: Seq<RawImage>, a: int, b: int) -> bool {
    text_before(images[a].name@, images[b].name@) || (images[a].name@ == images[b].name@ && a < b)
}

/// `order` lists places of `images`, each before the next.
pub open spec fn in_name_order(images: Seq<RawImage>, order: Seq<usize>) -> bool {
    &&& forall|i: int| 0 <= i < order.len() ==> (#[trigger] order[i]) < images.len()
    &&& forall|i: int, j: int|
        0 <= i < j < order.len() ==> stands_before(
            images,
            #[trigger] order[i] as int,
            #[trigger] order[j] as int,
        )
}

proof fn lemma_stands_before_chains(images: Seq<RawImage>, a: int, b: int, c: int)
    requires
        stands_before(images, a, b),
        stands_before(images, b, c),
    ensures
        stands_before(images, a, c),
{
    if text_before(images[a].name@, images[b].name@) && text_before(
        images[b].name@,
        images[c].name@,
    ) {
        lemma_text_before_chains(images[a].name@, images[b].name@, images[c].name@);
    }
}

/// The places of the images by name: the order of a data set's views. Images
/// of the same name keep their order.
pub fn view_order(images: &Vec<RawImage>) -> (order: Vec<usize>)
    ensures
        in_name_order(images@, order@),
        order@.len() == images@.len(),
        forall|p: usize| p < images@.len() ==> #[trigger] order@.contains(p),
{
    let mut order: Vec<usize> = Vec::new();
    let mut n: usize = 0;
    while n < images.len()
        invariant
            n <= images@.len(),
            order@.len() == n,
            in_name_order(images@, order@),
            forall|i: int| 0 <= i < n ==> (#[trigger] order@[i]) < n,
            forall|p: usize| p < n ==> #[trigger] order@.contains(p),
        decreases images@.len() - n,
    {
        let ghost before = order@;
        let mut at: usize = n;
        while at > 0 && is_before(images[n].name.as_str(), images[order[at - 1]].name.as_str())
            invariant
                at <= n,
                n < images@.len(),
                order@ == before,
                order@.len() == n,
                in_name_order(images@, order@),
                forall|i: int| 0 <= i < n ==> (#[trigger] order@[i]) < n,
                forall|i: int|
                    at <= i < n ==> stands_before(images@, n as int, #[trigger] order@[i] as int),
            decreases at,
        {
            at = at - 1;
        }
        proof {
            assert forall|i: int| 0 <= i < at implies stands_before(
                images@,
                #[trigger] before[i] as int,
                n as int,
            ) by {
                let last = before[at - 1] as int;
                assert(stands_before(images@, last, n as int));
                if i < at - 1 {
                    lemma_stands_before_chains(images@, before[i] as int, last, n as int);
                }
            }
        }
        order.insert(at, n);
        proof {
            assert(order@ == before.insert(at as int, n));
            assert forall|p: usize| p < n + 1 implies #[trigger] order@.contains(p) by {
                if p == n {
                    assert(order@[at as int] == n);
                } else {
                    assert(before.contains(p));
                    let i = choose|i: int| 0 <= i < before.len() && before[i] == p;
                    if i < at {
                        assert(order@[i] == p);
                    } else {
                        assert(order@[i + 1] == p);
                    }
                }
            }
            assert forall|i: int, j: int| 0 <= i < j < order@.len() implies stands_before(
                images@,
                #[trigger] order@[i] as int,
                #[trigger] order@[j] as int,
            ) by {
                let ii = if i < at {
                    i
                } else {
                    i - 1
                };
                let jj = if j < at {
                    j
                } else {
                    j - 1
                };
                if i == at {
                    assert(order@[j] == before[jj]);
                } else if j == at {
                    assert(order@[i] == before[ii]);
                } else {
                    assert(order@[i] == before[ii] && order@[j] == before[jj]);
                }
            }
        }
        n = n + 1;
    }
    order
}

/// Directory of the images: the scaled one where it is asked for and there.
pub fn images_dir(downscale: u32, scaled_exists: bool) -> (s: String)
    ensures
        s@ == (if downscale > 1 && scaled_exists {
            "images_"@ + crate::text::dec(downscale as nat)
        } else {
            "images"@
        }),
{
    if downscale > 1 && scaled_exists {
        let mut s = String::from_str("images_");
        s.append(dec_string(downscale as u64).as_str());
        s
    } else {
        String::from_str("images")
    }
}

/// Whether loaded images must be resized: where a smaller scale is asked for
/// and the directory does not hold it.
pub fn needs_resize(downscale: u32, pre_scaled: bool) -> (b: bool)
    ensures
        b == (downscale > 1 && !pre_scaled),
{
    downscale > 1 && !pre_scaled
}

/// The two numbers with a cross between them.
pub open spec fn size_text(w: u32, h: u32) -> Seq<char> {
    crate::text::dec(w as nat) + "x"@ + crate::text::dec(h as nat)
}

/// Every image has the size of the dataset.
pub fn check_size(name: &str, got: (u32, u32), want: (u32, u32)) -> (r: Result<(), ColmapError>)
    ensures
        r is Ok <==> got == want,
        r matches Err(e) ==> e@ == ColmapErrorView::Malformed(
            name@ + ": size "@ + size_text(got.0, got.1) + " != dataset "@ + size_text(
                want.0,
                want.1,
            ),
        ),
{
    if got.0 == want.0 && got.1 == want.1 {
        return Ok(());
    }
    let mut m = String::from_str(name);
    m.append(": size ");
    m.append(dec_string(got.0 as u64).as_str());
    m.append("x");
    m.append(dec_string(got.1 as u64).as_str());
    m.append(" != dataset ");
    m.append(dec_string(want.0 as u64).as_str());
    m.append("x");
    m.append(dec_string(want.1 as u64).as_str());
    proof {
        assert(m@ =~= name@ + ": size "@ + size_text(got.0, got.1) + " != dataset "@ + size_text(
            want.0,
            want.1,
        ));
    }
    Err(ColmapError::Malformed(m))
}

/// A name comes before every longer name that starts with it, and of two names
/// that part at a character the one with the lower character comes first,
/// whatever follows.
pub proof fn names_are_ordered_by_their_characters(
    start: Seq<char>,
    low: char,
    high: char,
    rest: Seq<char>,
    other: Seq<char>,
)
    requires
        (low as u32) < (high as u32),
    ensures
        text_before(start, start + seq![low] + rest),
        !text_before(start + seq![low] + rest, start),
        text_before(start + seq![low] + rest, start + seq![high] + other),
        !text_before(start + seq![high] + other, start + seq![low] + rest),
        !text_before(start, start),
{
    let a = start + seq![low] + rest;
    let b = start + seq![high] + other;
    let k = start.len() as int;
    assert(lower_at(start, a, k));
    assert(a[k] == low && b[k] == high);
    assert(lower_at(a, b, k));
    lemma_text_before_is_strict(start, a);
    lemma_text_before_is_strict(a, b);
    lemma_text_before_is_strict(start, start);
}

/// A camera is found by its number, wherever it stands; of two with one number
/// the first counts.
pub proof fn cameras_are_found_by_their_number(
    before: Seq<(u32, CameraIntrinsics)>,
    id: u32,
    camera: CameraIntrinsics,
    behind: Seq<(u32, CameraIntrinsics)>,
)
    requires
        forall|k: int| 0 <= k < before.len() ==> (#[trigger] before[k]).0 != id,
    ensures
        camera_place(before + seq![(id, camera)] + behind, id, 0) == before.len(),
        camera_place(before, id, 0) == before.len(),
{
    lemma_camera_passed(before + seq![(id, camera)] + behind, id, 0, before.len() as int);
    lemma_camera_passed(before, id, 0, before.len() as int);
}

proof fn lemma_camera_passed(list: Seq<(u32, CameraIntrinsics)>, id: u32, i: int, n: int)
    requires
        0 <= i <= n <= list.len(),
        forall|k: int| 0 <= k < n ==> (#[trigger] list[k]).0 != id,
        n == list.len() || list[n].0 == id,
    ensures
        camera_place(list, id, i) == n,
    decreases n - i,
{
    if i < n {
        lemma_camera_passed(list, id, i + 1, n);
    }
}

/// Items are passed over one after another, as far as there are any: none
/// moves by nothing, one moves by its size where it is there, and what is cut
/// off ends at the end.
pub proof fn items_are_passed_over_one_by_one(len: int, pos: int, a: int, b: int, size: int)
    requires
        0 <= pos <= len,
        0 <= a,
        0 <= b,
        1 <= size,
    ensures
        skipped_to(len, pos, 0, size) == pos,
        pos + size <= len ==> skipped_to(len, pos, 1, size) == pos + size,
        pos + size > len ==> skipped_to(len, pos, 1, size) == len,
        skipped_to(len, pos, a + b, size) == skipped_to(
            len,
            skipped_to(len, pos, a, size),
            b,
            size,
        ),
{
    assert(0 * size == 0 && 1 * size == size && (a + b) * size == a * size + b * size && a * size
        >= 0 && b * size >= 0) by (nonlinear_arith)
        requires
            0 <= a,
            0 <= b,
            1 <= size,
    ;
}

} // verus!
