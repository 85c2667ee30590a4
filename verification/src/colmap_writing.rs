//! Binary sparse models as they are written, and the laws that reading gives
//! back what was written.
use crate::colmap::{
    cameras_from, cameras_in, ended_early, images_from, images_in, points_from, points_in,
    CameraIntrinsics, ColmapErrorView, RawImageView, SfmPointView,
};
use crate::wire::{low_first, stands_at};
use vstd::prelude::*;

verus! {

broadcast use crate::wire::lemma_low_first_len;

/// A camera as a file holds it: the model is 0 for one focal length and the
/// principal point, 1 for two focal lengths and the principal point, 2 for
/// one focal length, the principal point and a radial coefficient.
pub struct CameraRecord {
    pub id: u32,
    pub model: u32,
    pub width: u64,
    pub height: u64,
    pub params: Seq<u64>,
}

/// 64-bit numbers one behind the other.
pub open spec fn words(list: Seq<u64>) -> Seq<u8>
    decreases list.len(),
{
    if list.len() == 0 {
        Seq::empty()
    } else {
        low_first(list[0] as nat, 8) + words(list.skip(1))
    }
}

pub open spec fn camera_bytes(r: CameraRecord) -> Seq<u8> {
    low_first(r.id as nat, 4) + (low_first(r.model as nat, 4) + (low_first(r.width as nat, 8) + (
    low_first(r.height as nat, 8) + words(r.params))))
}

pub open spec fn all_camera_bytes(list: Seq<CameraRecord>) -> Seq<u8>
    decreases list.len(),
{
    if list.len() == 0 {
        Seq::empty()
    } else {
        camera_bytes(list[0]) + all_camera_bytes(list.skip(1))
    }
}

/// A camera of a model that is read, with the parameters of that model.
pub open spec fn complete(r: CameraRecord) -> bool {
    r.model == 0 && r.params.len() == 3 || r.model == 1 && r.params.len() == 4 || r.model == 2
        && r.params.len() == 4
}

/// The numbers of a list stand eight bytes apart.
proof fn lemma_words(data: Seq<u8>, pos: int, list: Seq<u64>, k: int)
    requires
        stands_at(data, pos, words(list)),
        0 <= k < list.len(),
    ensures
        crate::colmap::u64_at(data, pos + 8 * k) == list[k],
        pos + 8 * k + 8 <= data.len(),
    decreases list.len(),
{
    crate::wire::lemma_stands_in_pieces(
        data,
        pos,
        low_first(list[0] as nat, 8),
        words(list.skip(1)),
    );
    if k == 0 {
        crate::wire::lemma_eight_low_first(data, pos, list[0]);
    } else {
        lemma_words(data, pos + 8, list.skip(1), k - 1);
    }
}

proof fn lemma_words_len(list: Seq<u64>)
    ensures
        words(list).len() == 8 * list.len(),
    decreases list.len(),
{
    if list.len() > 0 {
        lemma_words_len(list.skip(1));
    }
}

/// What the head of a camera record reads as.
proof fn lemma_camera_head(data: Seq<u8>, pos: int, r: CameraRecord)
    requires
        stands_at(data, pos, camera_bytes(r)),
    ensures
        pos + 24 + 8 * r.params.len() <= data.len(),
        camera_bytes(r).len() == 24 + 8 * r.params.len(),
        crate::colmap::u32_at(data, pos) == r.id,
        crate::colmap::u32_at(data, pos + 4) == r.model,
        crate::colmap::u64_at(data, pos + 8) == r.width,
        crate::colmap::u64_at(data, pos + 16) == r.height,
        stands_at(data, pos + 24, words(r.params)),
{
    let rest3 = low_first(r.height as nat, 8) + words(r.params);
    let rest2 = low_first(r.width as nat, 8) + rest3;
    let rest1 = low_first(r.model as nat, 4) + rest2;
    lemma_words_len(r.params);
    crate::wire::lemma_stands_in_pieces(data, pos, low_first(r.id as nat, 4), rest1);
    crate::wire::lemma_four_low_first(data, pos, r.id);
    crate::wire::lemma_stands_in_pieces(data, pos + 4, low_first(r.model as nat, 4), rest2);
    crate::wire::lemma_four_low_first(data, pos + 4, r.model);
    crate::wire::lemma_stands_in_pieces(data, pos + 8, low_first(r.width as nat, 8), rest3);
    crate::wire::lemma_eight_low_first(data, pos + 8, r.width);
    crate::wire::lemma_stands_in_pieces(
        data,
        pos + 16,
        low_first(r.height as nat, 8),
        words(r.params),
    );
    crate::wire::lemma_eight_low_first(data, pos + 16, r.height);
}

/// What a camera that was read owes to the record it was read from.
pub open spec fn camera_agrees(camera: (u32, CameraIntrinsics), r: CameraRecord) -> bool {
    let i = camera.1;
    let p = r.params;
    &&& camera.0 == r.id
    &&& i.width == r.width
    &&& i.height == r.height
    &&& r.model == 0 ==> i.fx == p[0] && i.fy == p[0] && i.cx == p[1] && i.cy == p[2]
        && i.radial is None
    &&& r.model == 1 ==> i.fx == p[0] && i.fy == p[1] && i.cx == p[2] && i.cy == p[3]
        && i.radial is None
    &&& r.model == 2 ==> i.fx == p[0] && i.fy == p[0] && i.cx == p[1] && i.cy == p[2] && i.radial
        == Some(p[3])
}

proof fn lemma_cameras_from(data: Seq<u8>, pos: int, list: Seq<CameraRecord>)
    requires
        stands_at(data, pos, all_camera_bytes(list)),
        forall|i: int| 0 <= i < list.len() ==> complete(#[trigger] list[i]),
    ensures
        cameras_from(data, pos, list.len()) matches Ok(s) && s.len() == list.len() && forall|i: int|
            0 <= i < s.len() ==> camera_agrees(#[trigger] s[i], list[i]),
    decreases list.len(),
{
    if list.len() > 0 {
        let r = list[0];
        crate::wire::lemma_stands_in_pieces(
            data,
            pos,
            camera_bytes(r),
            all_camera_bytes(list.skip(1)),
        );
        lemma_camera_head(data, pos, r);
        lemma_words(data, pos + 24, r.params, 0);
        lemma_words(data, pos + 24, r.params, 1);
        lemma_words(data, pos + 24, r.params, 2);
        if r.params.len() == 4 {
            lemma_words(data, pos + 24, r.params, 3);
        }
        assert forall|i: int| 0 <= i < list.skip(1).len() implies complete(
            #[trigger] list.skip(1)[i],
        ) by {
            assert(complete(list[i + 1]));
        }
        let next = pos + camera_bytes(r).len();
        lemma_cameras_from(data, next, list.skip(1));
        let s = cameras_from(data, pos, list.len())->Ok_0;
        let rest = cameras_from(data, next, list.skip(1).len())->Ok_0;
        assert forall|i: int| 0 <= i < s.len() implies camera_agrees(#[trigger] s[i], list[i]) by {
            if i > 0 {
                assert(s[i] == rest[i - 1]);
                assert(list[i] == list.skip(1)[i - 1]);
            }
        }
    }
}

/// Reading undoes writing: a file of the number of cameras and then each
/// camera's number, model, size and parameters reads as those cameras, in
/// order. One focal length stands for both; it is followed by the principal
/// point, across before down, and that by the radial coefficient where the
/// model has one.
pub proof fn reading_cameras_undoes_writing(list: Seq<CameraRecord>, behind: Seq<u8>)
    requires
        list.len() <= u64::MAX,
        forall|i: int| 0 <= i < list.len() ==> complete(#[trigger] list[i]),
    ensures
        cameras_in(low_first(list.len(), 8) + (all_camera_bytes(list) + behind)) matches Ok(s)
            && s.len() == list.len() && forall|i: int|
            0 <= i < s.len() ==> {
                let (r, (id, c)) = (list[i], #[trigger] s[i]);
                &&& id == r.id && c.width == r.width && c.height == r.height
                &&& c.fx == r.params[0]
                &&& if r.model == 1 {
                    c.fy == r.params[1] && c.cx == r.params[2] && c.cy == r.params[3]
                } else {
                    c.fy == r.params[0] && c.cx == r.params[1] && c.cy == r.params[2]
                }
                &&& c.radial == if r.model == 2 {
                    Some(r.params[3])
                } else {
                    None
                }
            },
{
    let body = all_camera_bytes(list) + behind;
    let data = low_first(list.len(), 8) + body;
    assert(stands_at(data, 0, low_first(list.len(), 8) + body));
    crate::wire::lemma_stands_in_pieces(data, 0, low_first(list.len(), 8), body);
    crate::wire::lemma_eight_low_first(data, 0, list.len() as u64);
    crate::wire::lemma_stands_in_pieces(data, 8, all_camera_bytes(list), behind);
    lemma_cameras_from(data, 8, list);
    let s = cameras_in(data)->Ok_0;
    assert forall|i: int| 0 <= i < s.len() implies camera_agrees(#[trigger] s[i], list[i])
        && complete(list[i]) by {}
}

/// A radial coefficient changes nothing else: cameras of one focal length
/// with the same number, size, focal length and principal point read alike
/// with and without one.
pub proof fn radial_camera_reads_as_the_simple_one(
    simple: CameraRecord,
    radial: CameraRecord,
    a: Seq<u8>,
    b: Seq<u8>,
)
    requires
        simple.model == 0,
        simple.params.len() == 3,
        radial.model == 2,
        radial.params.len() == 4,
        radial.params.take(3) == simple.params,
        radial.id == simple.id,
        radial.width == simple.width,
        radial.height == simple.height,
        a == low_first(1, 8) + camera_bytes(simple),
        b == low_first(1, 8) + camera_bytes(radial),
    ensures
        cameras_in(a) matches Ok(s) && cameras_in(b) matches Ok(t) && s.len() == 1 && t.len() == 1
            && t[0] == (s[0].0, CameraIntrinsics { radial: Some(radial.params[3]), ..s[0].1 }),
{
    let l = seq![simple];
    let m = seq![radial];
    assert(l.skip(1) =~= Seq::empty());
    assert(m.skip(1) =~= Seq::empty());
    let none = Seq::<CameraRecord>::empty();
    assert(all_camera_bytes(none) =~= Seq::<u8>::empty());
    assert(l.skip(1) == none && m.skip(1) == none);
    assert(all_camera_bytes(l) == camera_bytes(l[0]) + all_camera_bytes(none));
    assert(all_camera_bytes(m) == camera_bytes(m[0]) + all_camera_bytes(none));
    assert(all_camera_bytes(l) =~= camera_bytes(simple));
    assert(all_camera_bytes(m) =~= camera_bytes(radial));
    assert(a =~= low_first(l.len(), 8) + (all_camera_bytes(l) + Seq::<u8>::empty()));
    assert(b =~= low_first(m.len(), 8) + (all_camera_bytes(m) + Seq::<u8>::empty()));
    assert(complete(l[0]) && complete(m[0]));
    reading_cameras_undoes_writing(l, Seq::<u8>::empty());
    reading_cameras_undoes_writing(m, Seq::<u8>::empty());
    let s = cameras_in(a)->Ok_0;
    let t = cameras_in(b)->Ok_0;
    assert(s[0].0 == simple.id && t[0].0 == radial.id);
    assert(radial.params.take(3)[0] == radial.params[0]);
    assert(radial.params.take(3)[1] == radial.params[1]);
    assert(radial.params.take(3)[2] == radial.params[2]);
}

/// A camera of any other model is refused by its model's number, and a file
/// that ends before the parameters of a camera is refused as too short.
pub proof fn other_cameras_are_refused(
    list: Seq<CameraRecord>,
    r: CameraRecord,
    data: Seq<u8>,
    count: nat,
)
    requires
        list.len() < count <= u64::MAX,
        forall|i: int| 0 <= i < list.len() ==> complete(#[trigger] list[i]),
        stands_at(data, 0, low_first(count, 8) + all_camera_bytes(list)),
    ensures
        r.model > 2 && stands_at(data, 8int + all_camera_bytes(list).len(), camera_bytes(r))
            ==> cameras_in(data) == Err::<Seq<(u32, CameraIntrinsics)>, ColmapErrorView>(
            ColmapErrorView::UnsupportedModel(r.model),
        ),
        complete(r) && data.len() < 8 + all_camera_bytes(list).len() + camera_bytes(r).len() && (
        data.len() >= 8 + all_camera_bytes(list).len() + 24 ==> stands_at(
            data,
            8int + all_camera_bytes(list).len(),
            camera_bytes(r).take(24),
        )) ==> cameras_in(data) == Err::<Seq<(u32, CameraIntrinsics)>, ColmapErrorView>(
            ended_early(),
        ),
{
    crate::wire::lemma_stands_in_pieces(data, 0, low_first(count, 8), all_camera_bytes(list));
    crate::wire::lemma_eight_low_first(data, 0, count as u64);
    lemma_cameras_refused(list, r, data, 8, count);
}

proof fn lemma_cameras_refused(
    list: Seq<CameraRecord>,
    r: CameraRecord,
    data: Seq<u8>,
    pos: int,
    count: nat,
)
    requires
        list.len() < count,
        0 <= pos,
        forall|i: int| 0 <= i < list.len() ==> complete(#[trigger] list[i]),
        stands_at(data, pos, all_camera_bytes(list)),
    ensures
        r.model > 2 && stands_at(data, pos + all_camera_bytes(list).len(), camera_bytes(r))
            ==> cameras_from(data, pos, count) == Err::<
            Seq<(u32, CameraIntrinsics)>,
            ColmapErrorView,
        >(ColmapErrorView::UnsupportedModel(r.model)),
        complete(r) && data.len() < pos + all_camera_bytes(list).len() + camera_bytes(r).len() && (
        data.len() >= pos + all_camera_bytes(list).len() + 24 ==> stands_at(
            data,
            pos + all_camera_bytes(list).len(),
            camera_bytes(r).take(24),
        )) ==> cameras_from(data, pos, count) == Err::<
            Seq<(u32, CameraIntrinsics)>,
            ColmapErrorView,
        >(ended_early()),
    decreases list.len(),
{
    if list.len() > 0 {
        let first = list[0];
        crate::wire::lemma_stands_in_pieces(
            data,
            pos,
            camera_bytes(first),
            all_camera_bytes(list.skip(1)),
        );
        lemma_camera_head(data, pos, first);
        assert forall|i: int| 0 <= i < list.skip(1).len() implies complete(
            #[trigger] list.skip(1)[i],
        ) by {
            assert(complete(list[i + 1]));
        }
        lemma_cameras_refused(
            list.skip(1),
            r,
            data,
            pos + camera_bytes(first).len(),
            (count - 1) as nat,
        );
    } else {
        lemma_words_len(r.params);
        if r.model > 2 && stands_at(data, pos, camera_bytes(r)) {
            lemma_camera_head(data, pos, r);
        } else if complete(r) && data.len() < pos + camera_bytes(r).len() && data.len() >= pos + 24
            && stands_at(data, pos, camera_bytes(r).take(24)) {
            lemma_camera_head_alone(data, pos, r);
        }
    }
}

proof fn lemma_camera_head_alone(data: Seq<u8>, pos: int, r: CameraRecord)
    requires
        stands_at(data, pos, camera_bytes(r).take(24)),
    ensures
        crate::colmap::u32_at(data, pos + 4) == r.model,
{
    let empty = CameraRecord { params: Seq::empty(), ..r };
    assert(camera_bytes(empty) =~= camera_bytes(r).take(24));
    lemma_camera_head(data, pos, empty);
}

/// An image as a file holds it. The name is in UTF-8, without the zero byte
/// that ends it; each observed point has two coordinates and the point's
/// number.
pub struct ImageRecord {
    pub id: u32,
    pub quat_wxyz: Seq<u64>,
    pub t: Seq<u64>,
    pub camera_id: u32,
    pub name: Seq<u8>,
    pub points: Seq<(u64, u64, u64)>,
}

pub open spec fn observed_bytes(list: Seq<(u64, u64, u64)>) -> Seq<u8>
    decreases list.len(),
{
    if list.len() == 0 {
        Seq::empty()
    } else {
        low_first(list[0].0 as nat, 8) + low_first(list[0].1 as nat, 8) + low_first(
            list[0].2 as nat,
            8,
        ) + observed_bytes(list.skip(1))
    }
}

pub open spec fn image_bytes(r: ImageRecord) -> Seq<u8> {
    low_first(r.id as nat, 4) + (words(r.quat_wxyz) + (words(r.t) + (low_first(
        r.camera_id as nat,
        4,
    ) + (r.name + (seq![0u8] + (low_first(r.points.len(), 8) + observed_bytes(r.points)))))))
}

pub open spec fn all_image_bytes(list: Seq<ImageRecord>) -> Seq<u8>
    decreases list.len(),
{
    if list.len() == 0 {
        Seq::empty()
    } else {
        image_bytes(list[0]) + all_image_bytes(list.skip(1))
    }
}

/// An image with a rotation, a translation and a readable name.
pub open spec fn complete_image(r: ImageRecord) -> bool {
    &&& r.quat_wxyz.len() == 4
    &&& r.t.len() == 3
    &&& r.points.len() <= u64::MAX
    &&& vstd::utf8::valid_utf8(r.name)
    &&& forall|i: int| 0 <= i < r.name.len() ==> #[trigger] r.name[i] != 0
}

proof fn lemma_observed_len(list: Seq<(u64, u64, u64)>)
    ensures
        observed_bytes(list).len() == 24 * list.len(),
    decreases list.len(),
{
    if list.len() > 0 {
        lemma_observed_len(list.skip(1));
    }
}

proof fn lemma_zero_at(data: Seq<u8>, pos: int, end: int)
    requires
        0 <= pos <= end < data.len(),
        data[end] == 0,
        forall|i: int| pos <= i < end ==> #[trigger] data[i] != 0,
    ensures
        crate::colmap::zero_at(data, pos) == end,
    decreases end - pos,
{
    if pos < end {
        lemma_zero_at(data, pos + 1, end);
    }
}

proof fn lemma_image_at(data: Seq<u8>, pos: int, r: ImageRecord)
    requires
        stands_at(data, pos, image_bytes(r)),
        complete_image(r),
    ensures
        crate::colmap::image_at(data, pos) == Ok::<(RawImageView, int), ColmapErrorView>(
            (
                RawImageView {
                    name: vstd::utf8::decode_utf8(r.name),
                    quat_wxyz: r.quat_wxyz,
                    t: r.t,
                    camera_id: r.camera_id,
                },
                pos + image_bytes(r).len(),
            ),
        ),
{
    let rest6 = low_first(r.points.len(), 8) + observed_bytes(r.points);
    let rest5 = seq![0u8] + rest6;
    let rest4 = r.name + rest5;
    let rest3 = low_first(r.camera_id as nat, 4) + rest4;
    let rest2 = words(r.t) + rest3;
    let rest1 = words(r.quat_wxyz) + rest2;
    lemma_words_len(r.quat_wxyz);
    lemma_words_len(r.t);
    lemma_observed_len(r.points);
    crate::wire::lemma_stands_in_pieces(data, pos, low_first(r.id as nat, 4), rest1);
    crate::wire::lemma_stands_in_pieces(data, pos + 4, words(r.quat_wxyz), rest2);
    crate::wire::lemma_stands_in_pieces(data, pos + 36, words(r.t), rest3);
    crate::wire::lemma_stands_in_pieces(data, pos + 60, low_first(r.camera_id as nat, 4), rest4);
    crate::wire::lemma_four_low_first(data, pos + 60, r.camera_id);
    crate::wire::lemma_stands_in_pieces(data, pos + 64, r.name, rest5);
    let end = pos + 64 + r.name.len();
    crate::wire::lemma_stands_in_pieces(data, end, seq![0u8], rest6);
    assert(data[end + 0] == seq![0u8][0]);
    crate::wire::lemma_stands_in_pieces(
        data,
        end + 1,
        low_first(r.points.len(), 8),
        observed_bytes(r.points),
    );
    crate::wire::lemma_eight_low_first(data, end + 1, r.points.len() as u64);
    assert forall|i: int| pos + 64 <= i < end implies #[trigger] data[i] != 0 by {
        assert(data[(pos + 64) + (i - pos - 64)] == r.name[i - pos - 64]);
    }
    lemma_zero_at(data, pos + 64, end);
    assert(data.subrange(pos + 64, end) =~= r.name) by {
        assert forall|i: int| 0 <= i < r.name.len() implies data.subrange(pos + 64, end)[i]
            == r.name[i] by {
            assert(data[(pos + 64) + i] == r.name[i]);
        }
    }
    let quat = Seq::new(4, |k: int| crate::colmap::u64_at(data, pos + 4 + 8 * k));
    assert forall|k: int| 0 <= k < 4 implies quat[k] == r.quat_wxyz[k] by {
        lemma_words(data, pos + 4, r.quat_wxyz, k);
    }
    assert(quat =~= r.quat_wxyz);
    let t = Seq::new(3, |k: int| crate::colmap::u64_at(data, pos + 36 + 8 * k));
    assert forall|k: int| 0 <= k < 3 implies t[k] == r.t[k] by {
        lemma_words(data, pos + 36, r.t, k);
    }
    assert(t =~= r.t);
}

proof fn lemma_images_from(data: Seq<u8>, pos: int, list: Seq<ImageRecord>)
    requires
        stands_at(data, pos, all_image_bytes(list)),
        forall|i: int| 0 <= i < list.len() ==> complete_image(#[trigger] list[i]),
    ensures
        images_from(data, pos, list.len()) matches Ok(s) && s.len() == list.len() && forall|i: int|
            0 <= i < s.len() ==> #[trigger] s[i] == (RawImageView {
                name: vstd::utf8::decode_utf8(list[i].name),
                quat_wxyz: list[i].quat_wxyz,
                t: list[i].t,
                camera_id: list[i].camera_id,
            }),
    decreases list.len(),
{
    if list.len() > 0 {
        let r = list[0];
        crate::wire::lemma_stands_in_pieces(
            data,
            pos,
            image_bytes(r),
            all_image_bytes(list.skip(1)),
        );
        lemma_image_at(data, pos, r);
        assert forall|i: int| 0 <= i < list.skip(1).len() implies complete_image(
            #[trigger] list.skip(1)[i],
        ) by {
            assert(complete_image(list[i + 1]));
        }
        let next = pos + image_bytes(r).len();
        lemma_images_from(data, next, list.skip(1));
        let s = images_from(data, pos, list.len())->Ok_0;
        let rest = images_from(data, next, list.skip(1).len())->Ok_0;
        assert forall|i: int| 0 <= i < s.len() implies #[trigger] s[i] == (RawImageView {
            name: vstd::utf8::decode_utf8(list[i].name),
            quat_wxyz: list[i].quat_wxyz,
            t: list[i].t,
            camera_id: list[i].camera_id,
        }) by {
            if i > 0 {
                assert(s[i] == rest[i - 1]);
                assert(list[i] == list.skip(1)[i - 1]);
            }
        }
    }
}

/// Reading undoes writing: a file of the number of images and then each
/// image's number, rotation (scalar part first), translation, camera, name,
/// zero byte and observed points reads as those images, in order. The points
/// are passed over, however many there are.
pub proof fn reading_images_undoes_writing(list: Seq<ImageRecord>, behind: Seq<u8>)
    requires
        list.len() <= u64::MAX,
        forall|i: int| 0 <= i < list.len() ==> complete_image(#[trigger] list[i]),
    ensures
        images_in(low_first(list.len(), 8) + (all_image_bytes(list) + behind)) matches Ok(s)
            && s.len() == list.len() && forall|i: int|
            0 <= i < s.len() ==> #[trigger] s[i] == (RawImageView {
                name: vstd::utf8::decode_utf8(list[i].name),
                quat_wxyz: list[i].quat_wxyz,
                t: list[i].t,
                camera_id: list[i].camera_id,
            }),
{
    let body = all_image_bytes(list) + behind;
    let data = low_first(list.len(), 8) + body;
    assert(stands_at(data, 0, low_first(list.len(), 8) + body));
    crate::wire::lemma_stands_in_pieces(data, 0, low_first(list.len(), 8), body);
    crate::wire::lemma_eight_low_first(data, 0, list.len() as u64);
    crate::wire::lemma_stands_in_pieces(data, 8, all_image_bytes(list), behind);
    lemma_images_from(data, 8, list);
}

/// A point as a file holds it: its number, position, colour, error, and the
/// images and places it was seen at.
pub struct PointRecord {
    pub id: u64,
    pub position: Seq<u64>,
    pub rgb: Seq<u8>,
    pub error: u64,
    pub track: Seq<(u32, u32)>,
}

pub open spec fn track_bytes(list: Seq<(u32, u32)>) -> Seq<u8>
    decreases list.len(),
{
    if list.len() == 0 {
        Seq::empty()
    } else {
        low_first(list[0].0 as nat, 4) + low_first(list[0].1 as nat, 4) + track_bytes(list.skip(1))
    }
}

pub open spec fn point_bytes(r: PointRecord) -> Seq<u8> {
    low_first(r.id as nat, 8) + (words(r.position) + (r.rgb + (low_first(r.error as nat, 8) + (
    low_first(r.track.len(), 8) + track_bytes(r.track)))))
}

pub open spec fn all_point_bytes(list: Seq<PointRecord>) -> Seq<u8>
    decreases list.len(),
{
    if list.len() == 0 {
        Seq::empty()
    } else {
        point_bytes(list[0]) + all_point_bytes(list.skip(1))
    }
}

pub open spec fn complete_point(r: PointRecord) -> bool {
    r.position.len() == 3 && r.rgb.len() == 3 && r.track.len() <= u64::MAX
}

proof fn lemma_track_len(list: Seq<(u32, u32)>)
    ensures
        track_bytes(list).len() == 8 * list.len(),
    decreases list.len(),
{
    if list.len() > 0 {
        lemma_track_len(list.skip(1));
    }
}

proof fn lemma_point_at(data: Seq<u8>, pos: int, r: PointRecord)
    requires
        stands_at(data, pos, point_bytes(r)),
        complete_point(r),
    ensures
        crate::colmap::point_at(data, pos) == Ok::<(SfmPointView, int), ColmapErrorView>(
            (SfmPointView { position: r.position, rgb: r.rgb }, pos + point_bytes(r).len()),
        ),
{
    let rest4 = low_first(r.track.len(), 8) + track_bytes(r.track);
    let rest3 = low_first(r.error as nat, 8) + rest4;
    let rest2 = r.rgb + rest3;
    let rest1 = words(r.position) + rest2;
    lemma_words_len(r.position);
    lemma_track_len(r.track);
    crate::wire::lemma_stands_in_pieces(data, pos, low_first(r.id as nat, 8), rest1);
    crate::wire::lemma_stands_in_pieces(data, pos + 8, words(r.position), rest2);
    crate::wire::lemma_stands_in_pieces(data, pos + 32, r.rgb, rest3);
    crate::wire::lemma_stands_in_pieces(data, pos + 35, low_first(r.error as nat, 8), rest4);
    crate::wire::lemma_stands_in_pieces(
        data,
        pos + 43,
        low_first(r.track.len(), 8),
        track_bytes(r.track),
    );
    crate::wire::lemma_eight_low_first(data, pos + 43, r.track.len() as u64);
    assert(data.subrange(pos + 32, pos + 35) =~= r.rgb) by {
        assert forall|i: int| 0 <= i < 3 implies data.subrange(pos + 32, pos + 35)[i]
            == r.rgb[i] by {
            assert(data[(pos + 32) + i] == r.rgb[i]);
        }
    }
    let position = Seq::new(3, |k: int| crate::colmap::u64_at(data, pos + 8 + 8 * k));
    assert forall|k: int| 0 <= k < 3 implies position[k] == r.position[k] by {
        lemma_words(data, pos + 8, r.position, k);
    }
    assert(position =~= r.position);
}

proof fn lemma_points_from(data: Seq<u8>, pos: int, list: Seq<PointRecord>)
    requires
        stands_at(data, pos, all_point_bytes(list)),
        forall|i: int| 0 <= i < list.len() ==> complete_point(#[trigger] list[i]),
    ensures
        points_from(data, pos, list.len()) matches Ok(s) && s.len() == list.len() && forall|i: int|
            0 <= i < s.len() ==> #[trigger] s[i] == (SfmPointView {
                position: list[i].position,
                rgb: list[i].rgb,
            }),
    decreases list.len(),
{
    if list.len() > 0 {
        let r = list[0];
        crate::wire::lemma_stands_in_pieces(
            data,
            pos,
            point_bytes(r),
            all_point_bytes(list.skip(1)),
        );
        lemma_point_at(data, pos, r);
        assert forall|i: int| 0 <= i < list.skip(1).len() implies complete_point(
            #[trigger] list.skip(1)[i],
        ) by {
            assert(complete_point(list[i + 1]));
        }
        let next = pos + point_bytes(r).len();
        lemma_points_from(data, next, list.skip(1));
        let s = points_from(data, pos, list.len())->Ok_0;
        let rest = points_from(data, next, list.skip(1).len())->Ok_0;
        assert forall|i: int| 0 <= i < s.len() implies #[trigger] s[i] == (SfmPointView {
            position: list[i].position,
            rgb: list[i].rgb,
        }) by {
            if i > 0 {
                assert(s[i] == rest[i - 1]);
                assert(list[i] == list.skip(1)[i - 1]);
            }
        }
    }
}

/// Reading undoes writing: a file of the number of points and then each
/// point's number, position, colour, error and track reads as those
/// positions and colours, in order. The tracks are passed over, however long
/// they are.
pub proof fn reading_points_undoes_writing(list: Seq<PointRecord>, behind: Seq<u8>)
    requires
        list.len() <= u64::MAX,
        forall|i: int| 0 <= i < list.len() ==> complete_point(#[trigger] list[i]),
    ensures
        points_in(low_first(list.len(), 8) + (all_point_bytes(list) + behind)) matches Ok(s)
            && s.len() == list.len() && forall|i: int|
            0 <= i < s.len() ==> #[trigger] s[i] == (SfmPointView {
                position: list[i].position,
                rgb: list[i].rgb,
            }),
{
    let body = all_point_bytes(list) + behind;
    let data = low_first(list.len(), 8) + body;
    assert(stands_at(data, 0, low_first(list.len(), 8) + body));
    crate::wire::lemma_stands_in_pieces(data, 0, low_first(list.len(), 8), body);
    crate::wire::lemma_eight_low_first(data, 0, list.len() as u64);
    crate::wire::lemma_stands_in_pieces(data, 8, all_point_bytes(list), behind);
    lemma_points_from(data, 8, list);
}

} // verus!
