//! Minimal ISO-BMFF box walker for HEVC track configuration: the
//! HEVCDecoderConfigurationRecord (VPS/SPS/PPS and NAL length size) is
//! extracted straight from the container bytes. Reading the file is left to
//! the caller, who follows [`scan_top_level`] to the `moov` box and hands its
//! payload to [`hevc_track_in_moov`].
use vstd::prelude::*;
use vstd::slice::{slice_subrange, slice_to_vec};

verus! {

/// The unsigned big-endian value of the `n` bytes at `off`.
pub open spec fn be_value(s: Seq<u8>, off: int, n: nat) -> nat
    decreases n,
{
    if n == 0 {
        0
    } else {
        256 * be_value(s, off, (n - 1) as nat) + s[off + n - 1] as nat
    }
}

/// Reads a big-endian value of at most eight bytes.
pub fn be_uint(b: &[u8], off: usize, n: usize) -> (v: u64)
    requires
        off + n <= b@.len(),
        n <= 8,
    ensures
        v == be_value(b@, off as int, n as nat),
        n <= 4 ==> v <= u32::MAX,
        n <= 2 ==> v <= u16::MAX,
{
    let mut v: u64 = 0;
    let mut i: usize = 0;
    proof {
        vstd::arithmetic::power2::lemma2_to64();
        assert(b.len() == b@.len());
    }
    while i < n
        invariant
            off + n <= b@.len() <= usize::MAX,
            i <= n <= 8,
            v == be_value(b@, off as int, i as nat),
            v < vstd::arithmetic::power2::pow2((8 * i) as nat),
        decreases n - i,
    {
        proof {
            vstd::arithmetic::power2::lemma2_to64();
            vstd::arithmetic::power2::lemma_pow2_adds((8 * i) as nat, 8);
            if i < 7 {
                vstd::arithmetic::power2::lemma_pow2_strictly_increases((8 * i) as nat, 56);
            }
            assert(v < 0x100_0000_0000_0000) by {
                vstd::arithmetic::power2::lemma2_to64_rest();
            }
            let p = vstd::arithmetic::power2::pow2((8 * i) as nat) as int;
            assert(256 * v + 255 < p * 256) by (nonlinear_arith)
                requires
                    v < p,
            ;
        }
        v = v * 256 + b[off + i] as u64;
        i = i + 1;
    }
    proof {
        vstd::arithmetic::power2::lemma2_to64();
        vstd::arithmetic::power2::lemma2_to64_rest();
        if n < 4 {
            vstd::arithmetic::power2::lemma_pow2_strictly_increases((8 * n) as nat, 32);
        }
        if n < 2 {
            vstd::arithmetic::power2::lemma_pow2_strictly_increases((8 * n) as nat, 16);
        }
    }
    v
}

/// The four bytes at `off` as an unsigned number.
pub fn be32(b: &[u8], off: usize) -> (v: u32)
    requires
        off + 4 <= b@.len(),
    ensures
        v == be_value(b@, off as int, 4),
{
    be_uint(b, off, 4) as u32
}

/// The two bytes at `off` as an unsigned number.
pub fn be16(b: &[u8], off: usize) -> (v: u16)
    requires
        off + 2 <= b@.len(),
    ensures
        v == be_value(b@, off as int, 2),
{
    be_uint(b, off, 2) as u16
}

/// The header length and total size that the box header at `off` declares: a
/// 32-bit size, a 64-bit one behind size 1, or, for size 0, all of the
/// `limit` bytes that remain.
pub open spec fn declared_size(data: Seq<u8>, off: int, limit: int) -> (int, int) {
    let size32 = be_value(data, off, 4);
    if size32 == 1 {
        (16, be_value(data, off + 8, 8) as int)
    } else if size32 == 0 {
        (8, limit)
    } else {
        (8, size32 as int)
    }
}

/// Whether a whole box stands at `off`.
pub open spec fn box_fits(data: Seq<u8>, off: int) -> bool {
    let (hdr, size) = declared_size(data, off, data.len() - off);
    &&& off + 8 <= data.len()
    &&& off + hdr <= data.len()
    &&& hdr <= size
    &&& off + size <= data.len()
}

/// A box: its name and the range of its payload.
#[verifier::ext_equal]
pub struct BoxView {
    pub fourcc: Seq<u8>,
    pub start: int,
    pub end: int,
}

/// The boxes of `data` from `off` on, up to the first that does not fit.
pub open spec fn boxes_from(data: Seq<u8>, off: int) -> Seq<BoxView>
    decreases data.len() - off,
{
    if !box_fits(data, off) {
        Seq::empty()
    } else {
        let (hdr, size) = declared_size(data, off, data.len() - off);
        seq![
            BoxView { fourcc: data.subrange(off + 4, off + 8), start: off + hdr, end: off + size },
        ] + boxes_from(data, off + size)
    }
}

/// The child boxes of `data`.
pub open spec fn boxes(data: Seq<u8>) -> Seq<BoxView> {
    boxes_from(data, 0)
}

/// The payloads lie in the data, one behind the other.
pub proof fn boxes_are_in_order(data: Seq<u8>, off: int)
    requires
        0 <= off,
    ensures
        ({
            let b = boxes_from(data, off);
            &&& forall|i: int|
                0 <= i < b.len() ==> off + 8 <= (#[trigger] b[i]).start <= b[i].end <= data.len()
            &&& forall|i: int, j: int|
                0 <= i < j < b.len() ==> (#[trigger] b[i]).end + 8 <= (#[trigger] b[j]).start
        }),
    decreases data.len() - off,
{
    if box_fits(data, off) {
        let (hdr, size) = declared_size(data, off, data.len() - off);
        boxes_are_in_order(data, off + size);
        let rest = boxes_from(data, off + size);
        let b = boxes_from(data, off);
        assert forall|i: int| 1 <= i < b.len() implies b[i] == rest[i - 1] by {}
    }
}

/// A box found in a byte range.
#[derive(Debug, Clone, Copy)]
pub struct BoxRef {
    pub fourcc: [u8; 4],
    pub start: usize,
    pub end: usize,
}

impl View for BoxRef {
    type V = BoxView;

    open spec fn view(&self) -> BoxView {
        BoxView { fourcc: self.fourcc@, start: self.start as int, end: self.end as int }
    }
}

/// The views of a list of boxes.
pub open spec fn box_views(v: Seq<BoxRef>) -> Seq<BoxView> {
    v.map_values(|b: BoxRef| b@)
}

/// Lists the child boxes of `data`, stopping at the first malformed one
/// rather than misparsing.
pub fn walk(data: &[u8]) -> (out: Vec<BoxRef>)
    ensures
        box_views(out@) == boxes(data@),
        forall|i: int|
            0 <= i < out@.len() ==> (#[trigger] out@[i]).start <= out@[i].end <= data@.len(),
{
    let mut out: Vec<BoxRef> = Vec::new();
    let mut off: usize = 0;
    assert(box_views(out@) + boxes(data@) =~= boxes(data@));
    while data.len() >= 8 && off <= data.len() - 8
        invariant
            off <= data@.len(),
            box_views(out@) + boxes_from(data@, off as int) == boxes(data@),
            forall|i: int|
                0 <= i < out@.len() ==> (#[trigger] out@[i]).start <= out@[i].end <= data@.len(),
        decreases data@.len() - off,
    {
        let size32: u32 = be32(data, off);
        let remaining: usize = data.len() - off;
        let (hdr, size): (usize, u64) = if size32 == 1 {
            if remaining < 16 {
                assert(boxes_from(data@, off as int) =~= Seq::empty());
                assert(box_views(out@) =~= boxes(data@));
                return out;
            }
            (16, be_uint(data, off + 8, 8))
        } else if size32 == 0 {
            (8, remaining as u64)
        } else {
            (8, size32 as u64)
        };
        if size < hdr as u64 || size > remaining as u64 {
            assert(boxes_from(data@, off as int) =~= Seq::empty());
            assert(box_views(out@) =~= boxes(data@));
            return out;
        }
        let fourcc: [u8; 4] = [data[off + 4], data[off + 5], data[off + 6], data[off + 7]];
        let ghost before = box_views(out@);
        let next: usize = off + size as usize;
        let b = BoxRef { fourcc, start: off + hdr, end: next };
        out.push(b);
        proof {
            assert(fourcc@ =~= data@.subrange(off + 4, off + 8));
            assert(box_views(out@) =~= before.push(b@));
            assert(boxes_from(data@, off as int) =~= seq![b@] + boxes_from(data@, next as int));
            assert(before.push(b@) + boxes_from(data@, next as int) =~= before + (seq![b@]
                + boxes_from(data@, next as int)));
        }
        off = next;
    }
    assert(boxes_from(data@, off as int) =~= Seq::empty());
    assert(box_views(out@) =~= boxes(data@));
    out
}

/// Index of the first box with a name, or the number of boxes.
pub open spec fn first_named(b: Seq<BoxView>, name: Seq<u8>) -> nat
    decreases b.len(),
{
    if b.len() == 0 || b[0].fourcc == name {
        0
    } else {
        1 + first_named(b.skip(1), name)
    }
}

/// The payload of the first child box with a name.
pub open spec fn child(data: Seq<u8>, name: Seq<u8>) -> Option<Seq<u8>> {
    let b = boxes(data);
    let i = first_named(b, name) as int;
    if i < b.len() {
        Some(data.subrange(b[i].start, b[i].end))
    } else {
        None
    }
}

/// `first_named` finds the first: no box before it has the name.
proof fn lemma_first_named(b: Seq<BoxView>, name: Seq<u8>, i: int)
    requires
        0 <= i <= b.len(),
        forall|j: int| 0 <= j < i ==> (#[trigger] b[j]).fourcc != name,
        i < b.len() ==> b[i].fourcc == name,
    ensures
        first_named(b, name) == i,
    decreases b.len(),
{
    if i > 0 {
        assert(b[0].fourcc != name);
        let t = b.skip(1);
        assert forall|j: int| 0 <= j < i - 1 implies (#[trigger] t[j]).fourcc != name by {
            assert(t[j] == b[j + 1]);
        }
        lemma_first_named(t, name, i - 1);
    }
}

/// Whether two box names are equal.
fn same_name(a: &[u8; 4], b: &[u8; 4]) -> (r: bool)
    ensures
        r == (a@ == b@),
{
    let r = a[0] == b[0] && a[1] == b[1] && a[2] == b[2] && a[3] == b[3];
    proof {
        if r {
            assert(a@ =~= b@);
        }
    }
    r
}

/// The payload of the first child box named `name`.
pub fn find_child<'a>(data: &'a [u8], name: &[u8; 4]) -> (found: Option<&'a [u8]>)
    ensures
        match found {
            Some(p) => child(data@, name@) == Some(p@),
            None => child(data@, name@) is None,
        },
{
    let list = walk(data);
    let ghost b = boxes(data@);
    let mut i: usize = 0;
    while i < list.len()
        invariant
            i <= list@.len(),
            b == boxes(data@),
            box_views(list@) == b,
            forall|j: int|
                0 <= j < list@.len() ==> (#[trigger] list@[j]).start <= list@[j].end
                    <= data@.len(),
            forall|j: int| 0 <= j < i ==> (#[trigger] b[j]).fourcc != name@,
        decreases list@.len() - i,
    {
        let e: BoxRef = list[i];
        assert(b[i as int] == e@);
        if same_name(&e.fourcc, name) {
            proof {
                lemma_first_named(b, name@, i as int);
            }
            return Some(slice_subrange(data, e.start, e.end));
        }
        i = i + 1;
    }
    proof {
        lemma_first_named(b, name@, i as int);
    }
    None
}

/// The parameter sets of an HEVCDecoderConfigurationRecord.
#[verifier::ext_equal]
pub struct HvccView {
    pub length_size: nat,
    pub vps: Seq<Seq<u8>>,
    pub sps: Seq<Seq<u8>>,
    pub pps: Seq<Seq<u8>>,
}

impl HvccView {
    /// With the NALs of one array added; only parameter sets are kept.
    pub open spec fn with(self, nal_type: u8, nals: Seq<Seq<u8>>) -> HvccView {
        if nal_type == 32 {
            HvccView { vps: self.vps + nals, ..self }
        } else if nal_type == 33 {
            HvccView { sps: self.sps + nals, ..self }
        } else if nal_type == 34 {
            HvccView { pps: self.pps + nals, ..self }
        } else {
            self
        }
    }
}

/// `count` NALs from `off`, each behind its 16-bit length, and the offset
/// behind them.
pub open spec fn nal_list(rec: Seq<u8>, off: int, count: nat) -> Option<(Seq<Seq<u8>>, int)>
    decreases count,
{
    if count == 0 {
        Some((Seq::empty(), off))
    } else {
        match nal_list(rec, off, (count - 1) as nat) {
            None => None,
            Some((l, o)) => {
                let n = be_value(rec, o, 2);
                if o + 2 > rec.len() || o + 2 + n > rec.len() {
                    None
                } else {
                    Some((l.push(rec.subrange(o + 2, o + 2 + n)), o + 2 + n))
                }
            },
        }
    }
}

/// The first `n` arrays of a configuration record, and the offset behind
/// them.
pub open spec fn hvcc_arrays(rec: Seq<u8>, n: nat) -> Option<(HvccView, int)>
    decreases n,
{
    if n == 0 {
        Some(
            (
                HvccView {
                    length_size: (rec[21] % 4) as nat + 1,
                    vps: Seq::empty(),
                    sps: Seq::empty(),
                    pps: Seq::empty(),
                },
                23,
            ),
        )
    } else {
        match hvcc_arrays(rec, (n - 1) as nat) {
            None => None,
            Some((v, o)) => {
                if o + 3 > rec.len() {
                    None
                } else {
                    match nal_list(rec, o + 3, be_value(rec, o + 1, 2)) {
                        None => None,
                        Some((l, e)) => Some((v.with(rec[o] & 0x3f, l), e)),
                    }
                }
            },
        }
    }
}

/// A configuration record: 22 bytes of settings, the number of arrays, the
/// arrays. NAL lengths of three bytes do not exist.
pub open spec fn hvcc(rec: Seq<u8>) -> Option<HvccView> {
    if rec.len() < 23 || rec[21] % 4 == 2 {
        None
    } else {
        match hvcc_arrays(rec, rec[22] as nat) {
            None => None,
            Some((v, _)) => Some(v),
        }
    }
}

proof fn lemma_nal_list_none(rec: Seq<u8>, off: int, m: nat, n: nat)
    requires
        m <= n,
        nal_list(rec, off, m) is None,
    ensures
        nal_list(rec, off, n) is None,
    decreases n,
{
    if m < n {
        lemma_nal_list_none(rec, off, m, (n - 1) as nat);
    }
}

proof fn lemma_hvcc_none(rec: Seq<u8>, m: nat, n: nat)
    requires
        m <= n,
        hvcc_arrays(rec, m) is None,
    ensures
        hvcc_arrays(rec, n) is None,
    decreases n,
{
    if m < n {
        lemma_hvcc_none(rec, m, (n - 1) as nat);
    }
}

/// (length_size, vps, sps, pps) from an HEVCDecoderConfigurationRecord.
pub type HvccRecord = (usize, Vec<Vec<u8>>, Vec<Vec<u8>>, Vec<Vec<u8>>);

/// The contents of a list of byte strings.
pub open spec fn bytes_views(v: Seq<Vec<u8>>) -> Seq<Seq<u8>> {
    v.map_values(|x: Vec<u8>| x@)
}

/// A record as its parts.
pub open spec fn hvcc_view(r: HvccRecord) -> HvccView {
    HvccView {
        length_size: r.0 as nat,
        vps: bytes_views(r.1@),
        sps: bytes_views(r.2@),
        pps: bytes_views(r.3@),
    }
}

fn parse_nal_list(rec: &[u8], off: usize, count: usize) -> (res: Option<(Vec<Vec<u8>>, usize)>)
    requires
        off <= rec@.len(),
    ensures
        match res {
            Some(x) => nal_list(rec@, off as int, count as nat) == Some(
                (bytes_views(x.0@), x.1 as int),
            ) && x.1 <= rec@.len(),
            None => nal_list(rec@, off as int, count as nat) is None,
        },
{
    let mut list: Vec<Vec<u8>> = Vec::new();
    let mut o: usize = off;
    let mut i: usize = 0;
    assert(bytes_views(list@) =~= Seq::empty());
    while i < count
        invariant
            i <= count,
            o <= rec@.len(),
            nal_list(rec@, off as int, i as nat) == Some((bytes_views(list@), o as int)),
        decreases count - i,
    {
        proof {
            if nal_list(rec@, off as int, (i + 1) as nat) is None {
                lemma_nal_list_none(rec@, off as int, (i + 1) as nat, count as nat);
            }
        }
        if rec.len() - o < 2 {
            return None;
        }
        let n: usize = be16(rec, o) as usize;
        o = o + 2;
        if rec.len() - o < n {
            return None;
        }
        let nal = slice_to_vec(slice_subrange(rec, o, o + n));
        let ghost before = bytes_views(list@);
        let ghost bytes = nal@;
        list.push(nal);
        assert(bytes_views(list@) =~= before.push(bytes));
        o = o + n;
        i = i + 1;
    }
    Some((list, o))
}

fn append_all(a: &mut Vec<Vec<u8>>, mut b: Vec<Vec<u8>>)
    ensures
        bytes_views(final(a)@) == bytes_views(old(a)@) + bytes_views(b@),
{
    let ghost x = bytes_views(a@);
    let ghost y = bytes_views(b@);
    a.append(&mut b);
    assert(bytes_views(a@) =~= x + y);
}

/// Whether NAL lengths can have this many bytes.
pub open spec fn is_length_size(n: usize) -> bool {
    n == 1 || n == 2 || n == 4
}

/// Parses an HEVCDecoderConfigurationRecord (the `hvcC` payload).
pub fn parse_hvcc(rec: &[u8]) -> (res: Option<HvccRecord>)
    ensures
        match res {
            Some(r) => hvcc(rec@) == Some(hvcc_view(r)) && is_length_size(r.0),
            None => hvcc(rec@) is None,
        },
{
    if rec.len() < 23 {
        return None;
    }
    let low: u8 = rec[21] % 4;
    if low == 2 {
        return None;
    }
    let length_size: usize = low as usize + 1;
    let num_arrays: usize = rec[22] as usize;
    let mut vps: Vec<Vec<u8>> = Vec::new();
    let mut sps: Vec<Vec<u8>> = Vec::new();
    let mut pps: Vec<Vec<u8>> = Vec::new();
    let mut off: usize = 23;
    let mut i: usize = 0;
    assert(bytes_views(vps@) =~= Seq::empty());
    assert(bytes_views(sps@) =~= Seq::empty());
    assert(bytes_views(pps@) =~= Seq::empty());
    while i < num_arrays
        invariant
            i <= num_arrays,
            23 <= rec@.len(),
            num_arrays == rec@[22],
            off <= rec@.len(),
            hvcc_arrays(rec@, i as nat) == Some(
                (
                    HvccView {
                        length_size: length_size as nat,
                        vps: bytes_views(vps@),
                        sps: bytes_views(sps@),
                        pps: bytes_views(pps@),
                    },
                    off as int,
                ),
            ),
        decreases num_arrays - i,
    {
        proof {
            if hvcc_arrays(rec@, (i + 1) as nat) is None {
                lemma_hvcc_none(rec@, (i + 1) as nat, num_arrays as nat);
            }
        }
        if rec.len() - off < 3 {
            return None;
        }
        let nal_type: u8 = rec[off] & 0x3f;
        let count: usize = be16(rec, off + 1) as usize;
        match parse_nal_list(rec, off + 3, count) {
            None => {
                return None;
            },
            Some((nals, end)) => {
                if nal_type == 32 {
                    append_all(&mut vps, nals);
                } else if nal_type == 33 {
                    append_all(&mut sps, nals);
                } else if nal_type == 34 {
                    append_all(&mut pps, nals);
                }
                off = end;
            },
        }
        i = i + 1;
    }
    Some((length_size, vps, sps, pps))
}

/// An HEVC video track.
#[derive(Debug, Clone)]
pub struct HevcTrackInfo {
    pub track_id: u32,
    /// `hvc1` (parameter sets out-of-band) or `hev1` (may repeat in-band).
    pub fourcc: [u8; 4],
    /// Bytes of the NAL length prefix in samples (1, 2 or 4).
    pub length_size: usize,
    pub vps: Vec<Vec<u8>>,
    pub sps: Vec<Vec<u8>>,
    pub pps: Vec<Vec<u8>>,
    /// nclx colour info when present: (primaries, transfer, matrix).
    pub colr: Option<(u16, u16, u16)>,
    /// Display rotation in degrees clockwise (tkhd matrix).
    pub rotation: u32,
}

/// An HEVC video track as its parts.
#[verifier::ext_equal]
pub struct TrackView {
    pub track_id: u32,
    pub fourcc: Seq<u8>,
    pub config: HvccView,
    pub colr: Option<(u16, u16, u16)>,
    pub rotation: u32,
}

impl View for HevcTrackInfo {
    type V = TrackView;

    open spec fn view(&self) -> TrackView {
        TrackView {
            track_id: self.track_id,
            fourcc: self.fourcc@,
            config: HvccView {
                length_size: self.length_size as nat,
                vps: bytes_views(self.vps@),
                sps: bytes_views(self.sps@),
                pps: bytes_views(self.pps@),
            },
            colr: self.colr,
            rotation: self.rotation,
        }
    }
}

/// The clockwise rotation that a display matrix stands for, in degrees: a
/// quarter turn where its linear part is one, otherwise none.
pub open spec fn rotation_of(a: int, b: int, c: int, d: int) -> u32 {
    if a == 0 && b > 0 && c < 0 && d == 0 {
        90
    } else if a < 0 && b == 0 && c == 0 && d < 0 {
        180
    } else if a == 0 && b < 0 && c > 0 && d == 0 {
        270
    } else {
        0
    }
}

/// Display rotation in degrees clockwise from the linear part of a tkhd
/// matrix.
pub fn rotation_from_matrix(a: i32, b: i32, c: i32, d: i32) -> (r: u32)
    ensures
        r == rotation_of(a as int, b as int, c as int, d as int),
{
    if a == 0 && b > 0 && c < 0 && d == 0 {
        90
    } else if a < 0 && b == 0 && c == 0 && d < 0 {
        180
    } else if a == 0 && b < 0 && c > 0 && d == 0 {
        270
    } else {
        0
    }
}

/// A 32-bit field as a signed number.
pub open spec fn signed32(v: nat) -> int {
    if v < 0x8000_0000 {
        v as int
    } else {
        v - 0x1_0000_0000
    }
}

fn be32_signed(b: &[u8], off: usize) -> (v: i32)
    requires
        off + 4 <= b@.len(),
    ensures
        v == signed32(be_value(b@, off as int, 4)),
{
    let u: u32 = be32(b, off);
    if u < 0x8000_0000 {
        u as i32
    } else {
        (u as i64 - 0x1_0000_0000) as i32
    }
}

/// Track id and rotation from a tkhd payload of version 0 or 1.
pub open spec fn track_header(tkhd: Seq<u8>) -> Option<(u32, u32)> {
    if tkhd.len() >= 76 && tkhd[0] == 0 {
        Some((be_value(tkhd, 12, 4) as u32, matrix_rotation(tkhd, 40)))
    } else if tkhd.len() >= 88 && tkhd[0] == 1 {
        Some((be_value(tkhd, 20, 4) as u32, matrix_rotation(tkhd, 52)))
    } else {
        None
    }
}

/// The rotation of the display matrix at `off`.
pub open spec fn matrix_rotation(tkhd: Seq<u8>, off: int) -> u32 {
    rotation_of(
        signed32(be_value(tkhd, off, 4)),
        signed32(be_value(tkhd, off + 4, 4)),
        signed32(be_value(tkhd, off + 12, 4)),
        signed32(be_value(tkhd, off + 16, 4)),
    )
}

fn parse_matrix(tkhd: &[u8], off: usize) -> (r: u32)
    requires
        off + 20 <= tkhd@.len(),
        off <= 100,
    ensures
        r == matrix_rotation(tkhd@, off as int),
{
    rotation_from_matrix(
        be32_signed(tkhd, off),
        be32_signed(tkhd, off + 4),
        be32_signed(tkhd, off + 12),
        be32_signed(tkhd, off + 16),
    )
}

fn parse_track_header(tkhd: &[u8]) -> (res: Option<(u32, u32)>)
    ensures
        res == track_header(tkhd@),
{
    if tkhd.len() >= 76 && tkhd[0] == 0 {
        Some((be32(tkhd, 12), parse_matrix(tkhd, 40)))
    } else if tkhd.len() >= 88 && tkhd[0] == 1 {
        Some((be32(tkhd, 20), parse_matrix(tkhd, 52)))
    } else {
        None
    }
}

/// The payload of a box name inside an optional payload.
pub open spec fn child_of(data: Option<Seq<u8>>, name: Seq<u8>) -> Option<Seq<u8>> {
    match data {
        Some(d) => child(d, name),
        None => None,
    }
}

/// The sample description of a track: trak/mdia/minf/stbl/stsd.
pub open spec fn sample_description(trak: Seq<u8>) -> Option<Seq<u8>> {
    let mdia = child(trak, seq!['m' as u8, 'd' as u8, 'i' as u8, 'a' as u8]);
    let minf = child_of(mdia, seq!['m' as u8, 'i' as u8, 'n' as u8, 'f' as u8]);
    let stbl = child_of(minf, seq!['s' as u8, 't' as u8, 'b' as u8, 'l' as u8]);
    child_of(stbl, seq!['s' as u8, 't' as u8, 's' as u8, 'd' as u8])
}

fn fourcc(a: u8, b: u8, c: u8, d: u8) -> (n: [u8; 4])
    ensures
        n@ == seq![a, b, c, d],
{
    let n: [u8; 4] = [a, b, c, d];
    assert(n@ =~= seq![a, b, c, d]);
    n
}

fn find_sample_description<'a>(trak: &'a [u8]) -> (res: Option<&'a [u8]>)
    ensures
        match res {
            Some(p) => sample_description(trak@) == Some(p@),
            None => sample_description(trak@) is None,
        },
{
    let mdia = find_child(trak, &fourcc('m' as u8, 'd' as u8, 'i' as u8, 'a' as u8))?;
    let minf = find_child(mdia, &fourcc('m' as u8, 'i' as u8, 'n' as u8, 'f' as u8))?;
    let stbl = find_child(minf, &fourcc('s' as u8, 't' as u8, 'b' as u8, 'l' as u8))?;
    find_child(stbl, &fourcc('s' as u8, 't' as u8, 's' as u8, 'd' as u8))
}

/// Colour description of a `colr` payload of type nclx.
pub open spec fn nclx(colr: Seq<u8>) -> Option<(u16, u16, u16)> {
    if colr.len() >= 10 && colr.subrange(0, 4) == seq!['n' as u8, 'c' as u8, 'l' as u8, 'x' as u8] {
        Some(
            (
                be_value(colr, 4, 2) as u16,
                be_value(colr, 6, 2) as u16,
                be_value(colr, 8, 2) as u16,
            ),
        )
    } else {
        None
    }
}

fn parse_nclx(colr: &[u8]) -> (res: Option<(u16, u16, u16)>)
    ensures
        res == nclx(colr@),
{
    if colr.len() < 10 {
        return None;
    }
    let is_nclx = colr[0] == 'n' as u8 && colr[1] == 'c' as u8 && colr[2] == 'l' as u8 && colr[3] == 'x' as u8;
    proof {
        let head = colr@.subrange(0, 4);
        let name = seq!['n' as u8, 'c' as u8, 'l' as u8, 'x' as u8];
        if is_nclx {
            assert(head =~= name);
        } else {
            assert(head[0] == colr@[0] && head[1] == colr@[1] && head[2] == colr@[2] && head[3]
                == colr@[3]);
        }
    }
    if is_nclx {
        Some((be16(colr, 4), be16(colr, 6), be16(colr, 8)))
    } else {
        None
    }
}

/// The configuration and colour of a visual sample entry: 78 bytes of fields,
/// then child boxes.
pub open spec fn sample_entry(entry: Seq<u8>) -> Option<(HvccView, Option<(u16, u16, u16)>)> {
    if entry.len() < 78 {
        None
    } else {
        let children = entry.skip(78);
        match child(children, seq!['h' as u8, 'v' as u8, 'c' as u8, 'C' as u8]) {
            None => None,
            Some(rec) => match hvcc(rec) {
                None => None,
                Some(config) => Some(
                    (
                        config,
                        match child(children, seq!['c' as u8, 'o' as u8, 'l' as u8, 'r' as u8]) {
                            None => None,
                            Some(c) => nclx(c),
                        },
                    ),
                ),
            },
        }
    }
}

fn parse_sample_entry(entry: &[u8]) -> (res: Option<(HvccRecord, Option<(u16, u16, u16)>)>)
    ensures
        match res {
            Some(x) => sample_entry(entry@) == Some((hvcc_view(x.0), x.1)) && is_length_size(x.0.0),
            None => sample_entry(entry@) is None,
        },
{
    if entry.len() < 78 {
        return None;
    }
    let children = slice_subrange(entry, 78, entry.len());
    assert(children@ =~= entry@.skip(78));
    let rec = find_child(children, &fourcc('h' as u8, 'v' as u8, 'c' as u8, 'C' as u8))?;
    let config = parse_hvcc(rec)?;
    let colr = match find_child(children, &fourcc('c' as u8, 'o' as u8, 'l' as u8, 'r' as u8)) {
        None => None,
        Some(c) => parse_nclx(c),
    };
    Some((config, colr))
}

/// Whether a sample entry name is one of HEVC.
pub open spec fn is_hevc_entry(name: Seq<u8>) -> bool {
    name == seq!['h' as u8, 'v' as u8, 'c' as u8, '1' as u8] || name == seq!['h' as u8, 'e' as u8, 'v' as u8, '1' as u8]
}

/// The first usable HEVC entry among the boxes `b` of `data`: its name,
/// configuration and colour.
pub open spec fn first_entry(data: Seq<u8>, b: Seq<BoxView>) -> Option<
    (Seq<u8>, HvccView, Option<(u16, u16, u16)>),
>
    decreases b.len(),
{
    if b.len() == 0 {
        None
    } else {
        match (is_hevc_entry(b[0].fourcc), sample_entry(data.subrange(b[0].start, b[0].end))) {
            (true, Some((config, colr))) => Some((b[0].fourcc, config, colr)),
            _ => first_entry(data, b.skip(1)),
        }
    }
}

fn find_entry(data: &[u8]) -> (res: Option<([u8; 4], HvccRecord, Option<(u16, u16, u16)>)>)
    ensures
        match res {
            Some(x) => first_entry(data@, boxes(data@)) == Some((x.0@, hvcc_view(x.1), x.2))
                && is_hevc_entry(x.0@) && is_length_size(x.1.0),
            None => first_entry(data@, boxes(data@)) is None,
        },
{
    let list = walk(data);
    let ghost b = boxes(data@);
    let mut i: usize = 0;
    assert(b.skip(0) =~= b);
    while i < list.len()
        invariant
            i <= list@.len(),
            b == boxes(data@),
            box_views(list@) == b,
            forall|j: int|
                0 <= j < list@.len() ==> (#[trigger] list@[j]).start <= list@[j].end
                    <= data@.len(),
            first_entry(data@, b.skip(i as int)) == first_entry(data@, b),
        decreases list@.len() - i,
    {
        let e: BoxRef = list[i];
        assert(b[i as int] == e@);
        assert(b.skip(i as int)[0] == e@);
        assert(b.skip(i as int).skip(1) =~= b.skip(i + 1));
        if same_name(&e.fourcc, &fourcc('h' as u8, 'v' as u8, 'c' as u8, '1' as u8)) || same_name(
            &e.fourcc,
            &fourcc('h' as u8, 'e' as u8, 'v' as u8, '1' as u8),
        ) {
            if let Some((config, colr)) = parse_sample_entry(
                slice_subrange(data, e.start, e.end),
            ) {
                return Some((e.fourcc, config, colr));
            }
        }
        i = i + 1;
    }
    None
}

/// The HEVC track of a `trak` payload, if it is one.
pub open spec fn track_of(trak: Seq<u8>) -> Option<TrackView> {
    match (child(trak, seq!['t' as u8, 'k' as u8, 'h' as u8, 'd' as u8]), sample_description(trak)) {
        (Some(tkhd), Some(stsd)) => match track_header(tkhd) {
            None => None,
            Some((track_id, rotation)) => {
                let entries = stsd.skip(8);
                match first_entry(entries, boxes(entries)) {
                    Some((fourcc, config, colr)) if stsd.len() >= 8 => Some(
                        TrackView { track_id, fourcc, config, colr, rotation },
                    ),
                    _ => None,
                }
            },
        },
        _ => None,
    }
}

fn parse_track(trak: &[u8]) -> (res: Option<HevcTrackInfo>)
    ensures
        match res {
            Some(t) => track_of(trak@) == Some(t@) && is_hevc_entry(t.fourcc@) && is_length_size(
                t.length_size,
            ),
            None => track_of(trak@) is None,
        },
{
    let tkhd = find_child(trak, &fourcc('t' as u8, 'k' as u8, 'h' as u8, 'd' as u8))?;
    let (track_id, rotation) = parse_track_header(tkhd)?;
    let stsd = find_sample_description(trak)?;
    if stsd.len() < 8 {
        return None;
    }
    let entries = slice_subrange(stsd, 8, stsd.len());
    assert(entries@ =~= stsd@.skip(8));
    let (name, config, colr) = find_entry(entries)?;
    let (length_size, vps, sps, pps) = config;
    Some(HevcTrackInfo { track_id, fourcc: name, length_size, vps, sps, pps, colr, rotation })
}

/// The first HEVC track among the boxes `b` of `moov`.
pub open spec fn first_track(moov: Seq<u8>, b: Seq<BoxView>) -> Option<TrackView>
    decreases b.len(),
{
    if b.len() == 0 {
        None
    } else {
        let t = track_of(moov.subrange(b[0].start, b[0].end));
        if b[0].fourcc == seq!['t' as u8, 'r' as u8, 'a' as u8, 'k' as u8] && t is Some {
            t
        } else {
            first_track(moov, b.skip(1))
        }
    }
}

/// Finds the first HEVC video track in a `moov` payload; None when there is
/// none.
pub fn hevc_track_in_moov(moov: &[u8]) -> (res: Option<HevcTrackInfo>)
    ensures
        match res {
            Some(t) => first_track(moov@, boxes(moov@)) == Some(t@) && is_hevc_entry(t.fourcc@)
                && is_length_size(t.length_size),
            None => first_track(moov@, boxes(moov@)) is None,
        },
{
    let list = walk(moov);
    let ghost b = boxes(moov@);
    let mut i: usize = 0;
    assert(b.skip(0) =~= b);
    while i < list.len()
        invariant
            i <= list@.len(),
            b == boxes(moov@),
            box_views(list@) == b,
            forall|j: int|
                0 <= j < list@.len() ==> (#[trigger] list@[j]).start <= list@[j].end
                    <= moov@.len(),
            first_track(moov@, b.skip(i as int)) == first_track(moov@, b),
        decreases list@.len() - i,
    {
        let e: BoxRef = list[i];
        assert(b[i as int] == e@);
        assert(b.skip(i as int)[0] == e@);
        assert(b.skip(i as int).skip(1) =~= b.skip(i + 1));
        if same_name(&e.fourcc, &fourcc('t' as u8, 'r' as u8, 'a' as u8, 'k' as u8)) {
            if let Some(t) = parse_track(slice_subrange(moov, e.start, e.end)) {
                return Some(t);
            }
        }
        i = i + 1;
    }
    None
}

/// A `moov` payload over 512 MiB is not a phone video.
pub const MAX_MOOV_BYTES: u64 = 0x2000_0000;

/// What to do at a box of the top level of a file.
#[derive(Debug, Clone, Copy, PartialEq, Eq, Structural)]
pub enum TopLevelStep {
    /// The size stands in the eight bytes behind the header: read 16 bytes.
    NeedLongHeader,
    /// No `moov` payload can be found.
    Stop,
    /// Go on at this offset.
    Next(u64),
    /// The `moov` payload: its offset and length.
    Moov(u64, u64),
}

/// The decision at offset `pos` of a file of `file_len` bytes, where the
/// bytes `header` were read.
pub open spec fn top_level_step(header: Seq<u8>, pos: int, file_len: int) -> TopLevelStep {
    if header.len() < 16 && be_value(header, 0, 4) == 1 {
        TopLevelStep::NeedLongHeader
    } else {
        let (hdr, size) = declared_size(header, 0, file_len - pos);
        if size < hdr || pos + size > file_len {
            TopLevelStep::Stop
        } else if header.subrange(4, 8) != seq!['m' as u8, 'o' as u8, 'o' as u8, 'v' as u8] {
            TopLevelStep::Next((pos + size) as u64)
        } else if size - hdr > MAX_MOOV_BYTES {
            TopLevelStep::Stop
        } else {
            TopLevelStep::Moov((pos + hdr) as u64, (size - hdr) as u64)
        }
    }
}

/// Decides what to do at offset `pos` of a file, from the 8 or 16 bytes read
/// there: the top level is searched for `moov` without reading `mdat`.
pub fn scan_top_level(header: &[u8], pos: u64, file_len: u64) -> (step: TopLevelStep)
    requires
        8 <= header@.len(),
        pos + 8 <= file_len,
    ensures
        step == top_level_step(header@, pos as int, file_len as int),
{
    let size32: u32 = be32(header, 0);
    let remaining: u64 = file_len - pos;
    let (hdr, size): (u64, u64) = if size32 == 1 {
        if header.len() < 16 {
            return TopLevelStep::NeedLongHeader;
        }
        (16, be_uint(header, 8, 8))
    } else if size32 == 0 {
        (8, remaining)
    } else {
        (8, size32 as u64)
    };
    if size < hdr || size > remaining {
        return TopLevelStep::Stop;
    }
    let name: [u8; 4] = [header[4], header[5], header[6], header[7]];
    assert(name@ =~= header@.subrange(4, 8));
    if !same_name(&name, &fourcc('m' as u8, 'o' as u8, 'o' as u8, 'v' as u8)) {
        return TopLevelStep::Next(pos + size);
    }
    if size - hdr > MAX_MOOV_BYTES {
        return TopLevelStep::Stop;
    }
    TopLevelStep::Moov(pos + hdr, size - hdr)
}

/// The bytes of a box header are the same in the file and on their own.
proof fn lemma_be_value_local(a: Seq<u8>, b: Seq<u8>, i: int, j: int, n: nat)
    requires
        0 <= i,
        0 <= j,
        i + n <= a.len(),
        j + n <= b.len(),
        a.subrange(i, i + n) == b.subrange(j, j + n),
    ensures
        be_value(a, i, n) == be_value(b, j, n),
    decreases n,
{
    if n > 0 {
        let x = a.subrange(i, i + n);
        let y = b.subrange(j, j + n);
        assert(a.subrange(i, i + n - 1) =~= x.take(n - 1));
        assert(b.subrange(j, j + n - 1) =~= y.take(n - 1));
        lemma_be_value_local(a, b, i, j, (n - 1) as nat);
        assert(x[n - 1] == a[i + n - 1] && y[n - 1] == b[j + n - 1]);
    }
}

/// The scan of a file walks its boxes: where a box fits at `pos`, the step
/// taken on its header goes on behind it, or gives the payload of a `moov`
/// box of at most 512 MiB; where none fits, the scan stops.
pub proof fn scan_follows_boxes(file: Seq<u8>, pos: int, len: int)
    requires
        0 <= pos,
        len == 8 || len == 16,
        pos + len <= file.len(),
        file.len() <= u64::MAX,
        top_level_step(file.subrange(pos, pos + len), pos, file.len() as int)
            != TopLevelStep::NeedLongHeader,
    ensures
        ({
            let step = top_level_step(file.subrange(pos, pos + len), pos, file.len() as int);
            let b = boxes_from(file, pos);
            let is_moov = b[0].fourcc == seq!['m' as u8, 'o' as u8, 'o' as u8, 'v' as u8];
            &&& !box_fits(file, pos) ==> step == TopLevelStep::Stop
            &&& box_fits(file, pos) && !is_moov ==> step == TopLevelStep::Next(b[0].end as u64)
            &&& box_fits(file, pos) && is_moov && b[0].end - b[0].start <= 512 * 1024 * 1024 ==> step
                == TopLevelStep::Moov(b[0].start as u64, (b[0].end - b[0].start) as u64)
            &&& box_fits(file, pos) && is_moov && b[0].end - b[0].start > 512 * 1024 * 1024 ==> step
                == TopLevelStep::Stop
        }),
{
    let header = file.subrange(pos, pos + len);
    assert(header.subrange(0, 4) =~= file.subrange(pos, pos + 4));
    lemma_be_value_local(header, file, 0, pos, 4);
    if len == 16 {
        assert(header.subrange(8, 16) =~= file.subrange(pos + 8, pos + 16));
        lemma_be_value_local(header, file, 8, pos + 8, 8);
    }
    assert(header.subrange(4, 8) =~= file.subrange(pos + 4, pos + 8));
}

} // verus!
