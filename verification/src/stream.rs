//! A video track as a stream of access units: its parameter sets, the order
//! in which samples are read, and what is decoded of each.
use crate::bitstream::{ErrorView, H264Error};
use crate::h264::{Pps, SliceHeader, Sps};
use crate::h265::{H265Pps, H265SliceHeader, H265Sps, H265Vps};
use crate::hevc_demux::HevcTrackInfo;
use crate::mp4_reader::{is_wide_gamut, split_slices, Codec};
use crate::nvdec::{NvDecError, NvDecErrorView};
use crate::text::dec_string;
use vstd::prelude::*;
use vstd::string::StringExecFns;

verus! {

/// Why a video cannot be read.
#[derive(Debug)]
pub enum VideoError {
    Io(String),
    Mp4(String),
    NoH264Track,
    Decode { sample: u32, message: String },
    NvDec(NvDecError),
}

/// A [`VideoError`] with its messages as characters.
pub enum VideoErrorView {
    Io(Seq<char>),
    Mp4(Seq<char>),
    NoH264Track,
    Decode { sample: u32, message: Seq<char> },
    NvDec(NvDecErrorView),
}

impl View for VideoError {
    type V = VideoErrorView;

    open spec fn view(&self) -> VideoErrorView {
        match *self {
            VideoError::Io(s) => VideoErrorView::Io(s@),
            VideoError::Mp4(s) => VideoErrorView::Mp4(s@),
            VideoError::NoH264Track => VideoErrorView::NoH264Track,
            VideoError::Decode { sample, message } => VideoErrorView::Decode {
                sample,
                message: message@,
            },
            VideoError::NvDec(e) => VideoErrorView::NvDec(e@),
        }
    }
}

impl VideoErrorView {
    /// The message a user sees.
    pub open spec fn text(self) -> Seq<char> {
        match self {
            VideoErrorView::Io(s) => "i/o error: "@ + s,
            VideoErrorView::Mp4(s) => "mp4 demux error: "@ + s,
            VideoErrorView::NoH264Track =>
            "no decodable video track in file (H.264 and H.265/HEVC are supported)"@,
            VideoErrorView::Decode { sample, message } => "decode error at sample "@
                + crate::text::dec(sample as nat) + ": "@ + message,
            VideoErrorView::NvDec(e) => "nvdec: "@ + e.text(),
        }
    }
}

impl VideoError {
    /// The message a user sees.
    pub fn message(&self) -> (m: String)
        ensures
            m@ == self@.text(),
    {
        match self {
            VideoError::Io(s) => {
                let mut m = String::from_str("i/o error: ");
                m.append(s.as_str());
                m
            },
            VideoError::Mp4(s) => {
                let mut m = String::from_str("mp4 demux error: ");
                m.append(s.as_str());
                m
            },
            VideoError::NoH264Track => String::from_str(
                "no decodable video track in file (H.264 and H.265/HEVC are supported)",
            ),
            VideoError::Decode { sample, message } => {
                let mut m = String::from_str("decode error at sample ");
                m.append(dec_string(*sample as u64).as_str());
                m.append(": ");
                m.append(message.as_str());
                m
            },
            VideoError::NvDec(e) => {
                let mut m = String::from_str("nvdec: ");
                m.append(e.message().as_str());
                m
            },
        }
    }
}

/// A bitstream error at a sample.
pub open spec fn bad_bitstream(sample: u32, what: Seq<char>, e: ErrorView) -> VideoErrorView {
    VideoErrorView::Decode { sample, message: what + e.text() }
}

fn bitstream_error(sample: u32, what: &str, e: &H264Error) -> (v: VideoError)
    ensures
        v@ == bad_bitstream(sample, what@, e@),
{
    let mut message = String::from_str(what);
    message.append(e.message().as_str());
    VideoError::Decode { sample, message }
}

/// A failed decode of a sample.
pub fn decode_failed(sample: u32, e: &NvDecError) -> (v: VideoError)
    ensures
        v@ == (VideoErrorView::Decode { sample, message: e@.text() }),
{
    VideoError::Decode { sample, message: e.message() }
}

fn track_error(message: &str) -> (v: VideoError)
    ensures
        v@ == (VideoErrorView::Decode { sample: 0, message: message@ }),
{
    VideoError::Decode { sample: 0, message: String::from_str(message) }
}

// ---- samples ----

/// The samples of a track: numbered from one, each read once, in order.
pub struct SampleCursor {
    count: u32,
    read: u32,
}

impl SampleCursor {
    /// Number of samples of the track.
    pub closed spec fn count(&self) -> u32 {
        self.count
    }

    /// Number of samples that were asked for.
    pub closed spec fn read(&self) -> u32 {
        self.read
    }

    pub fn new(count: u32) -> (c: Self)
        ensures
            c.count() == count,
            c.read() == 0,
    {
        SampleCursor { count, read: 0 }
    }

    pub fn sample_count(&self) -> (n: u32)
        ensures
            n == self.count(),
    {
        self.count
    }

    /// The next sample to read; None at the end of the track.
    pub fn next_sample(&mut self) -> (id: Option<u32>)
        ensures
            final(self).count() == old(self).count(),
            if old(self).read() < old(self).count() {
                &&& id == Some((old(self).read() + 1) as u32)
                &&& final(self).read() == old(self).read() + 1
            } else {
                &&& id is None
                &&& final(self).read() == old(self).read()
            },
    {
        if self.read >= self.count {
            return None;
        }
        self.read = self.read + 1;
        Some(self.read)
    }
}

/// Presentation time of a sample in units of the track's timescale.
pub fn presentation_time(start: u64, offset: i32) -> (t: i128)
    ensures
        t == start + offset,
{
    start as i128 + offset as i128
}

// ---- H.264 ----

/// What parsing a sequence parameter set gives.
pub open spec fn h264_sps_of(nal: Seq<u8>) -> Result<crate::h264::SpsView, ErrorView> {
    let (v, end) = crate::h264::sps_syntax(crate::bitstream::rbsp_of(nal.skip(1)));
    match end.err {
        None => Ok(v),
        Some(e) => Err(e),
    }
}

/// What parsing a picture parameter set gives.
pub open spec fn h264_pps_of(nal: Seq<u8>) -> Result<crate::h264::PpsView, ErrorView> {
    let (v, end) = crate::h264::pps_syntax(crate::bitstream::rbsp_of(nal.skip(1)));
    match end.err {
        None => Ok(v),
        Some(e) => Err(e),
    }
}

/// What parsing a slice header gives.
pub open spec fn h264_header_of(nal: Seq<u8>, sps: Sps, pps: Pps) -> Result<
    SliceHeader,
    ErrorView,
> {
    let (v, end) = crate::h264::slice_header_syntax(
        nal[0],
        crate::bitstream::rbsp_of(crate::h264::slice_header_bytes(nal)),
        sps,
        pps,
    );
    match end.err {
        None => Ok(v),
        Some(e) => Err(e),
    }
}

/// Whether parameter sets can be parsed: none is empty, and their bits can be
/// counted.
pub open spec fn parsable(nals: Seq<Vec<u8>>) -> bool {
    nals.len() > 0 ==> 1 <= nals[0]@.len() && 8 * nals[0]@.len() <= usize::MAX
}

pub struct H264Stream {
    pub sps: Sps,
    pub pps: Pps,
    /// Bytes of the length before each NAL.
    pub length_size: usize,
}

/// The slices of an access unit that are decoded, with the header of the
/// first.
pub struct H264Unit<'a> {
    pub slices: Vec<&'a [u8]>,
    pub header: SliceHeader,
}

impl H264Stream {
    pub open spec fn wf(&self) -> bool {
        1 <= self.length_size <= 4
    }

    /// Sets a stream up from the first parameter sets of its configuration
    /// record.
    pub fn open(sps_nals: &Vec<Vec<u8>>, pps_nals: &Vec<Vec<u8>>, length_size_minus_one: u8) -> (r:
        Result<Self, VideoError>)
        requires
            length_size_minus_one <= 3,
            parsable(sps_nals@),
            parsable(pps_nals@),
        ensures
            if sps_nals@.len() == 0 || pps_nals@.len() == 0 {
                r matches Err(e) && e@ == VideoErrorView::NoH264Track
            } else {
                match h264_sps_of(sps_nals@[0]@) {
                    Err(x) => r matches Err(e) && e@ == bad_bitstream(0, "SPS parse: "@, x),
                    Ok(sps) => match h264_pps_of(pps_nals@[0]@) {
                        Err(x) => r matches Err(e) && e@ == bad_bitstream(0, "PPS parse: "@, x),
                        Ok(pps) => r matches Ok(s) && s.wf() && s.sps@ == sps && s.pps@ == pps
                            && s.length_size == length_size_minus_one + 1,
                    },
                }
            },
    {
        if sps_nals.len() == 0 || pps_nals.len() == 0 {
            return Err(VideoError::NoH264Track);
        }
        let sps = match crate::h264::parse_sps(sps_nals[0].as_slice()) {
            Ok(sps) => sps,
            Err(e) => {
                return Err(bitstream_error(0, "SPS parse: ", &e));
            },
        };
        let pps = match crate::h264::parse_pps(pps_nals[0].as_slice()) {
            Ok(pps) => pps,
            Err(e) => {
                return Err(bitstream_error(0, "PPS parse: ", &e));
            },
        };
        Ok(H264Stream { sps, pps, length_size: length_size_minus_one as usize + 1 })
    }

    /// The coded slices of a sample.
    pub open spec fn slices_in(&self, data: Seq<u8>) -> Seq<Seq<u8>> {
        let nals = crate::mp4_reader::nals_from(data, 0, self.length_size as nat);
        crate::mp4_reader::coded_slices(Codec::H264, nals, nals.len())
    }

    /// What is decoded of a sample: nothing where it holds no coded picture.
    pub fn access_unit<'a>(&self, sample: u32, data: &'a [u8]) -> (r: Result<
        Option<H264Unit<'a>>,
        VideoError,
    >)
        requires
            self.wf(),
        ensures
            ({
                let slices = self.slices_in(data@);
                if slices.len() == 0 {
                    r matches Ok(None)
                } else {
                    match h264_header_of(slices[0], self.sps, self.pps) {
                        Err(x) => r matches Err(e) && e@ == bad_bitstream(
                            sample,
                            "slice header: "@,
                            x,
                        ),
                        Ok(header) => r matches Ok(Some(u)) && crate::mp4_reader::slice_views(
                            u.slices@,
                        ) == slices && u.header == header,
                    }
                }
            }),
    {
        let slices = split_slices(Codec::H264, data, self.length_size);
        let ghost views = self.slices_in(data@);
        assert(views.len() == slices@.len());
        if slices.len() == 0 {
            return Ok(None);
        }
        proof {
            assert(views[0] == slices@[0]@);
            crate::mp4_reader::lemma_slices_not_empty(
                Codec::H264,
                data@,
                self.length_size as nat,
                0,
            );
        }
        match crate::h264::parse_slice_header(slices[0], &self.sps, &self.pps) {
            Ok(header) => Ok(Some(H264Unit { slices, header })),
            Err(e) => Err(bitstream_error(sample, "slice header: ", &e)),
        }
    }
}

// ---- H.265 ----

/// What parsing a video parameter set gives.
pub open spec fn h265_vps_of(nal: Seq<u8>) -> Result<H265Vps, ErrorView> {
    if nal.len() < 4 {
        Err(ErrorView::Malformed("VPS too short"@))
    } else {
        let (v, end) = crate::h265::vps_syntax(crate::bitstream::rbsp_of(nal.skip(2)));
        match end.err {
            None => Ok(v),
            Some(e) => Err(e),
        }
    }
}

/// What parsing a sequence parameter set gives.
pub open spec fn h265_sps_of(nal: Seq<u8>) -> Result<crate::h265::H265SpsView, ErrorView> {
    if nal.len() < 4 {
        Err(ErrorView::Malformed("SPS too short"@))
    } else {
        let (v, end) = crate::h265::sps_syntax(crate::bitstream::rbsp_of(nal.skip(2)));
        match end.err {
            None => Ok(v),
            Some(e) => Err(e),
        }
    }
}

/// What parsing a picture parameter set gives.
pub open spec fn h265_pps_of(nal: Seq<u8>) -> Result<H265Pps, ErrorView> {
    if nal.len() < 3 {
        Err(ErrorView::Malformed("PPS too short"@))
    } else {
        let (v, end) = crate::h265::pps_syntax(crate::bitstream::rbsp_of(nal.skip(2)));
        match end.err {
            None => Ok(v),
            Some(e) => Err(e),
        }
    }
}

/// What parsing a slice header gives.
pub open spec fn h265_header_of(nal: Seq<u8>, sps: H265Sps, pps: H265Pps) -> Result<
    crate::h265::H265SliceHeaderView,
    ErrorView,
> {
    if nal.len() < 4 {
        Err(ErrorView::Malformed("slice NAL too short"@))
    } else {
        let (v, end) = crate::h265::slice_header_syntax(
            crate::h265::nal_type_of(nal),
            crate::bitstream::rbsp_of(crate::h265::slice_header_bytes(nal)),
            sps,
            pps,
        );
        match end.err {
            None => Ok(v),
            Some(e) => Err(e),
        }
    }
}

pub struct H265Stream {
    pub vps: H265Vps,
    pub sps: H265Sps,
    pub pps: H265Pps,
    pub length_size: usize,
    /// The gamut is folded to that of standard footage.
    pub wide_gamut: bool,
    /// Frames that are held back to restore presentation order.
    pub reorder_depth: usize,
}

/// The slices of an access unit that are decoded, with the header of the
/// first.
pub struct H265Unit<'a> {
    pub slices: Vec<&'a [u8]>,
    pub header: H265SliceHeader,
}

/// Whether the bits of the first parameter set can be counted.
pub open spec fn countable(nals: Seq<Vec<u8>>) -> bool {
    nals.len() > 0 ==> 8 * nals[0]@.len() <= usize::MAX
}

/// An error of the configuration record.
pub open spec fn bad_record(message: Seq<char>) -> VideoErrorView {
    VideoErrorView::Decode { sample: 0, message }
}

impl H265Stream {
    pub open spec fn wf(&self) -> bool {
        1 <= self.length_size <= 4 && crate::h265::sets_countable(self.sps.st_rps@)
    }

    /// Sets a stream up from the first parameter sets of its track.
    pub fn open(info: &HevcTrackInfo) -> (r: Result<Self, VideoError>)
        requires
            1 <= info.length_size <= 4,
            countable(info.vps@),
            countable(info.sps@),
            countable(info.pps@),
        ensures
            if info.vps@.len() == 0 {
                r matches Err(e) && e@ == bad_record("hvcC without VPS"@)
            } else if info.sps@.len() == 0 {
                r matches Err(e) && e@ == bad_record("hvcC without SPS"@)
            } else if info.pps@.len() == 0 {
                r matches Err(e) && e@ == bad_record("hvcC without PPS"@)
            } else {
                match h265_vps_of(info.vps@[0]@) {
                    Err(x) => r matches Err(e) && e@ == bad_bitstream(0, "VPS parse: "@, x),
                    Ok(vps) => match h265_sps_of(info.sps@[0]@) {
                        Err(x) => r matches Err(e) && e@ == bad_bitstream(0, "SPS parse: "@, x),
                        Ok(sps) => match h265_pps_of(info.pps@[0]@) {
                            Err(x) => r matches Err(e) && e@ == bad_bitstream(
                                0,
                                "PPS parse: "@,
                                x,
                            ),
                            Ok(pps) => r matches Ok(s) && s.wf() && s.vps == vps && s.sps@ == sps
                                && s.pps == pps && s.length_size == info.length_size
                                && s.wide_gamut == (match info.colr {
                                Some(c) => c.0 == 9,
                                None => sps.bit_depth.0 == 10,
                            }) && s.reorder_depth == sps.max_num_reorder_pics,
                        },
                    },
                }
            },
    {
        if info.vps.len() == 0 {
            return Err(track_error("hvcC without VPS"));
        }
        if info.sps.len() == 0 {
            return Err(track_error("hvcC without SPS"));
        }
        if info.pps.len() == 0 {
            return Err(track_error("hvcC without PPS"));
        }
        let vps = match crate::h265::parse_vps(info.vps[0].as_slice()) {
            Ok(vps) => vps,
            Err(e) => {
                return Err(bitstream_error(0, "VPS parse: ", &e));
            },
        };
        let sps = match crate::h265::parse_sps(info.sps[0].as_slice()) {
            Ok(sps) => sps,
            Err(e) => {
                return Err(bitstream_error(0, "SPS parse: ", &e));
            },
        };
        let pps = match crate::h265::parse_pps(info.pps[0].as_slice()) {
            Ok(pps) => pps,
            Err(e) => {
                return Err(bitstream_error(0, "PPS parse: ", &e));
            },
        };
        let wide_gamut: bool = is_wide_gamut(info.colr, sps.bit_depth_luma);
        let reorder_depth: usize = sps.max_num_reorder_pics as usize;
        Ok(
            H265Stream {
                vps,
                sps,
                pps,
                length_size: info.length_size,
                wide_gamut,
                reorder_depth,
            },
        )
    }

    /// The coded slices of a sample.
    pub open spec fn slices_in(&self, data: Seq<u8>) -> Seq<Seq<u8>> {
        let nals = crate::mp4_reader::nals_from(data, 0, self.length_size as nat);
        crate::mp4_reader::coded_slices(Codec::H265, nals, nals.len())
    }

    /// What is decoded of a sample: nothing where it holds no coded picture.
    pub fn access_unit<'a>(&self, sample: u32, data: &'a [u8]) -> (r: Result<
        Option<H265Unit<'a>>,
        VideoError,
    >)
        requires
            self.wf(),
        ensures
            ({
                let slices = self.slices_in(data@);
                if slices.len() == 0 {
                    r matches Ok(None)
                } else {
                    match h265_header_of(slices[0], self.sps, self.pps) {
                        Err(x) => r matches Err(e) && e@ == bad_bitstream(
                            sample,
                            "slice header: "@,
                            x,
                        ),
                        Ok(header) => r matches Ok(Some(u)) && crate::mp4_reader::slice_views(
                            u.slices@,
                        ) == slices && u.header@ == header,
                    }
                }
            }),
    {
        let slices = split_slices(Codec::H265, data, self.length_size);
        let ghost views = self.slices_in(data@);
        assert(views.len() == slices@.len());
        if slices.len() == 0 {
            return Ok(None);
        }
        assert(views[0] == slices@[0]@);
        match crate::h265::parse_slice_header(slices[0], &self.sps, &self.pps) {
            Ok(header) => Ok(Some(H265Unit { slices, header })),
            Err(e) => Err(bitstream_error(sample, "slice header: ", &e)),
        }
    }
}

} // verus!
