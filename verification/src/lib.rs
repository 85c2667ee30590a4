//! Verified core of a Gaussian-splatting capture pipeline.
pub mod atlas;
pub mod bitstream;
pub mod buffers;
pub mod coding;
pub mod colmap;
pub mod colmap_writing;
pub mod context;
pub mod detect;
pub mod frame_player;
pub mod h264;
pub mod h264_writing;
pub mod h265;
pub mod h265_limits;
pub mod h265_sets_writing;
pub mod h265_writing;
pub mod hevc_demux;
pub mod init;
pub mod iso_writing;
pub mod keyframes;
pub mod mp4_reader;
pub mod nvdec;
pub mod nvdec_h265;
pub mod ordering;
pub mod overlay;
pub mod pairwise;
pub mod picture_order;
pub mod plane_sweep;
pub mod ply;
pub mod prefix_sum;
pub mod profile;
pub mod pyramid;
pub mod references;
pub mod render;
pub mod reorder;
pub mod sh;
pub mod sharpness;
pub mod sort;
pub mod ssim;
pub mod stream;
pub mod text;
pub mod views;
pub mod windowed;
pub mod wire;
pub mod words;
