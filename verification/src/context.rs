//! Choice of graphics backends and device requirements.
use vstd::prelude::*;
use vstd::string::StringExecFns;

use crate::words::same_text;

verus! {

#[derive(Debug)]
pub enum GpuError {
    NoAdapter(String),
    DeviceRequest(String),
    BadBackend(String),
}

/// `GpuError` with its strings as character sequences.
pub enum GpuErrorView {
    NoAdapter(Seq<char>),
    DeviceRequest(Seq<char>),
    BadBackend(Seq<char>),
}

impl View for GpuError {
    type V = GpuErrorView;

    open spec fn view(&self) -> GpuErrorView {
        match *self {
            GpuError::NoAdapter(s) => GpuErrorView::NoAdapter(s@),
            GpuError::DeviceRequest(s) => GpuErrorView::DeviceRequest(s@),
            GpuError::BadBackend(s) => GpuErrorView::BadBackend(s@),
        }
    }
}

impl GpuError {
    /// The message shown to a user.
    pub fn message(&self) -> (m: String)
        ensures
            m@ == match self@ {
                GpuErrorView::NoAdapter(s) => "no compatible GPU adapter found: "@ + s,
                GpuErrorView::DeviceRequest(s) => "device request failed: "@ + s,
                GpuErrorView::BadBackend(s) => "unknown backend `"@ + s
                    + "` (expected vulkan, dx12, or gl)"@,
            },
    {
        match self {
            GpuError::NoAdapter(s) => {
                let mut m = String::from_str("no compatible GPU adapter found: ");
                m.append(s.as_str());
                m
            },
            GpuError::DeviceRequest(s) => {
                let mut m = String::from_str("device request failed: ");
                m.append(s.as_str());
                m
            },
            GpuError::BadBackend(s) => {
                let mut m = String::from_str("unknown backend `");
                m.append(s.as_str());
                m.append("` (expected vulkan, dx12, or gl)");
                m
            },
        }
    }
}

/// The graphics backends to try.
#[derive(Clone, Copy, Debug, PartialEq, Eq, Structural)]
pub struct Backends {
    pub vulkan: bool,
    pub dx12: bool,
    pub gl: bool,
}

/// Parses a backend name. Without one, or with an empty one, Vulkan comes first
/// with the other two as a fallback, so that a broken driver does not stop the
/// viewer.
pub fn backends_from_str(s: Option<&str>) -> (r: Result<Backends, GpuError>)
    ensures
        match s {
            None => r == Ok::<Backends, GpuError>(
                Backends { vulkan: true, dx12: true, gl: true },
            ),
            Some(name) => if name@.len() == 0 {
                r == Ok::<Backends, GpuError>(Backends { vulkan: true, dx12: true, gl: true })
            } else if name@ == "vulkan"@ {
                r == Ok::<Backends, GpuError>(Backends { vulkan: true, dx12: false, gl: false })
            } else if name@ == "dx12"@ {
                r == Ok::<Backends, GpuError>(Backends { vulkan: false, dx12: true, gl: false })
            } else if name@ == "gl"@ {
                r == Ok::<Backends, GpuError>(Backends { vulkan: false, dx12: false, gl: true })
            } else {
                r matches Err(e) && e@ == GpuErrorView::BadBackend(name@)
            },
        },
{
    let name = match s {
        None => {
            return Ok(Backends { vulkan: true, dx12: true, gl: true });
        },
        Some(name) => name,
    };
    if name.unicode_len() == 0 {
        Ok(Backends { vulkan: true, dx12: true, gl: true })
    } else if same_text(name, "vulkan") {
        Ok(Backends { vulkan: true, dx12: false, gl: false })
    } else if same_text(name, "dx12") {
        Ok(Backends { vulkan: false, dx12: true, gl: false })
    } else if same_text(name, "gl") {
        Ok(Backends { vulkan: false, dx12: false, gl: true })
    } else {
        Err(GpuError::BadBackend(String::from_str(name)))
    }
}

/// What an adapter offers.
#[derive(Clone, Copy, Debug, PartialEq, Eq, Structural)]
pub struct AdapterOffer {
    pub max_storage_buffer_binding_size: u64,
    pub max_buffer_size: u64,
    pub max_storage_buffers_per_shader_stage: u32,
    pub timestamp_query: bool,
    pub subgroup: bool,
}

/// What the device is asked for: the offered buffer sizes, up to sixteen
/// storage buffers per stage, and the optional features that the adapter has.
/// Subgroups can be switched off.
pub fn device_request(offer: AdapterOffer, no_subgroups: bool) -> (r: AdapterOffer)
    ensures
        r.max_storage_buffer_binding_size == offer.max_storage_buffer_binding_size,
        r.max_buffer_size == offer.max_buffer_size,
        r.max_storage_buffers_per_shader_stage == (if offer.max_storage_buffers_per_shader_stage
            <= 16 {
            offer.max_storage_buffers_per_shader_stage
        } else {
            16
        }),
        r.timestamp_query == offer.timestamp_query,
        r.subgroup == (offer.subgroup && !no_subgroups),
{
    let buffers: u32 = if offer.max_storage_buffers_per_shader_stage <= 16 {
        offer.max_storage_buffers_per_shader_stage
    } else {
        16
    };
    AdapterOffer {
        max_storage_buffer_binding_size: offer.max_storage_buffer_binding_size,
        max_buffer_size: offer.max_buffer_size,
        max_storage_buffers_per_shader_stage: buffers,
        timestamp_query: offer.timestamp_query,
        subgroup: offer.subgroup && !no_subgroups,
    }
}

} // verus!
