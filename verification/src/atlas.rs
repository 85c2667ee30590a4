//! Many equally sized images in one GPU buffer, each at an aligned offset.
use vstd::prelude::*;

verus! {

/// Bytes of a pixel: four floats.
pub const PIXEL_BYTES: u64 = 16;

/// `n` brought up to the next multiple of `align`.
pub open spec fn aligned_up(n: int, align: int) -> int {
    (n + align - 1) / align * align
}

/// Every how many pixels the appearance fit takes one.
pub const FIT_STRIDE: u32 = 4;

/// Alignment of the slots of training targets: 256 bytes, or what the device
/// asks of a binding's offset where that is more. Device alignments are powers
/// of two, so the larger is a multiple of the smaller.
pub fn target_alignment(device: u64) -> (a: u64)
    ensures
        a == (if device < 256 {
            256
        } else {
            device
        }),
{
    if device < 256 {
        256
    } else {
        device
    }
}

/// Views of `npix` pixels each, in slots `stride` bytes apart. The buffer is
/// never grown: views can be added up to its capacity.
pub struct Atlas {
    npix: u32,
    stride: u64,
    capacity: usize,
    used: usize,
}

impl Atlas {
    /// Pixels of a view.
    pub closed spec fn npix(&self) -> int {
        self.npix as int
    }

    /// Bytes between two slots.
    pub closed spec fn stride(&self) -> int {
        self.stride as int
    }

    pub closed spec fn capacity(&self) -> int {
        self.capacity as int
    }

    /// Number of views.
    pub closed spec fn used(&self) -> int {
        self.used as int
    }

    /// The views fit their slots, and the slots the buffer.
    pub open spec fn wf(&self) -> bool {
        &&& 1 <= self.capacity()
        &&& 0 <= self.used() <= self.capacity()
        &&& 16 * self.npix() <= self.stride()
        &&& self.stride() * self.capacity() <= u64::MAX
    }

    /// An atlas for `capacity` views, at least for the `views` there are and
    /// at least for one.
    pub fn with_capacity(
        width: u32,
        height: u32,
        views: usize,
        capacity: usize,
        align: u64,
    ) -> (a: Self)
        requires
            width * height <= u32::MAX,
            1 <= align,
            16 * (width * height) + align <= u64::MAX,
            aligned_up(16 * (width * height), align as int) * vstd::math::max(
                vstd::math::max(capacity as int, views as int),
                1,
            ) <= u64::MAX,
        ensures
            a.wf(),
            a.npix() == width * height,
            a.stride() == aligned_up(16 * (width * height), align as int),
            a.capacity() == vstd::math::max(vstd::math::max(capacity as int, views as int), 1),
            a.used() == views,
    {
        let npix: u32 = width * height;
        let bytes: u64 = npix as u64 * PIXEL_BYTES;
        let mut cap: usize = if capacity >= views {
            capacity
        } else {
            views
        };
        if cap == 0 {
            cap = 1;
        }
        proof {
            lemma_aligned(bytes as int, align as int);
        }
        let stride: u64 = (bytes + align - 1) / align * align;
        Atlas { npix, stride, capacity: cap, used: views }
    }

    /// Bytes of the whole buffer.
    pub fn total_bytes(&self) -> (n: u64)
        requires
            self.wf(),
        ensures
            n == self.stride() * self.capacity(),
    {
        self.stride * (self.capacity as u64)
    }

    /// Bytes of a view.
    pub fn view_bytes(&self) -> (n: u64)
        ensures
            n == 16 * self.npix(),
    {
        self.npix as u64 * PIXEL_BYTES
    }

    /// Where the slot of view `v` starts.
    pub fn offset(&self, v: usize) -> (at: u64)
        requires
            self.wf(),
            v < self.capacity(),
        ensures
            at == v * self.stride(),
            at + self.stride() <= self.stride() * self.capacity(),
    {
        proof {
            assert(v * self.stride + self.stride <= self.stride * self.capacity)
                by (nonlinear_arith)
                requires
                    0 <= v < self.capacity,
                    0 <= self.stride,
            ;
            assert(0 <= v * self.stride) by (nonlinear_arith)
                requires
                    0 <= v,
                    0 <= self.stride,
            ;
        }
        (v as u64) * self.stride
    }

    /// Number of views that can still be added.
    pub fn headroom(&self) -> (n: usize)
        requires
            self.wf(),
        ensures
            n == self.capacity() - self.used(),
    {
        self.capacity - self.used
    }

    /// Adds a view: its number, or None when the capacity is used up.
    pub fn push_view(&mut self) -> (v: Option<usize>)
        requires
            old(self).wf(),
        ensures
            final(self).wf(),
            final(self).npix() == old(self).npix(),
            final(self).stride() == old(self).stride(),
            final(self).capacity() == old(self).capacity(),
            if old(self).used() < old(self).capacity() {
                &&& v == Some(old(self).used() as usize)
                &&& final(self).used() == old(self).used() + 1
            } else {
                &&& v is None
                &&& final(self).used() == old(self).used()
            },
    {
        if self.used >= self.capacity {
            return None;
        }
        let v: usize = self.used;
        self.used = self.used + 1;
        Some(v)
    }

    /// Workgroups that go over the pixels of a view.
    pub fn groups(&self) -> (n: u32)
        ensures
            n == (self.npix() + 255) / 256,
    {
        self.npix / 256 + (if self.npix % 256 == 0 {
            0
        } else {
            1
        })
    }

    /// Number of pixels that the appearance fit takes.
    pub fn samples(&self) -> (n: u32)
        ensures
            n == (self.npix() + 3) / 4,
    {
        self.npix / FIT_STRIDE + (if self.npix % FIT_STRIDE == 0 {
            0
        } else {
            1
        })
    }
}

pub proof fn lemma_aligned(n: int, align: int)
    requires
        0 <= n,
        1 <= align,
    ensures
        n <= aligned_up(n, align) < n + align,
        aligned_up(n, align) % align == 0,
{
    let q = (n + align - 1) / align;
    vstd::arithmetic::div_mod::lemma_fundamental_div_mod(n + align - 1, align);
    vstd::arithmetic::div_mod::lemma_mod_multiples_basic(q, align);
    vstd::arithmetic::mul::lemma_mul_is_commutative(align, q);
}

/// Views never overlap: the data of a view ends before the next slot starts.
pub proof fn views_do_not_overlap(a: Atlas, v: int, w: int)
    requires
        a.wf(),
        0 <= v < w < a.capacity(),
    ensures
        v * a.stride() + 16 * a.npix() <= w * a.stride(),
{
    assert(v * a.stride() + a.stride() <= w * a.stride()) by (nonlinear_arith)
        requires
            v + 1 <= w,
            0 <= a.stride(),
    ;
}

/// Every slot starts at a multiple of the alignment.
pub proof fn slots_are_aligned(bytes: int, align: int, v: int)
    requires
        0 <= bytes,
        1 <= align,
        0 <= v,
    ensures
        (v * aligned_up(bytes, align)) % align == 0,
{
    let q = (bytes + align - 1) / align;
    assert(v * (q * align) == (v * q) * align) by (nonlinear_arith);
    vstd::arithmetic::div_mod::lemma_mod_multiples_basic(v * q, align);
}

/// The next multiple of an alignment is the least one that is not below.
pub proof fn slots_are_no_larger_than_needed(bytes: int, align: int, m: int)
    requires
        0 <= bytes,
        1 <= align,
        bytes <= m * align,
    ensures
        bytes <= aligned_up(bytes, align) <= m * align,
        aligned_up(bytes, align) < bytes + align,
{
    let q = (bytes + align - 1) / align;
    vstd::arithmetic::div_mod::lemma_fundamental_div_mod(bytes + align - 1, align);
    vstd::arithmetic::div_mod::lemma_mod_bound(bytes + align - 1, align);
    assert(q * align == align * q) by (nonlinear_arith);
    assert(q <= m) by (nonlinear_arith)
        requires
            1 <= align,
            q * align <= bytes + align - 1,
            bytes <= m * align,
    ;
    assert(q * align <= m * align) by (nonlinear_arith)
        requires
            1 <= align,
            q <= m,
    ;
}

} // verus!
