//! Schedule of the image loss: which buffers its passes read and write, and
//! how large their dispatches are.
use vstd::prelude::*;

verus! {

/// The buffers of the loss, four floats a pixel each.
#[derive(Clone, Copy, Debug, PartialEq, Eq, Structural)]
pub enum Buf {
    /// The rendered image and the target: written before the loss runs.
    Image,
    Target,
    X2,
    Y2,
    Xy,
    MuX,
    MuY,
    BX2,
    /// First the blurred square of the target, then a coefficient map.
    BY2,
    /// First the blurred product, then the similarity map.
    SsimMap,
    CMu,
    CX2,
    BcMu,
    BcX2,
    BcXy,
    Tmp,
    L1Map,
    /// Gradient of the loss by the rendered colours.
    Gradient,
}

#[derive(Clone, Copy, Debug, PartialEq, Eq, Structural)]
pub enum Pass {
    Products,
    BlurRows { from: Buf },
    BlurColumns { to: Buf },
    Partials,
    Combine,
}

/// What a pass reads.
pub open spec fn reads(p: Pass) -> Set<Buf> {
    match p {
        Pass::Products => set![Buf::Image, Buf::Target],
        Pass::BlurRows { from } => set![from],
        Pass::BlurColumns { to } => set![Buf::Tmp],
        Pass::Partials => set![Buf::MuX, Buf::MuY, Buf::BX2, Buf::BY2, Buf::SsimMap],
        Pass::Combine => set![Buf::Image, Buf::Target, Buf::BcMu, Buf::BcX2, Buf::BcXy],
    }
}

/// What a pass writes.
pub open spec fn writes(p: Pass) -> Set<Buf> {
    match p {
        Pass::Products => set![Buf::X2, Buf::Y2, Buf::Xy],
        Pass::BlurRows { from } => set![Buf::Tmp],
        Pass::BlurColumns { to } => set![to],
        Pass::Partials => set![Buf::CMu, Buf::CX2, Buf::BY2, Buf::SsimMap],
        Pass::Combine => set![Buf::Gradient, Buf::L1Map],
    }
}

/// The passes of the loss, in order.
pub open spec fn loss_passes() -> Seq<Pass> {
    seq![
        Pass::Products,
        Pass::BlurRows { from: Buf::Image },
        Pass::BlurColumns { to: Buf::MuX },
        Pass::BlurRows { from: Buf::Target },
        Pass::BlurColumns { to: Buf::MuY },
        Pass::BlurRows { from: Buf::X2 },
        Pass::BlurColumns { to: Buf::BX2 },
        Pass::BlurRows { from: Buf::Y2 },
        Pass::BlurColumns { to: Buf::BY2 },
        Pass::BlurRows { from: Buf::Xy },
        Pass::BlurColumns { to: Buf::SsimMap },
        Pass::Partials,
        Pass::BlurRows { from: Buf::CMu },
        Pass::BlurColumns { to: Buf::BcMu },
        Pass::BlurRows { from: Buf::CX2 },
        Pass::BlurColumns { to: Buf::BcX2 },
        Pass::BlurRows { from: Buf::BY2 },
        Pass::BlurColumns { to: Buf::BcXy },
        Pass::Combine,
    ]
}

fn blur(passes: &mut Vec<Pass>, from: Buf, to: Buf)
    ensures
        final(passes)@ == old(passes)@.push(Pass::BlurRows { from }).push(
            Pass::BlurColumns { to },
        ),
{
    passes.push(Pass::BlurRows { from });
    passes.push(Pass::BlurColumns { to });
}

/// The passes of the loss, in order.
pub fn encode() -> (passes: Vec<Pass>)
    ensures
        passes@ == loss_passes(),
{
    let mut passes: Vec<Pass> = Vec::new();
    passes.push(Pass::Products);
    blur(&mut passes, Buf::Image, Buf::MuX);
    blur(&mut passes, Buf::Target, Buf::MuY);
    blur(&mut passes, Buf::X2, Buf::BX2);
    blur(&mut passes, Buf::Y2, Buf::BY2);
    blur(&mut passes, Buf::Xy, Buf::SsimMap);
    passes.push(Pass::Partials);
    blur(&mut passes, Buf::CMu, Buf::BcMu);
    blur(&mut passes, Buf::CX2, Buf::BcX2);
    blur(&mut passes, Buf::BY2, Buf::BcXy);
    passes.push(Pass::Combine);
    assert(passes@ =~= loss_passes());
    passes
}

/// The buffers that hold data before pass `n`.
pub open spec fn filled(passes: Seq<Pass>, n: int) -> Set<Buf>
    decreases n,
{
    if n <= 0 {
        set![Buf::Image, Buf::Target]
    } else {
        filled(passes, n - 1).union(writes(passes[n - 1]))
    }
}

/// Every pass reads only what has been written before it, and the image and
/// the target are never overwritten.
pub proof fn passes_read_what_was_written(i: int)
    requires
        0 <= i < loss_passes().len(),
    ensures
        reads(loss_passes()[i]).subset_of(filled(loss_passes(), i)),
        !writes(loss_passes()[i]).contains(Buf::Image),
        !writes(loss_passes()[i]).contains(Buf::Target),
{
    lemma_filled_before(i);
}

proof fn lemma_filled_before(i: int)
    requires
        0 <= i < loss_passes().len(),
    ensures
        reads(loss_passes()[i]).subset_of(filled(loss_passes(), i)),
{
    let p = loss_passes();
    reveal_with_fuel(filled, 20);
    assert forall|b: Buf| reads(p[i]).contains(b) implies filled(p, i).contains(b) by {}
}

/// Size of a loss.
#[derive(Clone, Copy, Debug, PartialEq, Eq, Structural)]
pub struct LossPlan {
    /// Bytes of each buffer.
    pub px_bytes: u64,
    /// Workgroups that go over the pixels one by one.
    pub groups_1d: u32,
    /// Workgroups of a blur, in x and y.
    pub blur_x: u32,
    pub blur_y: u32,
}

/// Plans the loss of images of this size.
pub fn plan_loss(width: u32, height: u32) -> (p: LossPlan)
    requires
        width * height <= u32::MAX,
    ensures
        p.px_bytes == 16 * (width * height),
        p.groups_1d == (width * height + 255) / 256,
        p.blur_x == (width + 15) / 16,
        p.blur_y == (height + 15) / 16,
{
    let npix: u32 = width * height;
    LossPlan {
        px_bytes: npix as u64 * 16,
        groups_1d: npix / 256 + (if npix % 256 == 0 {
            0
        } else {
            1
        }),
        blur_x: width / 16 + (if width % 16 == 0 {
            0
        } else {
            1
        }),
        blur_y: height / 16 + (if height % 16 == 0 {
            0
        } else {
            1
        }),
    }
}

/// What a buffer holds, told by how it was made.
pub enum Content {
    Rendered,
    Target,
    RenderedSquared,
    TargetSquared,
    Product,
    /// Blurred along the rows only.
    HalfBlurred(Box<Content>),
    Blurred(Box<Content>),
    /// Maps made of the two means, the two blurred squares and the blurred
    /// product: the coefficients of the mean, the square and the product, and
    /// the similarity.
    MeanCoefficient,
    SquareCoefficient,
    ProductCoefficient,
    Similarity,
    /// Made of the images and the three blurred coefficients.
    Gradient,
    Difference,
    /// Made of other things than it should be.
    Wrong,
}

/// The buffers after the first `n` passes.
pub open spec fn contents(passes: Seq<Pass>, n: int) -> Map<Buf, Content>
    decreases n,
{
    if n <= 0 {
        map![Buf::Image => Content::Rendered, Buf::Target => Content::Target]
    } else {
        let m = contents(passes, n - 1);
        match passes[n - 1] {
            Pass::Products => m.insert(Buf::X2, Content::RenderedSquared).insert(
                Buf::Y2,
                Content::TargetSquared,
            ).insert(Buf::Xy, Content::Product),
            Pass::BlurRows { from } => m.insert(
                Buf::Tmp,
                Content::HalfBlurred(Box::new(m[from])),
            ),
            Pass::BlurColumns { to } => m.insert(
                to,
                match m[Buf::Tmp] {
                    Content::HalfBlurred(c) => Content::Blurred(c),
                    _ => Content::Wrong,
                },
            ),
            Pass::Partials => if m[Buf::MuX] == Content::Blurred(Box::new(Content::Rendered))
                && m[Buf::MuY] == Content::Blurred(Box::new(Content::Target)) && m[Buf::BX2]
                == Content::Blurred(Box::new(Content::RenderedSquared)) && m[Buf::BY2]
                == Content::Blurred(Box::new(Content::TargetSquared)) && m[Buf::SsimMap]
                == Content::Blurred(Box::new(Content::Product)) {
                m.insert(Buf::CMu, Content::MeanCoefficient).insert(
                    Buf::CX2,
                    Content::SquareCoefficient,
                ).insert(Buf::BY2, Content::ProductCoefficient).insert(
                    Buf::SsimMap,
                    Content::Similarity,
                )
            } else {
                m.insert(Buf::SsimMap, Content::Wrong)
            },
            Pass::Combine => if m[Buf::Image] == Content::Rendered && m[Buf::Target]
                == Content::Target && m[Buf::BcMu] == Content::Blurred(
                Box::new(Content::MeanCoefficient),
            ) && m[Buf::BcX2] == Content::Blurred(Box::new(Content::SquareCoefficient))
                && m[Buf::BcXy] == Content::Blurred(Box::new(Content::ProductCoefficient)) {
                m.insert(Buf::Gradient, Content::Gradient).insert(Buf::L1Map, Content::Difference)
            } else {
                m.insert(Buf::Gradient, Content::Wrong)
            },
        }
    }
}

/// The passes make the loss: at the end the similarity map, the gradient and
/// the difference map are there, each made of what it should be made of.
pub proof fn passes_make_the_loss()
    ensures
        ({
            let m = contents(loss_passes(), loss_passes().len() as int);
            &&& m[Buf::SsimMap] == Content::Similarity
            &&& m[Buf::Gradient] == Content::Gradient
            &&& m[Buf::L1Map] == Content::Difference
        }),
{
    let p = loss_passes();
    assert(p.len() == 19);
    reveal_with_fuel(contents, 2);
    assert(p[0] == Pass::Products);
    let m1 = contents(p, 1);
    assert(m1[Buf::Image] == Content::Rendered && m1[Buf::Target] == Content::Target);
    assert(m1[Buf::X2] == Content::RenderedSquared && m1[Buf::Y2] == Content::TargetSquared
        && m1[Buf::Xy] == Content::Product);
    lemma_blur(p, 1, Buf::Image, Buf::MuX);
    lemma_blur(p, 3, Buf::Target, Buf::MuY);
    lemma_blur(p, 5, Buf::X2, Buf::BX2);
    lemma_blur(p, 7, Buf::Y2, Buf::BY2);
    lemma_blur(p, 9, Buf::Xy, Buf::SsimMap);
    assert(p[11] == Pass::Partials);
    lemma_blur(p, 12, Buf::CMu, Buf::BcMu);
    lemma_blur(p, 14, Buf::CX2, Buf::BcX2);
    lemma_blur(p, 16, Buf::BY2, Buf::BcXy);
    assert(p[18] == Pass::Combine);
}

/// A blur along the rows and then along the columns.
proof fn lemma_blur(p: Seq<Pass>, n: int, from: Buf, to: Buf)
    requires
        0 <= n,
        n + 1 < p.len(),
        p[n] == (Pass::BlurRows { from }),
        p[n + 1] == (Pass::BlurColumns { to }),
    ensures
        contents(p, n + 2) == contents(p, n).insert(
            Buf::Tmp,
            Content::HalfBlurred(Box::new(contents(p, n)[from])),
        ).insert(to, Content::Blurred(Box::new(contents(p, n)[from]))),
{
    let m = contents(p, n);
    let half = Content::HalfBlurred(Box::new(m[from]));
    assert(contents(p, n + 1) == m.insert(Buf::Tmp, half));
    assert(contents(p, n + 1)[Buf::Tmp] == half);
}

} // verus!
