//! Turning the path nodes of a decoded document into draw descriptors.
use vstd::prelude::*;

use crate::path::{normalize, normalized, PathEvent, Segment};

verus! {

/// A colour as four 8-bit channels.
#[derive(Clone, Copy, Debug, PartialEq, Eq)]
pub struct Rgba8 {
    pub red: u8,
    pub green: u8,
    pub blue: u8,
    pub alpha: u8,
}

/// The colour that paints without a solid colour of their own fall back to:
/// opaque white.
pub open spec fn default_color() -> Rgba8 {
    Rgba8 { red: 255, green: 255, blue: 255, alpha: 255 }
}

/// How a fill or a stroke is painted.
#[derive(Clone, Copy, Debug, PartialEq, Eq)]
pub enum Paint {
    Color { red: u8, green: u8, blue: u8 },
    LinearGradient,
    RadialGradient,
    Pattern,
}

/// The shape drawn at the open ends of a stroke.
#[derive(Clone, Copy, Debug, PartialEq, Eq)]
pub enum LineCap {
    Butt,
    Square,
    Round,
}

/// The shape drawn where two stroke segments meet.
#[derive(Clone, Copy, Debug, PartialEq, Eq)]
pub enum LineJoin {
    Miter,
    Bevel,
    Round,
}

/// A path's fill: its paint and its opacity as a channel value.
#[derive(Clone, Copy, Debug, PartialEq, Eq)]
pub struct Fill {
    pub paint: Paint,
    pub opacity: u8,
}

/// A path's stroke; `W` is the representation of its width.
#[derive(Clone, Copy, Debug, PartialEq, Eq)]
pub struct Stroke<W> {
    pub paint: Paint,
    pub opacity: u8,
    pub width: W,
    pub linecap: LineCap,
    pub linejoin: LineJoin,
}

/// What the stroke tessellator is asked to draw.
#[derive(Clone, Copy, Debug, PartialEq, Eq)]
pub struct StrokeStyle<W> {
    pub line_width: W,
    pub line_cap: LineCap,
    pub line_join: LineJoin,
}

/// Whether a descriptor is filled or stroked.
#[derive(Clone, Copy, Debug, PartialEq, Eq)]
pub enum DrawType<W> {
    Fill,
    Stroke(StrokeStyle<W>),
}

/// One drawable path node of a document: its segments, the point that stands
/// for "previous" before its first command, its absolute transform, and its
/// optional fill and stroke.
#[derive(Clone, Debug)]
pub struct PathNode<P, T, W> {
    pub segments: Vec<Segment<P>>,
    pub start: P,
    pub transform: T,
    pub fill: Option<Fill>,
    pub stroke: Option<Stroke<W>>,
}

/// One path's geometry paired with one paint intent.
#[derive(Clone, Debug)]
pub struct PathDescriptor<P, T, W> {
    pub segments: Vec<PathEvent<P>>,
    pub abs_transform: T,
    pub color: Rgba8,
    pub draw_type: DrawType<W>,
}

/// What a descriptor holds.
pub struct DescriptorModel<P, T, W> {
    pub segments: Seq<PathEvent<P>>,
    pub abs_transform: T,
    pub color: Rgba8,
    pub draw_type: DrawType<W>,
}

impl<P, T, W> View for PathDescriptor<P, T, W> {
    type V = DescriptorModel<P, T, W>;

    open spec fn view(&self) -> DescriptorModel<P, T, W> {
        DescriptorModel {
            segments: self.segments@,
            abs_transform: self.abs_transform,
            color: self.color,
            draw_type: self.draw_type,
        }
    }
}

/// The colour that `paint` at `opacity` resolves to: a solid colour keeps its
/// channels and takes the opacity as alpha; any other paint gives the default.
pub open spec fn paint_color(paint: Paint, opacity: u8) -> Rgba8 {
    match paint {
        Paint::Color { red, green, blue } => Rgba8 { red, green, blue, alpha: opacity },
        _ => default_color(),
    }
}

/// The tessellator's options for `s`.
pub open spec fn stroke_style<W>(s: Stroke<W>) -> StrokeStyle<W> {
    StrokeStyle { line_width: s.width, line_cap: s.linecap, line_join: s.linejoin }
}

/// The descriptors of one node: a fill descriptor if it has a fill, then a
/// stroke descriptor if it has a stroke.
pub open spec fn node_descriptors<P, T, W>(n: PathNode<P, T, W>) -> Seq<DescriptorModel<P, T, W>> {
    let evs = normalized(n.segments@, n.start);
    let fill = match n.fill {
        Some(f) => seq![
            DescriptorModel {
                segments: evs,
                abs_transform: n.transform,
                color: paint_color(f.paint, f.opacity),
                draw_type: DrawType::Fill,
            },
        ],
        None => Seq::empty(),
    };
    let stroke = match n.stroke {
        Some(s) => seq![
            DescriptorModel {
                segments: evs,
                abs_transform: n.transform,
                color: paint_color(s.paint, s.opacity),
                draw_type: DrawType::Stroke(stroke_style(s)),
            },
        ],
        None => Seq::empty(),
    };
    fill + stroke
}

/// The descriptors of all `nodes`, in document order.
pub open spec fn all_descriptors<P, T, W>(nodes: Seq<PathNode<P, T, W>>) -> Seq<DescriptorModel<P, T, W>>
    decreases nodes.len(),
{
    if nodes.len() == 0 {
        Seq::empty()
    } else {
        all_descriptors(nodes.drop_last()) + node_descriptors(nodes.last())
    }
}

/// Resolves the colour of `paint` at `opacity`.
pub fn resolve_color(paint: Paint, opacity: u8) -> (r: Rgba8)
    ensures
        r == paint_color(paint, opacity),
{
    match paint {
        Paint::Color { red, green, blue } => Rgba8 { red, green, blue, alpha: opacity },
        Paint::LinearGradient | Paint::RadialGradient | Paint::Pattern => Rgba8 {
            red: 255,
            green: 255,
            blue: 255,
            alpha: 255,
        },
    }
}

/// The colour and draw type of a stroke descriptor.
pub fn convert_stroke<W: Copy>(stroke: &Stroke<W>) -> (r: (Rgba8, DrawType<W>))
    ensures
        r.0 == paint_color(stroke.paint, stroke.opacity),
        r.1 == DrawType::Stroke(stroke_style(*stroke)),
{
    let color = resolve_color(stroke.paint, stroke.opacity);
    let style = StrokeStyle {
        line_width: stroke.width,
        line_cap: stroke.linecap,
        line_join: stroke.linejoin,
    };
    (color, DrawType::Stroke(style))
}

fn copy_vec<X: Copy>(v: &Vec<X>) -> (r: Vec<X>)
    ensures
        r@ == v@,
{
    let mut out: Vec<X> = Vec::new();
    let mut i: usize = 0;
    while i < v.len()
        invariant
            i <= v@.len(),
            out@ == v@.subrange(0, i as int),
        decreases v@.len() - i,
    {
        out.push(v[i]);
        i = i + 1;
        assert(v@.subrange(0, i as int) == v@.subrange(0, i - 1).push(v@[i - 1]));
    }
    assert(v@.subrange(0, i as int) == v@);
    out
}

/// The descriptors of `node`, appended to `out`.
fn push_node_descriptors<P: Copy, T: Copy, W: Copy>(
    out: &mut Vec<PathDescriptor<P, T, W>>,
    node: &PathNode<P, T, W>,
)
    ensures
        final(out)@.map_values(|d: PathDescriptor<P, T, W>| d@) == old(out)@.map_values(
            |d: PathDescriptor<P, T, W>| d@,
        ) + node_descriptors(*node),
{
    let ghost before = out@.map_values(|d: PathDescriptor<P, T, W>| d@);
    let ghost evs = normalized(node.segments@, node.start);
    let ghost fill_part: Seq<DescriptorModel<P, T, W>> = Seq::empty();
    if let Some(fill) = &node.fill {
        let segments = normalize(copy_vec(&node.segments), node.start);
        let d = PathDescriptor {
            segments,
            abs_transform: node.transform,
            color: resolve_color(fill.paint, fill.opacity),
            draw_type: DrawType::Fill,
        };
        proof {
            fill_part = seq![d@];
        }
        out.push(d);
    }
    assert(out@.map_values(|d: PathDescriptor<P, T, W>| d@) == before + fill_part);
    if let Some(stroke) = &node.stroke {
        let (color, draw_type) = convert_stroke(stroke);
        let segments = normalize(copy_vec(&node.segments), node.start);
        let d = PathDescriptor { segments, abs_transform: node.transform, color, draw_type };
        let ghost mid = out@.map_values(|d: PathDescriptor<P, T, W>| d@);
        out.push(d);
        assert(out@.map_values(|d: PathDescriptor<P, T, W>| d@) == mid.push(d@));
        assert(before + node_descriptors(*node) == before + fill_part + seq![d@]);
    } else {
        assert(node_descriptors(*node) == fill_part + Seq::<DescriptorModel<P, T, W>>::empty());
        assert(before + node_descriptors(*node) == before + fill_part);
    }
}

/// Builds the descriptors of every drawable node, in document order: for each
/// node a fill descriptor if it is filled, then a stroke descriptor if it is
/// stroked; a node with neither yields none.
pub fn build_descriptors<P: Copy, T: Copy, W: Copy>(nodes: &Vec<PathNode<P, T, W>>) -> (r: Vec<
    PathDescriptor<P, T, W>,
>)
    ensures
        r@.map_values(|d: PathDescriptor<P, T, W>| d@) == all_descriptors(nodes@),
{
    let mut out: Vec<PathDescriptor<P, T, W>> = Vec::new();
    let mut k: usize = 0;
    assert(out@.map_values(|d: PathDescriptor<P, T, W>| d@) == all_descriptors(nodes@.subrange(0, 0)));
    while k < nodes.len()
        invariant
            k <= nodes@.len(),
            out@.map_values(|d: PathDescriptor<P, T, W>| d@) == all_descriptors(nodes@.subrange(0, k as int)),
        decreases nodes@.len() - k,
    {
        push_node_descriptors(&mut out, &nodes[k]);
        k = k + 1;
        assert(nodes@.subrange(0, k as int).drop_last() == nodes@.subrange(0, k - 1));
    }
    assert(nodes@.subrange(0, k as int) == nodes@);
    out
}

/// A filled node followed by a stroked node yields two descriptors in that
/// order: the fill of the first, then the stroke of the second, each with its
/// own node's normalised events.
pub proof fn lemma_fill_then_stroke<P, T, W>(a: PathNode<P, T, W>, b: PathNode<P, T, W>)
    requires
        a.fill is Some,
        a.stroke is None,
        b.fill is None,
        b.stroke is Some,
    ensures
        all_descriptors(seq![a, b]).len() == 2,
        all_descriptors(seq![a, b])[0].draw_type == DrawType::<W>::Fill,
        all_descriptors(seq![a, b])[0].segments == normalized(a.segments@, a.start),
        all_descriptors(seq![a, b])[1].draw_type is Stroke,
        all_descriptors(seq![a, b])[1].segments == normalized(b.segments@, b.start),
{
    let s = seq![a, b];
    assert(s.drop_last() == seq![a]);
    assert(seq![a].drop_last() == Seq::<PathNode<P, T, W>>::empty());
    assert(seq![a].last() == a);
    assert(all_descriptors(Seq::<PathNode<P, T, W>>::empty()) == Seq::<DescriptorModel<P, T, W>>::empty());
    assert(all_descriptors(seq![a]) == all_descriptors(seq![a].drop_last()) + node_descriptors(seq![a].last()));
    assert(all_descriptors(seq![a]) =~= node_descriptors(a));
    assert(s.last() == b);
    assert(node_descriptors(a).len() == 1);
    assert(node_descriptors(b).len() == 1);
    assert(all_descriptors(s) == all_descriptors(seq![a]) + node_descriptors(b));
}

} // verus!
