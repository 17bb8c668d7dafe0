use lyon_tessellation::math::point;
use lyon_tessellation::{
    BuffersBuilder, FillOptions, FillTessellator, FillVertex, StrokeOptions, StrokeTessellator,
    StrokeVertex,
};
use svg_mesh::buffer::{merge_tessellated, VertexBuffers};
use svg_mesh::descriptor::{
    build_descriptors, DrawType, Fill, LineCap, LineJoin, Paint, PathDescriptor, PathNode, Stroke,
};
use svg_mesh::path::{normalize, PathEvent, Segment};

type Pt = (f32, f32);

fn to_lyon(e: &PathEvent<Pt>) -> lyon_path::PathEvent {
    let p = |q: Pt| point(q.0, q.1);
    match *e {
        PathEvent::Begin { at } => lyon_path::PathEvent::Begin { at: p(at) },
        PathEvent::Line { from, to } => lyon_path::PathEvent::Line { from: p(from), to: p(to) },
        PathEvent::Cubic { from, ctrl1, ctrl2, to } => lyon_path::PathEvent::Cubic {
            from: p(from),
            ctrl1: p(ctrl1),
            ctrl2: p(ctrl2),
            to: p(to),
        },
        PathEvent::End { last, first, close } => {
            lyon_path::PathEvent::End { last: p(last), first: p(first), close }
        }
    }
}

fn stroke_options(width: f32) -> StrokeOptions {
    StrokeOptions::tolerance(0.01).with_line_width(width)
}

fn tessellate(d: &PathDescriptor<Pt, u8, f32>) -> VertexBuffers<[f32; 2]> {
    let mut out: lyon_tessellation::VertexBuffers<[f32; 2], u32> =
        lyon_tessellation::VertexBuffers::new();
    let events = d.segments.iter().map(to_lyon);
    match d.draw_type {
        DrawType::Fill => {
            FillTessellator::new()
                .tessellate(
                    events,
                    &FillOptions::default(),
                    &mut BuffersBuilder::new(&mut out, |v: FillVertex| v.position().to_array()),
                )
                .unwrap();
        }
        DrawType::Stroke(style) => {
            StrokeTessellator::new()
                .tessellate(
                    events,
                    &stroke_options(style.line_width),
                    &mut BuffersBuilder::new(&mut out, |v: StrokeVertex| v.position().to_array()),
                )
                .unwrap();
        }
    }
    VertexBuffers { vertices: out.vertices, indices: out.indices }
}

#[test]
fn unclosed_line_strokes_to_whole_triangles() {
    let events = normalize(
        vec![Segment::MoveTo((0.0, 0.0)), Segment::LineTo((10.0, 0.0))],
        (0.0, 0.0),
    );
    assert!(matches!(events.last(), Some(PathEvent::End { close: false, .. })));
    let mut out: lyon_tessellation::VertexBuffers<[f32; 2], u32> =
        lyon_tessellation::VertexBuffers::new();
    StrokeTessellator::new()
        .tessellate(
            events.iter().map(to_lyon),
            &stroke_options(2.0),
            &mut BuffersBuilder::new(&mut out, |v: StrokeVertex| v.position().to_array()),
        )
        .unwrap();
    assert!(!out.vertices.is_empty());
    assert!(!out.indices.is_empty());
    assert_eq!(out.indices.len() % 3, 0);
    assert!(out.indices.iter().all(|&i| (i as usize) < out.vertices.len()));
}

fn document() -> Vec<PathNode<Pt, u8, f32>> {
    vec![
        PathNode {
            segments: vec![
                Segment::MoveTo((0.0, 0.0)),
                Segment::LineTo((10.0, 0.0)),
                Segment::LineTo((5.0, 8.0)),
                Segment::ClosePath,
            ],
            start: (0.0, 0.0),
            transform: 0,
            fill: Some(Fill { paint: Paint::Color { red: 255, green: 0, blue: 0 }, opacity: 255 }),
            stroke: None,
        },
        PathNode {
            segments: vec![
                Segment::MoveTo((20.0, 20.0)),
                Segment::LineTo((30.0, 20.0)),
                Segment::LineTo((30.0, 30.0)),
                Segment::LineTo((20.0, 30.0)),
                Segment::ClosePath,
            ],
            start: (0.0, 0.0),
            transform: 1,
            fill: None,
            stroke: Some(Stroke {
                paint: Paint::Color { red: 0, green: 0, blue: 255 },
                opacity: 255,
                width: 1.0,
                linecap: LineCap::Butt,
                linejoin: LineJoin::Miter,
            }),
        },
    ]
}

#[test]
fn triangle_then_square_merge_in_order() {
    let ds = build_descriptors(&document());
    assert_eq!(ds.len(), 2);
    let tri = tessellate(&ds[0]);
    let square = tessellate(&ds[1]);
    let n1 = tri.vertices.len();
    let (tri_v, tri_i) = (tri.vertices.clone(), tri.indices.clone());
    let (sq_v, sq_i) = (square.vertices.clone(), square.indices.clone());
    assert!(n1 > 0 && !sq_v.is_empty());

    let (merged, skipped) = merge_tessellated(vec![Ok::<_, ()>(tri), Ok(square)]);
    assert_eq!(skipped, 0);
    assert_eq!(merged.vertices[..n1], tri_v[..]);
    assert_eq!(merged.vertices[n1..], sq_v[..]);
    assert_eq!(merged.indices[..tri_i.len()], tri_i[..]);
    let shifted: Vec<u32> = sq_i.iter().map(|&i| i + n1 as u32).collect();
    assert_eq!(merged.indices[tri_i.len()..], shifted[..]);
    assert_eq!(merged.indices.len() % 3, 0);
    assert!(merged.indices.iter().all(|&i| (i as usize) < merged.vertices.len()));
}

#[test]
fn tessellating_twice_gives_the_same_structure() {
    let run = || {
        let ds = build_descriptors(&document());
        let results: Vec<Result<VertexBuffers<[f32; 2]>, ()>> =
            ds.iter().map(|d| Ok(tessellate(d))).collect();
        merge_tessellated(results).0
    };
    let a = run();
    let b = run();
    assert_eq!(a.vertices.len(), b.vertices.len());
    assert_eq!(a.indices, b.indices);
    for (p, q) in a.vertices.iter().zip(b.vertices.iter()) {
        assert!((p[0] - q[0]).abs() <= 0.01 && (p[1] - q[1]).abs() <= 0.01);
    }
}
