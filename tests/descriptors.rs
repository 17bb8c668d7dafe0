use svg_mesh::descriptor::{
    build_descriptors, convert_stroke, resolve_color, DrawType, Fill, LineCap, LineJoin, Paint,
    PathNode, Rgba8, Stroke, StrokeStyle,
};
use svg_mesh::origin::Origin;
use svg_mesh::path::{PathEvent, Segment};
use svg_mesh::Convert;

type Pt = (f32, f32);

const WHITE: Rgba8 = Rgba8 { red: 255, green: 255, blue: 255, alpha: 255 };

fn red() -> Paint {
    Paint::Color { red: 200, green: 10, blue: 20 }
}

fn triangle() -> Vec<Segment<Pt>> {
    vec![
        Segment::MoveTo((0.0, 0.0)),
        Segment::LineTo((10.0, 0.0)),
        Segment::LineTo((5.0, 8.0)),
        Segment::ClosePath,
    ]
}

fn stroke(paint: Paint) -> Stroke<f32> {
    Stroke {
        paint,
        opacity: 128,
        width: 2.0,
        linecap: LineCap::Round,
        linejoin: LineJoin::Bevel,
    }
}

#[test]
fn solid_paint_takes_opacity_as_alpha() {
    assert_eq!(
        resolve_color(red(), 77),
        Rgba8 { red: 200, green: 10, blue: 20, alpha: 77 }
    );
}

#[test]
fn gradients_and_patterns_fall_back_to_white() {
    assert_eq!(resolve_color(Paint::LinearGradient, 10), WHITE);
    assert_eq!(resolve_color(Paint::RadialGradient, 10), WHITE);
    assert_eq!(resolve_color(Paint::Pattern, 0), WHITE);
}

#[test]
fn stroke_converts_to_style_and_color() {
    let s = stroke(Paint::Pattern);
    let (color, draw) = convert_stroke(&s);
    assert_eq!(color, WHITE);
    assert_eq!(
        draw,
        DrawType::Stroke(StrokeStyle {
            line_width: 2.0,
            line_cap: LineCap::Round,
            line_join: LineJoin::Bevel,
        })
    );
    let (color2, draw2) = (&s).convert();
    assert_eq!(color2, color);
    assert_eq!(draw2, draw);
}

#[test]
fn fill_and_stroke_yield_two_descriptors_in_order() {
    let nodes = vec![
        PathNode {
            segments: triangle(),
            start: (0.0, 0.0),
            transform: 1u8,
            fill: Some(Fill { paint: red(), opacity: 255 }),
            stroke: None,
        },
        PathNode {
            segments: vec![Segment::MoveTo((1.0, 1.0))],
            start: (0.0, 0.0),
            transform: 2u8,
            fill: None,
            stroke: None,
        },
        PathNode {
            segments: triangle(),
            start: (0.0, 0.0),
            transform: 3u8,
            fill: Some(Fill { paint: Paint::RadialGradient, opacity: 255 }),
            stroke: Some(stroke(red())),
        },
    ];
    let ds = build_descriptors(&nodes);
    assert_eq!(ds.len(), 3);
    assert_eq!(ds[0].abs_transform, 1);
    assert_eq!(ds[0].draw_type, DrawType::Fill);
    assert_eq!(ds[0].color, Rgba8 { red: 200, green: 10, blue: 20, alpha: 255 });
    assert_eq!(ds[0].segments.len(), 4);
    assert_eq!(
        ds[0].segments[3],
        PathEvent::End { last: (0.0, 0.0), first: (0.0, 0.0), close: true }
    );
    assert_eq!(ds[1].abs_transform, 3);
    assert_eq!(ds[1].draw_type, DrawType::Fill);
    assert_eq!(ds[1].color, WHITE);
    assert_eq!(ds[2].abs_transform, 3);
    assert_eq!(ds[2].color, Rgba8 { red: 200, green: 10, blue: 20, alpha: 128 });
    assert!(matches!(ds[2].draw_type, DrawType::Stroke(_)));
    assert_eq!(ds[1].segments, ds[2].segments);
}

#[test]
fn unpainted_node_yields_no_descriptor() {
    let nodes = vec![PathNode::<Pt, u8, f32> {
        segments: triangle(),
        start: (0.0, 0.0),
        transform: 0,
        fill: None,
        stroke: None,
    }];
    assert!(build_descriptors(&nodes).is_empty());
}

#[test]
fn custom_origin_gives_its_own_fraction() {
    assert_eq!(Origin::Custom(0.25f32, 0.75).get_relative_offset(0.0), (0.25, 0.75));
    assert_eq!(Origin::Custom(1.0f32, 0.0).get_relative_offset(0.0), (1.0, 0.0));
}

#[test]
fn named_origins_give_no_per_vertex_offset() {
    for o in [
        Origin::BottomLeft,
        Origin::BottomRight,
        Origin::Center,
        Origin::TopLeft,
        Origin::TopRight,
    ] {
        assert_eq!(o.get_relative_offset(0.0f32), (0.0, 0.0));
    }
    assert_eq!(Origin::<f32>::default(), Origin::TopLeft);
}

#[test]
fn black_butt_miter_stroke_converts_exactly() {
    let s = Stroke {
        paint: Paint::Color { red: 0, green: 0, blue: 0 },
        opacity: 255,
        width: 2.0f32,
        linecap: LineCap::Butt,
        linejoin: LineJoin::Miter,
    };
    assert_eq!(
        (&s).convert(),
        (
            Rgba8 { red: 0, green: 0, blue: 0, alpha: 255 },
            DrawType::Stroke(StrokeStyle {
                line_width: 2.0,
                line_cap: LineCap::Butt,
                line_join: LineJoin::Miter,
            })
        )
    );
}
