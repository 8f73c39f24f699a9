//! Documents: geometries, drawings, previews and sessions.

use forza_painter::device::{Color, Coordinate};
use forza_painter::drawing::{geometry_text, Drawing, DrawnShape};
use forza_painter::float_bits::{
    double_to_i64, double_to_u64, position_in_range, scale_in_range, scale_tolerable,
    scale_vanishes,
};
use forza_painter::geometry::{decode_geometry, read_geometry, GeometryError};
use forza_painter::json::{parse_json, write_object, Json, Scalar};
use forza_painter::locator::Session;
use forza_painter::preview::{read_preview, Preview, PreviewEllipse, Reading};
use forza_painter::probe::{
    load_session, process_name, render_session, session_path, session_pid_is_live,
};
use forza_painter::procs::GameProc;
use forza_painter::backend::saved_session;

fn error_of(text: &str) -> GeometryError {
    read_geometry(text).unwrap().err().unwrap()
}

const HEAD: &str = "{\"type\":8,\"data\":[0,0,40,20],\"color\":[1,2,3,255]}";

fn with(entries: &str) -> String {
    format!("{{\"shapes\":[{HEAD}{entries}]}}")
}

#[test]
fn every_error_of_a_geometry() {
    assert_eq!(error_of("{"), GeometryError::NotJson);
    assert_eq!(error_of("{}"), GeometryError::NotGeometry);
    assert_eq!(error_of("{\"shapes\":3}"), GeometryError::NotGeometry);
    assert_eq!(error_of("{\"shapes\":[]}"), GeometryError::NoShapes);
    assert_eq!(error_of("{\"shapes\":[{\"type\":8}]}"), GeometryError::NotGeometry);
    assert_eq!(
        error_of("{\"shapes\":[{\"type\":0,\"data\":[0,0,1,1],\"color\":[1,1,1,1]}]}"),
        GeometryError::NotGeometry
    );
    assert_eq!(
        error_of("{\"shapes\":[{\"type\":8,\"data\":[0,0,1,1],\"color\":[1,1,1,0]}]}"),
        GeometryError::NoShapes
    );
    assert_eq!(error_of(&with(",{\"type\":2}")), GeometryError::Unsupported);
    assert_eq!(error_of(&with(",{\"type\":16}")), GeometryError::BadData);
    assert_eq!(
        error_of(&with(",{\"type\":16,\"data\":[1,2,3,4,5]}")),
        GeometryError::BadColor
    );
    assert_eq!(GeometryError::NotJson.text(), "Not a valid .json file");
    assert_eq!(
        GeometryError::Unsupported.text(),
        "Unsupported shape in geometry file (only ellipse=16 / rect=1)."
    );
}

#[test]
fn entries_that_are_cut_short_are_told_apart() {
    assert!(read_geometry(&with(",{\"type\":16,\"data\":[1],\"color\":[1,1,1,1]}")).is_none());
    assert!(read_geometry(&with(",{\"type\":16,\"data\":[1,2,3,4,5],\"color\":[1]}")).is_none());
    let text = with(",{\"type\":3},{\"type\":16,\"data\":[1],\"color\":[1]}");
    assert_eq!(error_of(&text), GeometryError::Unsupported);
}

#[test]
fn numbers_of_a_geometry_are_read_as_they_are() {
    let text = with(",{\"type\":16.9,\"data\":[1.5,-2,\"x\",1e3,90],\"color\":[300,-4,2.9,255]}");
    let g = read_geometry(&text).unwrap().unwrap();
    assert_eq!((g.image_w, g.image_h), (40, 20));
    assert_eq!(g.background, Color { r: 1, g: 2, b: 3, a: 255 });
    assert_eq!(g.shapes.len(), 2);
    assert_eq!(g.shapes[0].x, Coordinate::Whole(20));
    let s = g.shapes[1];
    assert_eq!(s.type_id, 16);
    assert_eq!(s.x, Coordinate::Bits(1.5f64.to_bits()));
    assert_eq!(s.y, Coordinate::Bits((-2f64).to_bits()));
    assert_eq!(s.w, Coordinate::Bits(0));
    assert_eq!(s.h, Coordinate::Bits(1000f64.to_bits()));
    assert_eq!(s.color, Color { r: 255, g: 0, b: 2, a: 255 });
    let doc = parse_json(&text).unwrap();
    assert_eq!(decode_geometry(&doc).unwrap().shapes, g.shapes);
}

fn drawing(a: u8) -> Drawing {
    Drawing {
        w: 640,
        h: 480,
        r: 12,
        g: 34,
        b: 56,
        a,
        shape_alpha: 200,
        shapes: vec![
            DrawnShape { rect: false, cx: 10, cy: -3, rx: 7, ry: 1, deg: 359, r: 1, g: 2, b: 3 },
            DrawnShape { rect: true, cx: 0, cy: 5, rx: 1, ry: 9, deg: 0, r: 250, g: 0, b: 9 },
        ],
    }
}

#[test]
fn a_drawing_is_written_in_one_line() {
    assert_eq!(
        geometry_text(&drawing(255)),
        "{\"shapes\":[{\"type\":8,\"data\":[0,0,640,480],\"color\":[12,34,56,255]},{\"type\":16,\"data\":[10,-3,7,1,359],\"color\":[1,2,3,200]},{\"type\":1,\"data\":[0,5,1,9,0],\"color\":[250,0,9,200]}]}"
    );
}

#[test]
fn a_drawing_is_read_back() {
    let g = read_geometry(&geometry_text(&drawing(255))).unwrap().unwrap();
    assert_eq!((g.image_w, g.image_h), (640, 480));
    assert_eq!(g.background, Color { r: 12, g: 34, b: 56, a: 255 });
    assert_eq!(g.shapes.len(), 3);
    assert_eq!(g.shapes[1].y, Coordinate::Bits((-3f64).to_bits()));
    assert_eq!(g.shapes[1].rot_deg, Coordinate::Bits(359f64.to_bits()));
    assert_eq!(g.shapes[2].type_id, 1);
    assert_eq!(g.shapes[2].color, Color { r: 250, g: 0, b: 9, a: 200 });
    let bare = read_geometry(&geometry_text(&drawing(0))).unwrap().unwrap();
    assert_eq!(bare.shapes.len(), 2);
    assert_eq!(bare.shapes[0].type_id, 16);
}

fn preview(text: &str) -> Preview {
    match read_preview(text) {
        Reading::Found(p) => p,
        _ => panic!("no preview"),
    }
}

#[test]
fn a_preview_shows_the_ellipses() {
    let p = preview(&geometry_text(&drawing(255)));
    assert_eq!((p.w, p.h, p.r, p.g, p.b), (640, 480, 12, 34, 56));
    assert_eq!(
        p.ellipses,
        vec![PreviewEllipse {
            cx: 10f64.to_bits(),
            cy: (-3f64).to_bits(),
            w: 7f64.to_bits(),
            h: 1f64.to_bits(),
            deg: 359f64.to_bits(),
            r: 1,
            g: 2,
            b: 3,
        }]
    );
    let p = preview(
        "{\"shapes\":[{\"data\":[0,0,3.9,2],\"color\":[-1,257,2.5]}]}",
    );
    assert_eq!((p.w, p.h, p.r, p.g, p.b), (3, 2, 255, 1, 0));
}

#[test]
fn previews_that_cannot_be_shown() {
    assert!(matches!(read_preview("x"), Reading::Nothing));
    assert!(matches!(read_preview("{\"shapes\":[]}"), Reading::Nothing));
    assert!(matches!(
        read_preview("{\"shapes\":[{\"data\":[0,0,0,2],\"color\":[1,1,1]}]}"),
        Reading::Nothing
    ));
    assert!(matches!(
        read_preview("{\"shapes\":[{\"data\":[0,0,8000,8001],\"color\":[1,1,1]}]}"),
        Reading::Nothing
    ));
    assert!(matches!(
        read_preview("{\"shapes\":[{\"data\":[0,0,8000,8000],\"color\":[1,1,1]}]}"),
        Reading::Found(_)
    ));
    assert!(matches!(
        read_preview("{\"shapes\":[{\"data\":[0,0],\"color\":[1,1,1]}]}"),
        Reading::CutShort
    ));
    assert!(matches!(
        read_preview("{\"shapes\":[{\"data\":[0,0,1,1],\"color\":[1]}]}"),
        Reading::CutShort
    ));
    let head = "{\"data\":[0,0,2,2],\"color\":[1,1,1]}";
    assert!(matches!(
        read_preview(&format!("{{\"shapes\":[{head},{{\"type\":16,\"data\":[1],\"color\":[]}}]}}")),
        Reading::CutShort
    ));
    assert!(matches!(
        read_preview(&format!("{{\"shapes\":[{head},{{\"type\":16,\"data\":[\"a\"]}}]}}")),
        Reading::Nothing
    ));
    assert!(matches!(
        read_preview(&format!("{{\"shapes\":[{head},{{\"type\":16.0}}]}}")),
        Reading::Found(_)
    ));
}

fn session() -> Session {
    Session {
        pid: 4321,
        layer_count: 1500,
        group_address: 0x7FFF_1234_5678,
        count_address: 0x1A2B,
        table_pointer_field: 7,
        table_address: u64::MAX,
        score: -12,
    }
}

#[test]
fn a_session_is_read_back() {
    let text = render_session(&session(), &process_name(4321));
    assert_eq!(load_session(&text), Some(session()));
    assert_eq!(
        text,
        "{\n  \"count_address\": 6699,\n  \"group_address\": 140733498807928,\n  \"layer_count\": 1500,\n  \"locator\": \"u16_group_layout\",\n  \"pid\": 4321,\n  \"process\": \"pid4321\",\n  \"score\": -12,\n  \"table_address\": 18446744073709551615,\n  \"table_pointer_field\": 7,\n  \"type\": \"fh6_session_location_v1\"\n}"
    );
    assert_eq!(session_path(), "fh6-session.json");
}

#[test]
fn members_of_a_session_can_be_missing() {
    assert_eq!(load_session("no"), None);
    assert_eq!(load_session("{\"pid\":1,\"layer_count\":2,\"count_address\":3}"), None);
    let s = load_session("{\"pid\":1,\"layer_count\":2,\"count_address\":3,\"table_address\":4}")
        .unwrap();
    assert_eq!((s.group_address, s.table_pointer_field, s.score), (0, 0, 0));
    assert_eq!(
        load_session("{\"pid\":1.5,\"layer_count\":2,\"count_address\":3,\"table_address\":4}"),
        None
    );
    let s = load_session(
        "{\"pid\":4294967297,\"layer_count\":2,\"count_address\":3,\"table_address\":4}",
    )
    .unwrap();
    assert_eq!(s.pid, 1);
}

fn game(pid: u32) -> GameProc {
    GameProc { pid, name: "x".to_string(), profile_key: "fh6".to_string() }
}

#[test]
fn a_saved_session_counts_while_its_process_lives() {
    let text = render_session(&session(), "p");
    let l = saved_session(Some(&text), &vec![game(1), game(4321)]).unwrap();
    assert_eq!((l.pid, l.count_address), (4321, 0x1A2B));
    assert_eq!((l.table_address, l.layer_count), (u64::MAX, 1500));
    assert_eq!(saved_session(Some(&text), &vec![game(1)]), None);
    assert_eq!(saved_session(None, &vec![game(4321)]), None);
    assert!(session_pid_is_live(&session(), &vec![game(4321)]));
    assert!(!session_pid_is_live(&session(), &vec![]));
}

#[test]
fn objects_are_written_and_parsed() {
    let text = write_object(vec![
        ("b".to_string(), Scalar::Text("q\"\n".to_string())),
        ("a".to_string(), Scalar::Signed(i64::MIN)),
        ("c".to_string(), Scalar::Unsigned(u64::MAX)),
    ]);
    let doc = parse_json(&text).unwrap();
    assert_eq!(doc.member_as_signed("a"), Some(i64::MIN));
    assert_eq!(doc.member_as_unsigned("a"), None);
    assert_eq!(doc.member_as_unsigned("c"), Some(u64::MAX));
    assert_eq!(doc.member_as_signed("c"), None);
    assert_eq!(*doc.get("b").unwrap(), Json::Text("q\"\n".to_string()));
    assert_eq!(parse_json("[1,"), None);
    assert_eq!(
        parse_json("[true,null]"),
        Some(Json::Array(vec![Json::Bool(true), Json::Null]))
    );
}

#[test]
fn single_precision_ranges() {
    let singles = [
        0.0f32, -0.0, 1.0, -1.0, 9999.999, 10000.0, -10000.0, -10000.001, 10000.001, 0.0001,
        0.000099999, 0.00010000001, 1e-40, f32::MAX, f32::MIN, f32::INFINITY, f32::NEG_INFINITY,
        f32::NAN, f32::MIN_POSITIVE,
    ];
    for v in singles {
        let b = v.to_bits();
        assert_eq!(position_in_range(b), (-10000.0..10000.0).contains(&v), "{v}");
        assert_eq!(scale_in_range(b), v.abs() < 10000.0, "{v}");
        assert_eq!(scale_tolerable(b), !(v.abs() >= 10000.0), "{v}");
        assert_eq!(scale_vanishes(b), v.abs() < 0.0001, "{v}");
    }
    let mut b: u32 = 0;
    while b < u32::MAX - 9_999_991 {
        let v = f32::from_bits(b);
        assert_eq!(position_in_range(b), (-10000.0..10000.0).contains(&v));
        assert_eq!(scale_vanishes(b), v.abs() < 0.0001);
        assert_eq!(scale_tolerable(b), !(v.abs() >= 10000.0));
        b += 9_999_991;
    }
}

#[test]
fn double_precision_without_the_fraction() {
    let doubles = [
        0.0f64, -0.0, 0.5, -0.5, 1.0, 1.999, -1.999, 255.5, 1e15, -1e15, 9.2e18, 9.3e18, -9.3e18,
        1.8e19, 1.9e19, 1e300, -1e300, f64::INFINITY, f64::NEG_INFINITY, f64::NAN, 5e-324,
        4503599627370497.5, 9007199254740993.0,
    ];
    for v in doubles {
        assert_eq!(double_to_i64(v.to_bits()), v as i64, "{v}");
        assert_eq!(double_to_u64(v.to_bits()), v as u64, "{v}");
    }
}

#[test]
fn a_drawn_shape_has_half_axes_of_at_least_one() {
    let s = DrawnShape::new(true, -4, 5, 0, i32::MIN, 360, 7, 8, 9);
    assert_eq!(
        (s.rect, s.cx, s.cy, s.rx, s.ry, s.deg, s.r, s.g, s.b),
        (true, -4, 5, 1, 1, 360, 7, 8, 9)
    );
    let s = DrawnShape::new(false, 0, 0, 2, 3, 0, 0, 0, 0);
    assert_eq!((s.rx, s.ry, s.deg), (2, 3, 0));
}
