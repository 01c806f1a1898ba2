use yin_yang_extractor::{AnalyzeError, Point, Rect, Size};

#[test]
fn point_and_size_from_pairs() {
    let p: Point<i32> = (3, 4).into();
    assert_eq!((p.x, p.y), (3, 4));
    let s: Size<u8> = (5, 6).into();
    assert_eq!((s.w, s.h), (5, 6));
}

#[test]
fn rect_from_two_corners() {
    let r: Rect<usize> = (Point { x: 1, y: 2 }, Point { x: 7, y: 9 }).into();
    assert_eq!((r.x0, r.y0, r.x1, r.y1), (1, 2, 7, 9));
}

#[test]
fn rect_from_origin_and_size() {
    let r = Rect::from_origin_size(Point { x: 10, y: 20 }, Size { w: 5, h: 7 });
    assert_eq!((r.x0, r.y0, r.x1, r.y1), (10, 20, 15, 27));
}

#[test]
fn error_from_string_keeps_the_message() {
    let e: AnalyzeError = String::from("bad image").into();
    assert_eq!(e.to_string(), "bad image");
    match e {
        AnalyzeError::Other(s) => assert_eq!(s, "bad image"),
    }
}

#[test]
fn error_from_str_keeps_the_message() {
    let e: AnalyzeError = "no cells".into();
    assert_eq!(e.to_string(), "no cells");
}
