use chartrs::canvas::{MockCanvas, MockError};
use chartrs::pixel::Color;

#[test]
fn mock_canvas_counts_calls() {
    let mut c = MockCanvas::new();
    assert_eq!(c.shown, 0);
    assert_eq!(c.cleared, 0);
    assert!(c.color == Color(1, 1, 1));
    c.clear();
    c.clear();
    c.show();
    c.set_color(Color(5, 6, 7));
    assert_eq!(c.cleared, 2);
    assert_eq!(c.shown, 1);
    assert!(c.color == Color(5, 6, 7));
}

#[test]
fn mock_canvas_fails_on_fail() {
    let mut c = MockCanvas::new();
    assert_eq!(c.write_text("pass"), Ok(()));
    assert_eq!(c.write_text("fail"), Err(MockError("write_text failed".to_string())));
}
