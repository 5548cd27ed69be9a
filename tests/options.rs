use chartrs::options::{DataSetOptions, PlotStyle, PointStyle};
use chartrs::pixel::Color;

#[test]
fn defaults() {
    let o = DataSetOptions::new();
    assert!(o.plot_style == PlotStyle::Line);
    assert!(o.point_style == PointStyle::Nothing);
    assert!(o.color == Color(0, 0, 0));
    assert!(!o.random_color);
    assert!(o.colors.is_none());
}

#[test]
fn builders_set_one_field() {
    let o = DataSetOptions::new()
        .plot_style(PlotStyle::Scatter)
        .point_style(PointStyle::Cross)
        .color(Color(255, 0, 0))
        .random_color(true)
        .colors(Some(vec![Color(1, 2, 3)]));
    assert!(o.plot_style == PlotStyle::Scatter);
    assert!(o.point_style == PointStyle::Cross);
    assert!(o.color == Color(255, 0, 0));
    assert!(o.random_color);
    assert_eq!(o.colors, Some(vec![Color(1, 2, 3)]));
}

#[test]
fn fixed_colour_is_kept() {
    let o = DataSetOptions::new().color(Color(9, 8, 7));
    assert_eq!(o.choose_color(), Color(9, 8, 7));
    assert_eq!(o.color_from(0, Color(1, 1, 1)), Color(9, 8, 7));
}

#[test]
fn random_colour_comes_from_the_choices() {
    let choices = vec![Color(1, 2, 3), Color(4, 5, 6), Color(7, 8, 9)];
    let o = DataSetOptions::new().random_color(true).colors(Some(choices.clone()));
    for _ in 0..50 {
        assert!(choices.contains(&o.choose_color()));
    }
    assert_eq!(o.color_from(2, Color(0, 0, 0)), Color(7, 8, 9));
}

#[test]
fn random_colour_among_no_choices_is_black() {
    let o = DataSetOptions::new().random_color(true).colors(Some(vec![]));
    assert_eq!(o.choose_color(), Color(0, 0, 0));
}

#[test]
fn random_colour_without_choices_is_drawn() {
    let o = DataSetOptions::new().random_color(true);
    assert_eq!(o.color_from(0, Color(10, 20, 30)), Color(10, 20, 30));
    let mut seen_other = false;
    for _ in 0..20 {
        if o.choose_color() != Color(0, 0, 0) {
            seen_other = true;
        }
    }
    assert!(seen_other);
    let _ = Color::rand();
    assert_eq!(Color::rgb(1, 2, 3), Color(1, 2, 3));
}

#[test]
fn default_equals_new_and_equality_compares_fields() {
    let d: DataSetOptions = Default::default();
    assert!(d == DataSetOptions::new());
    assert!(d.clone().colors(Some(vec![Color(1, 2, 3)])) != d);
    assert!(d.clone().colors(Some(vec![Color(1, 2, 3)])) == d.clone().colors(Some(vec![Color(1, 2, 3)])));
    assert!(d.clone().color(Color(9, 9, 9)) != d);
}
