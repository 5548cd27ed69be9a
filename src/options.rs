//! Options of a data series: how it is drawn and in which colour.
use vstd::prelude::*;
use crate::pixel::{Color, random_byte, random_below};

verus! {

/// Whether a series is drawn as bars, a line or scattered points.
#[derive(Clone, Copy, PartialEq, Eq, Structural, Debug)]
pub enum PlotStyle {
    Bar,
    Line,
    Scatter,
}

/// Whether a marker is drawn at each point, and which.
#[derive(Clone, Copy, PartialEq, Eq, Structural, Debug)]
pub enum PointStyle {
    Nothing,
    Cross,
}

/// Options of one data series.
#[derive(Clone, Debug)]
pub struct DataSetOptions {
    pub plot_style: PlotStyle,
    pub point_style: PointStyle,
    pub color: Color,
    /// Whether the colour is drawn at random (from `colors` when given).
    pub random_color: bool,
    pub colors: Option<Vec<Color>>,
}

/// The colour choices as a sequence, if any.
pub open spec fn choices(c: Option<Vec<Color>>) -> Option<Seq<Color>> {
    match c {
        Some(v) => Some(v@),
        None => None,
    }
}

fn same_colors(a: &Vec<Color>, b: &Vec<Color>) -> (r: bool)
    ensures
        r == (a@ == b@),
{
    if a.len() != b.len() {
        return false;
    }
    let mut i: usize = 0;
    while i < a.len()
        invariant
            a@.len() == b@.len(),
            0 <= i <= a@.len(),
            forall|t: int| 0 <= t < i ==> a@[t] == b@[t],
        decreases a@.len() - i,
    {
        if a[i] != b[i] {
            return false;
        }
        i = i + 1;
    }
    assert(a@ =~= b@);
    true
}

impl PartialEq for DataSetOptions {
    fn eq(&self, o: &DataSetOptions) -> (r: bool) {
        let same_choices = match (&self.colors, &o.colors) {
            (Some(a), Some(b)) => same_colors(a, b),
            (None, None) => true,
            _ => false,
        };
        self.plot_style == o.plot_style && self.point_style == o.point_style && self.color == o.color
            && self.random_color == o.random_color && same_choices
    }
}

impl vstd::std_specs::cmp::PartialEqSpecImpl for DataSetOptions {
    open spec fn obeys_eq_spec() -> bool {
        true
    }

    open spec fn eq_spec(&self, o: &DataSetOptions) -> bool {
        &&& self.plot_style == o.plot_style
        &&& self.point_style == o.point_style
        &&& self.color == o.color
        &&& self.random_color == o.random_color
        &&& choices(self.colors) == choices(o.colors)
    }
}

impl Default for DataSetOptions {
    /// The same as `DataSetOptions::new()`.
    fn default() -> (r: DataSetOptions)
        ensures
            r.plot_style == PlotStyle::Line,
            r.point_style == PointStyle::Nothing,
            r.color == Color(0, 0, 0),
            !r.random_color,
            r.colors is None,
    {
        DataSetOptions::new()
    }
}

impl DataSetOptions {
    /// The defaults: a black line without markers, colour not random.
    pub fn new() -> (r: DataSetOptions)
        ensures
            r.plot_style == PlotStyle::Line,
            r.point_style == PointStyle::Nothing,
            r.color == Color(0, 0, 0),
            !r.random_color,
            r.colors is None,
    {
        DataSetOptions {
            plot_style: PlotStyle::Line,
            point_style: PointStyle::Nothing,
            color: Color(0, 0, 0),
            random_color: false,
            colors: None,
        }
    }

    pub fn plot_style(self, plot_style: PlotStyle) -> (r: DataSetOptions)
        ensures
            r == (DataSetOptions { plot_style, ..self }),
    {
        DataSetOptions { plot_style, ..self }
    }

    pub fn point_style(self, point_style: PointStyle) -> (r: DataSetOptions)
        ensures
            r == (DataSetOptions { point_style, ..self }),
    {
        DataSetOptions { point_style, ..self }
    }

    pub fn color(self, color: Color) -> (r: DataSetOptions)
        ensures
            r == (DataSetOptions { color, ..self }),
    {
        DataSetOptions { color, ..self }
    }

    pub fn random_color(self, b: bool) -> (r: DataSetOptions)
        ensures
            r == (DataSetOptions { random_color: b, ..self }),
    {
        DataSetOptions { random_color: b, ..self }
    }

    pub fn colors(self, colors: Option<Vec<Color>>) -> (r: DataSetOptions)
        ensures
            r == (DataSetOptions { colors, ..self }),
    {
        DataSetOptions { colors, ..self }
    }

    /// The colour for the draws `pick` (an index below the number of choices, used
    /// when choices are given) and `fresh` (used when none are given): the set colour
    /// when the colour is not random, else the chosen one, black among no choices.
    pub fn color_from(&self, pick: usize, fresh: Color) -> (r: Color)
        requires
            self.random_color ==> match self.colors {
                Some(v) => v@.len() > 0 ==> pick < v@.len(),
                None => true,
            },
        ensures
            !self.random_color ==> r == self.color,
            self.random_color ==> match self.colors {
                Some(v) => if v@.len() > 0 { r == v@[pick as int] } else { r == Color(0, 0, 0) },
                None => r == fresh,
            },
    {
        if !self.random_color {
            self.color
        } else {
            match &self.colors {
                Some(v) => if v.len() > 0 { v[pick] } else { Color(0, 0, 0) },
                None => fresh,
            }
        }
    }

    /// The colour to draw the series in: the set colour when it is not random,
    /// else one of the choices at random (black among no choices), else a random colour.
    pub fn choose_color(&self) -> (r: Color)
        ensures
            !self.random_color ==> r == self.color,
            self.random_color ==> match self.colors {
                Some(v) => if v@.len() > 0 { v@.contains(r) } else { r == Color(0, 0, 0) },
                None => true,
            },
    {
        if !self.random_color {
            return self.color;
        }
        let pick = match &self.colors {
            Some(v) => if v.len() > 0 { random_below(v.len()) } else { 0 },
            None => 0,
        };
        let fresh = Color(random_byte(), random_byte(), random_byte());
        let r = self.color_from(pick, fresh);
        assert(self.colors matches Some(v) ==> (v@.len() > 0 ==> v@[pick as int] == r));
        r
    }
}

} // verus!
