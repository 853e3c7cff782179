use vstd::prelude::*;

use crate::util::text::push_str;

verus! {

/// A color that a piece of text can be shown in.
#[derive(Clone, Copy, Debug, PartialEq, Eq, Structural, Hash)]
pub enum Color {
    Red,
    Green,
    Blue,
}

/// How a piece of text is emphasised.
#[derive(Clone, Copy, Debug, PartialEq, Eq, Structural, Hash)]
pub enum Attributes {
    Normal,
    Bold,
}

/// What a segment is: its text and its style.
pub struct SegmentView {
    pub text: Seq<char>,
    pub color: Option<Color>,
    pub attributes: Attributes,
}

/// A piece of text with one color and one set of attributes.
#[derive(Debug, PartialEq, Eq, Hash)]
pub struct Segment {
    pub text: String,
    pub color: Option<Color>,
    pub attributes: Attributes,
}

impl View for Segment {
    type V = SegmentView;

    open spec fn view(&self) -> SegmentView {
        SegmentView { text: self.text@, color: self.color, attributes: self.attributes }
    }
}

/// A segment of `text` in the default color, without emphasis.
pub open spec fn plain_view(text: Seq<char>) -> SegmentView {
    SegmentView { text, color: None, attributes: Attributes::Normal }
}

/// A segment of `text` in `color`, without emphasis.
pub open spec fn colored_view(text: Seq<char>, color: Color) -> SegmentView {
    SegmentView { text, color: Some(color), attributes: Attributes::Normal }
}

/// A segment of `text` in `color` with `attributes`.
pub open spec fn styled_view(text: Seq<char>, color: Color, attributes: Attributes) -> SegmentView {
    SegmentView { text, color: Some(color), attributes }
}

/// `true` if two segments are shown the same way.
pub open spec fn same_style(a: SegmentView, b: SegmentView) -> bool {
    a.color == b.color && a.attributes == b.attributes
}

impl Segment {
    /// A segment of `text` in `color` with `attributes`.
    pub fn new(text: String, color: Color, attributes: Attributes) -> (s: Segment)
        ensures
            s@ == styled_view(text@, color, attributes),
    {
        Segment { text, color: Some(color), attributes }
    }

    /// A segment of `text` in `color`, without emphasis.
    pub fn colored(text: &str, color: Color) -> (s: Segment)
        ensures
            s@ == colored_view(text@, color),
    {
        Segment { text: text.to_owned(), color: Some(color), attributes: Attributes::Normal }
    }

    /// A segment of `text` in the default color, without emphasis.
    pub fn plain(text: &str) -> (s: Segment)
        ensures
            s@ == plain_view(text@),
    {
        Segment { text: text.to_owned(), color: None, attributes: Attributes::Normal }
    }

    /// A copy of the segment.
    pub fn duplicate(&self) -> (s: Segment)
        ensures
            s@ == self@,
    {
        Segment { text: self.text.clone(), color: self.color, attributes: self.attributes }
    }

    /// `true` if the two segments are shown the same way.
    pub fn has_style_of(&self, other: &Segment) -> (b: bool)
        ensures
            b == same_style(self@, other@),
    {
        let same_color = match (self.color, other.color) {
            (None, None) => true,
            (Some(a), Some(b)) => a == b,
            _ => false,
        };
        same_color && self.attributes == other.attributes
    }

    /// The segment with `more` appended to its text.
    pub fn extended(self, more: &str) -> (s: Segment)
        ensures
            s@ == (SegmentView { text: self@.text + more@, ..self@ }),
    {
        let mut text = self.text;
        push_str(&mut text, more);
        Segment { text, color: self.color, attributes: self.attributes }
    }
}

} // verus!
