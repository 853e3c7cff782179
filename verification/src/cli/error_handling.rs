use vstd::prelude::*;

use crate::parasect::types::ParasectError;
use crate::ui::line::{Line, normalize, views_of};
use crate::ui::segment::{
    Attributes, Color, Segment, SegmentView, colored_view, plain_view, styled_view,
};

verus! {

/// A result whose error is the lines to show the user.
pub type CliResult<T> = Result<T, Vec<Line>>;

/// The views of several lines.
pub open spec fn lines_view(lines: Seq<Line>) -> Seq<Seq<SegmentView>> {
    lines.map_values(|l: Line| l@)
}

/// The line that tells the user why a search failed.
pub open spec fn cli_error_line(e: ParasectError) -> Seq<SegmentView> {
    match e {
        ParasectError::PayloadError(s) => normalize(
            seq![
                styled_view("Subprocess error"@, Color::Red, Attributes::Bold),
                plain_view(": "@),
                colored_view(s@, Color::Red),
            ],
        ),
        ParasectError::InconsistencyError(s) => normalize(
            seq![
                styled_view("Inconsistent results from subprocess"@, Color::Red, Attributes::Bold),
                plain_view(": "@),
                colored_view(s@, Color::Red),
            ],
        ),
    }
}

/// The lines that tell the user why a search failed.
pub fn parasect_error_to_cli_error(e: ParasectError) -> (lines: Vec<Line>)
    ensures
        lines_view(lines@) == seq![cli_error_line(e)],
{
    let (title, reason) = match &e {
        ParasectError::PayloadError(s) => (
            Segment::new(String::from_str("Subprocess error"), Color::Red, Attributes::Bold),
            s,
        ),
        ParasectError::InconsistencyError(s) => (
            Segment::new(
                String::from_str("Inconsistent results from subprocess"),
                Color::Red,
                Attributes::Bold,
            ),
            s,
        ),
    };
    let mut segments: Vec<Segment> = Vec::new();
    segments.push(title);
    segments.push(Segment::plain(": "));
    segments.push(Segment::colored(reason.as_str(), Color::Red));
    proof {
        assert(views_of(segments@) =~= seq![
            styled_view(
                if e is PayloadError { "Subprocess error"@ } else { "Inconsistent results from subprocess"@ },
                Color::Red,
                Attributes::Bold,
            ),
            plain_view(": "@),
            colored_view(reason@, Color::Red),
        ]);
    }
    let line = Line::from_segments(segments);
    let mut lines: Vec<Line> = Vec::new();
    lines.push(line);
    proof {
        assert(lines_view(lines@) =~= seq![cli_error_line(e)]);
    }
    lines
}

} // verus!
