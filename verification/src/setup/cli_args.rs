use vstd::prelude::*;

use crate::range::numeric_range::NumericRange;
use crate::ui::line::{Line, normalize, views_of};
use crate::ui::segment::{Segment, SegmentView, plain_view};
use crate::util::text::{decimal, decimal_spec};

verus! {

/// What the user asked for on the command line, with the choice of which exit status is bad.
pub struct CliArgs {
    /// `true` if a command that exits with 0 is bad, and one that exits otherwise is good.
    pub bad_is_zero: bool,
    /// The command to search with, with its arguments.
    pub command: Vec<String>,
    /// The highest number to search, inclusive.
    pub high: i64,
    /// The lowest number to search, inclusive.
    pub low: i64,
    /// The most commands to run at once; the number of CPUs when not given.
    pub max_parallelism: Option<usize>,
    /// `true` to show plain output in place of the terminal interface.
    pub no_tty: bool,
    /// The text in the command that is replaced by the number being tried.
    pub substitution_string: String,
}

/// The line that refuses a range whose low end is not below its high end.
pub open spec fn range_error_line(low: int, high: int) -> Seq<SegmentView> {
    normalize(
        seq![
            plain_view("Low must be strictly less than high (low was "@),
            plain_view(decimal_spec(low)),
            plain_view(", which is >= the high of "@),
            plain_view(decimal_spec(high)),
            plain_view(")"@),
        ],
    )
}

impl CliArgs {
    /// The range to search, `low..=high`; refused when `low` is not below `high`.
    pub fn parasect_range(&self) -> (r: Result<NumericRange, Line>)
        ensures
            self.low < self.high ==> (r matches Ok(range) && range == NumericRange::from_bounds(
                self.low as int,
                self.high as int,
            )),
            self.low >= self.high ==> (r matches Err(line) && line@ == range_error_line(
                self.low as int,
                self.high as int,
            )),
    {
        if self.low >= self.high {
            let mut segs: Vec<Segment> = Vec::new();
            segs.push(Segment::plain("Low must be strictly less than high (low was "));
            let low_text = decimal(self.low);
            segs.push(Segment::plain(low_text.as_str()));
            segs.push(Segment::plain(", which is >= the high of "));
            let high_text = decimal(self.high);
            segs.push(Segment::plain(high_text.as_str()));
            segs.push(Segment::plain(")"));
            proof {
                assert(views_of(segs@) =~= seq![
                    plain_view("Low must be strictly less than high (low was "@),
                    plain_view(decimal_spec(self.low as int)),
                    plain_view(", which is >= the high of "@),
                    plain_view(decimal_spec(self.high as int)),
                    plain_view(")"@),
                ]);
            }
            return Err(Line::from_segments(segs));
        }
        Ok(NumericRange::from_endpoints_inclusive(self.low, self.high))
    }
}

} // verus!
