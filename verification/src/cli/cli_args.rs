use vstd::prelude::*;

use crate::cli::error_handling::{CliResult, lines_view};
use crate::command_gen::{CommandGen, command_gen_errors};
use crate::range::numeric_range::NumericRange;
use crate::ui::line::{Line, normalize, views_of};
use crate::ui::segment::{Segment, SegmentView, plain_view};
use crate::util::text::{decimal, decimal_spec, strings_view};

verus! {

/// What the user asked for on the command line.
pub struct CliArgs {
    /// The command to search with, with its arguments.
    pub command: Vec<String>,
    /// The highest number to search, inclusive.
    pub high: i64,
    /// The lowest number to search, inclusive.
    pub low: i64,
    /// The most commands to run at once; the number of CPUs when not given.
    pub max_parallelism: Option<usize>,
    /// `true` to show plain output in place of the terminal interface.
    pub no_tty: bool,
    /// The text in the command that is replaced by the number being tried.
    pub substitution_string: String,
}

/// The number of CPUs that this process can use.
///
/// Calls `num_cpus::get`, whose documentation says that it always returns at least 1; the
/// contract claims that and nothing more, since the number depends on the machine.
#[verifier::external_body]
fn available_cpus() -> (n: usize)
    ensures
        n >= 1,
{
    num_cpus::get()
}

/// The line that refuses a range whose low end is not below its high end.
pub open spec fn range_error(low: int, high: int) -> Seq<Seq<SegmentView>> {
    seq![
        normalize(
            seq![
                plain_view("Low must be strictly less than high (low was "@),
                plain_view(decimal_spec(low)),
                plain_view(", which is >= the high of "@),
                plain_view(decimal_spec(high)),
                plain_view(")"@),
            ],
        ),
    ]
}

/// The line that refuses a parallelism of zero.
pub open spec fn parallelism_error() -> Seq<Seq<SegmentView>> {
    seq![
        normalize(
            seq![
                plain_view(
                    "The max parallelism cannot be 0. Specify a value >= 1 for --max-parallelism"@,
                ),
            ],
        ),
    ]
}

/// The parallelism to use: the one requested, else `cpus`; refused when it is zero.
pub fn max_parallelism_from(requested: Option<usize>, cpus: usize) -> (r: CliResult<usize>)
    ensures
        ({
            let n = match requested {
                Some(k) => k,
                None => cpus,
            };
            &&& n > 0 ==> (r matches Ok(k) && k == n)
            &&& n == 0 ==> (r matches Err(lines) && lines_view(lines@) == parallelism_error())
        }),
{
    let n = match requested {
        Some(k) => k,
        None => cpus,
    };
    if n == 0 {
        let mut segs: Vec<Segment> = Vec::new();
        segs.push(
            Segment::plain(
                "The max parallelism cannot be 0. Specify a value >= 1 for --max-parallelism",
            ),
        );
        proof {
            assert(views_of(segs@) =~= seq![
                plain_view(
                    "The max parallelism cannot be 0. Specify a value >= 1 for --max-parallelism"@,
                ),
            ]);
        }
        let mut lines: Vec<Line> = Vec::new();
        lines.push(Line::from_segments(segs));
        proof {
            assert(lines_view(lines@) =~= parallelism_error());
        }
        Err(lines)
    } else {
        Ok(n)
    }
}

impl CliArgs {
    /// The command generator for the command and substitution string, refused as
    /// `CommandGen::new` refuses them.
    pub fn command_gen(&self) -> (r: CliResult<CommandGen>)
        ensures
            match r {
                Ok(g) => command_gen_errors(strings_view(self.command@), self.substitution_string@)
                    is None && g.args_view() == strings_view(self.command@)
                    && g.substitution_view() == self.substitution_string@,
                Err(lines) => command_gen_errors(
                    strings_view(self.command@),
                    self.substitution_string@,
                ) == Some(lines_view(lines@)),
            },
    {
        let mut command: Vec<String> = Vec::new();
        let mut i: usize = 0;
        while i < self.command.len()
            invariant
                0 <= i <= self.command@.len(),
                command@.len() == i,
                forall|k: int| 0 <= k < i ==> #[trigger] command@[k]@ == self.command@[k]@,
            decreases self.command@.len() - i,
        {
            command.push(self.command[i].clone());
            i = i + 1;
        }
        proof {
            assert(strings_view(command@) =~= strings_view(self.command@));
        }
        CommandGen::new(command, self.substitution_string.clone())
    }

    /// The range to search, `low..=high`; refused when `low` is not below `high`.
    pub fn range(&self) -> (r: CliResult<NumericRange>)
        ensures
            self.low < self.high ==> (r matches Ok(range) && range == NumericRange::from_bounds(
                self.low as int,
                self.high as int,
            )),
            self.low >= self.high ==> (r matches Err(lines) && lines_view(lines@) == range_error(
                self.low as int,
                self.high as int,
            )),
    {
        if self.low >= self.high {
            let mut segs: Vec<Segment> = Vec::new();
            segs.push(Segment::plain("Low must be strictly less than high (low was "));
            let low_text = decimal(self.low);
            segs.push(Segment::plain(low_text.as_str()));
            segs.push(Segment::plain(", which is >= the high of "));
            let high_text = decimal(self.high);
            segs.push(Segment::plain(high_text.as_str()));
            segs.push(Segment::plain(")"));
            proof {
                assert(views_of(segs@) =~= seq![
                    plain_view("Low must be strictly less than high (low was "@),
                    plain_view(decimal_spec(self.low as int)),
                    plain_view(", which is >= the high of "@),
                    plain_view(decimal_spec(self.high as int)),
                    plain_view(")"@),
                ]);
            }
            let mut lines: Vec<Line> = Vec::new();
            lines.push(Line::from_segments(segs));
            proof {
                assert(lines_view(lines@) =~= range_error(self.low as int, self.high as int));
            }
            return Err(lines);
        }
        Ok(NumericRange::from_endpoints_inclusive(self.low, self.high))
    }

    /// The parallelism to use: the one given, else the number of CPUs; refused when zero.
    pub fn max_parallelism(&self) -> (r: CliResult<usize>)
        ensures
            match self.max_parallelism {
                Some(n) => (n > 0 ==> (r matches Ok(k) && k == n)) && (n == 0 ==> (r matches Err(
                    lines,
                ) && lines_view(lines@) == parallelism_error())),
                None => r matches Ok(k) && k >= 1,
            },
    {
        let cpus = available_cpus();
        max_parallelism_from(self.max_parallelism, cpus)
    }
}

} // verus!
