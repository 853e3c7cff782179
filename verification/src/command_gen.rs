use vstd::prelude::*;

use crate::cli::error_handling::{CliResult, lines_view};
use crate::cli::utils::{command_line, command_line_segments};
use crate::ui::line::{Line, normalize, views_of};
use crate::ui::segment::{Attributes, Color, Segment, SegmentView, plain_view, styled_view};
use crate::util::text::{
    contains_spec, decimal, decimal_spec, replace_spec, str_contains, str_replace, strings_view,
};

verus! {

/// `true` if some word of `args` contains `ss`.
pub open spec fn any_contains(args: Seq<Seq<char>>, ss: Seq<char>) -> bool {
    exists|i: int| 0 <= i < args.len() && #[trigger] contains_spec(args[i], ss)
}

/// The lines that say why a command and substitution string are refused, or `None` when
/// they are accepted.
pub open spec fn command_gen_errors(args: Seq<Seq<char>>, ss: Seq<char>) -> Option<
    Seq<Seq<SegmentView>>,
> {
    if ss.len() == 0 {
        Some(seq![normalize(seq![plain_view("The substitution string cannot be empty."@)])])
    } else if args.len() == 0 {
        Some(seq![normalize(seq![plain_view("The command cannot be empty."@)])])
    } else if !any_contains(args, ss) {
        Some(
            seq![
                normalize(
                    seq![
                        plain_view("The given command does not contain the substitution string "@),
                        styled_view(ss, Color::Blue, Attributes::Bold),
                    ],
                ),
                normalize(seq![plain_view("Command: "@)] + command_line_segments(args, ss)),
            ],
        )
    } else {
        None
    }
}

/// Makes the command to run for each point, by putting the point's number in place of the
/// substitution string.
#[derive(Debug)]
pub struct CommandGen {
    args: Vec<String>,
    substitution_string: String,
}

impl CommandGen {
    /// The words of the command.
    pub closed spec fn args_view(&self) -> Seq<Seq<char>> {
        strings_view(self.args@)
    }

    /// The text that is replaced by a point's number.
    pub closed spec fn substitution_view(&self) -> Seq<char> {
        self.substitution_string@
    }

    /// A generator for `args`, refused with lines that say why when the substitution string
    /// is empty, the command is empty, or no word of the command contains the substitution
    /// string.
    pub fn new(args: Vec<String>, substitution_string: String) -> (r: CliResult<Self>)
        ensures
            match r {
                Ok(g) => command_gen_errors(strings_view(args@), substitution_string@) is None
                    && g.args_view() == strings_view(args@) && g.substitution_view()
                    == substitution_string@,
                Err(lines) => command_gen_errors(strings_view(args@), substitution_string@)
                    == Some(lines_view(lines@)),
            },
    {
        let ghost words = strings_view(args@);
        let ghost ss = substitution_string@;
        if substitution_string.as_str().is_empty() {
            let mut segs: Vec<Segment> = Vec::new();
            segs.push(Segment::plain("The substitution string cannot be empty."));
            proof {
                assert(views_of(segs@) =~= seq![
                    plain_view("The substitution string cannot be empty."@),
                ]);
            }
            let mut lines: Vec<Line> = Vec::new();
            lines.push(Line::from_segments(segs));
            proof {
                assert(lines_view(lines@) =~= seq![
                    normalize(seq![plain_view("The substitution string cannot be empty."@)]),
                ]);
            }
            return Err(lines);
        }
        if args.len() == 0 {
            let mut segs: Vec<Segment> = Vec::new();
            segs.push(Segment::plain("The command cannot be empty."));
            proof {
                assert(views_of(segs@) =~= seq![plain_view("The command cannot be empty."@)]);
            }
            let mut lines: Vec<Line> = Vec::new();
            lines.push(Line::from_segments(segs));
            proof {
                assert(lines_view(lines@) =~= seq![
                    normalize(seq![plain_view("The command cannot be empty."@)]),
                ]);
            }
            return Err(lines);
        }
        let mut found = false;
        let mut i: usize = 0;
        while i < args.len()
            invariant
                0 <= i <= args@.len(),
                words == strings_view(args@),
                ss == substitution_string@,
                found <==> exists|k: int| 0 <= k < i && #[trigger] contains_spec(words[k], ss),
            decreases args@.len() - i,
        {
            let here = str_contains(args[i].as_str(), substitution_string.as_str());
            proof {
                assert(words[i as int] == args@[i as int]@);
            }
            found = found || here;
            i = i + 1;
        }
        if !found {
            let mut first: Vec<Segment> = Vec::new();
            first.push(Segment::plain("The given command does not contain the substitution string "));
            first.push(Segment::new(substitution_string.clone(), Color::Blue, Attributes::Bold));
            proof {
                assert(views_of(first@) =~= seq![
                    plain_view("The given command does not contain the substitution string "@),
                    styled_view(ss, Color::Blue, Attributes::Bold),
                ]);
            }
            let mut second: Vec<Segment> = Vec::new();
            second.push(Segment::plain("Command: "));
            let ghost second_view = seq![plain_view("Command: "@)];
            proof {
                assert(views_of(second@) =~= second_view);
            }
            let mut parts: Vec<Line> = Vec::new();
            parts.push(Line::from_segments(second));
            parts.push(command_line(&args, substitution_string.as_str()));
            proof {
                assert(parts@.map_values(|x: Line| x@) =~= seq![
                    normalize(second_view),
                    normalize(command_line_segments(words, ss)),
                ]);
                crate::ui::line::law_join_two(second_view, command_line_segments(words, ss));
            }
            let mut lines: Vec<Line> = Vec::new();
            lines.push(Line::from_segments(first));
            lines.push(Line::join(parts));
            proof {
                assert(lines_view(lines@) =~= command_gen_errors(words, ss).unwrap());
            }
            return Err(lines);
        }
        Ok(CommandGen { args, substitution_string })
    }

    /// The command for `num`: each word with every occurrence of the substitution string
    /// replaced by the decimal text of `num`.
    pub fn command_for_number(&self, num: i64) -> (cmd: Vec<String>)
        ensures
            cmd@.len() == self.args_view().len(),
            forall|k: int|
                0 <= k < cmd@.len() ==> #[trigger] cmd@[k]@ == replace_spec(
                    self.args_view()[k],
                    self.substitution_view(),
                    decimal_spec(num as int),
                ),
    {
        let num_string = decimal(num);
        let mut cmd: Vec<String> = Vec::new();
        let mut i: usize = 0;
        while i < self.args.len()
            invariant
                0 <= i <= self.args@.len(),
                num_string@ == decimal_spec(num as int),
                cmd@.len() == i,
                forall|k: int|
                    0 <= k < i ==> #[trigger] cmd@[k]@ == replace_spec(
                        self.args@[k]@,
                        self.substitution_string@,
                        num_string@,
                    ),
            decreases self.args@.len() - i,
        {
            let word = str_replace(
                self.args[i].as_str(),
                self.substitution_string.as_str(),
                num_string.as_str(),
            );
            cmd.push(word);
            i = i + 1;
        }
        cmd
    }
}

} // verus!
