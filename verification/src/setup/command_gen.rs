use vstd::prelude::*;

use crate::command_gen::any_contains;
use crate::ui::line::{Line, normalize, views_of};
use crate::ui::segment::{Attributes, Color, Segment, SegmentView, plain_view, styled_view};
use crate::util::text::{
    contains_spec, decimal, decimal_spec, replace_spec, str_contains, str_replace, strings_view,
};

verus! {

/// The line that refuses a command in which the substitution string does not occur.
pub open spec fn missing_substitution_line(ss: Seq<char>) -> Seq<SegmentView> {
    normalize(
        seq![
            plain_view("The given command does not contain the substitution string "@),
            styled_view(ss, Color::Green, Attributes::Bold),
        ],
    )
}

/// Makes the command to run for each point, by putting the point's number in place of the
/// substitution string.
pub struct CommandGen {
    args: Vec<String>,
    substitution_string: String,
}

impl CommandGen {
    /// The words of the command.
    pub closed spec fn args_view(&self) -> Seq<Seq<char>> {
        strings_view(self.args@)
    }

    /// The text that is replaced by a point's number.
    pub closed spec fn substitution_view(&self) -> Seq<char> {
        self.substitution_string@
    }

    /// A generator for `args`, refused when no word of the command contains the substitution
    /// string.
    pub fn new(args: Vec<String>, substitution_string: String) -> (r: Result<Self, Line>)
        ensures
            any_contains(strings_view(args@), substitution_string@) ==> (r matches Ok(g)
                && g.args_view() == strings_view(args@) && g.substitution_view()
                == substitution_string@),
            !any_contains(strings_view(args@), substitution_string@) ==> (r matches Err(line)
                && line@ == missing_substitution_line(substitution_string@)),
    {
        let ghost words = strings_view(args@);
        let ghost ss = substitution_string@;
        let mut found = false;
        let mut i: usize = 0;
        while i < args.len()
            invariant
                0 <= i <= args@.len(),
                words == strings_view(args@),
                ss == substitution_string@,
                found <==> exists|k: int| 0 <= k < i && #[trigger] contains_spec(words[k], ss),
            decreases args@.len() - i,
        {
            let here = str_contains(args[i].as_str(), substitution_string.as_str());
            proof {
                assert(words[i as int] == args@[i as int]@);
            }
            found = found || here;
            i = i + 1;
        }
        if !found {
            let mut segs: Vec<Segment> = Vec::new();
            segs.push(Segment::plain("The given command does not contain the substitution string "));
            segs.push(Segment::new(substitution_string, Color::Green, Attributes::Bold));
            proof {
                assert(views_of(segs@) =~= seq![
                    plain_view("The given command does not contain the substitution string "@),
                    styled_view(ss, Color::Green, Attributes::Bold),
                ]);
            }
            return Err(Line::from_segments(segs));
        }
        Ok(CommandGen { args, substitution_string })
    }

    /// The command for `num`: each word with every occurrence of the substitution string
    /// replaced by the decimal text of `num`.
    pub fn command_for_number(&self, num: i64) -> (cmd: Vec<String>)
        ensures
            cmd@.len() == self.args_view().len(),
            forall|k: int|
                0 <= k < cmd@.len() ==> #[trigger] cmd@[k]@ == replace_spec(
                    self.args_view()[k],
                    self.substitution_view(),
                    decimal_spec(num as int),
                ),
    {
        let num_string = decimal(num);
        let mut cmd: Vec<String> = Vec::new();
        let mut i: usize = 0;
        while i < self.args.len()
            invariant
                0 <= i <= self.args@.len(),
                num_string@ == decimal_spec(num as int),
                cmd@.len() == i,
                forall|k: int|
                    0 <= k < i ==> #[trigger] cmd@[k]@ == replace_spec(
                        self.args@[k]@,
                        self.substitution_string@,
                        num_string@,
                    ),
            decreases self.args@.len() - i,
        {
            let word = str_replace(
                self.args[i].as_str(),
                self.substitution_string.as_str(),
                num_string.as_str(),
            );
            cmd.push(word);
            i = i + 1;
        }
        cmd
    }
}

} // verus!
