use vstd::prelude::*;

use crate::cli::cli_args::CliArgs;
use crate::ui::line::{Line, law_join_two, normalize, views_of, concat_all};
use crate::ui::segment::{
    Attributes, Color, Segment, SegmentView, colored_view, plain_view, styled_view,
};
use crate::util::text::{
    decimal, decimal_spec, push_char, push_str, split_spec, str_split, strings_view,
};
use crate::cli::error_handling::lines_view;

verus! {

/// The words of a command, with one space between neighbours.
pub open spec fn join_spaces(cmd: Seq<Seq<char>>) -> Seq<char>
    decreases cmd.len(),
{
    if cmd.len() == 0 {
        Seq::empty()
    } else if cmd.len() == 1 {
        cmd[0]
    } else {
        join_spaces(cmd.drop_last()) + seq![' '] + cmd.last()
    }
}

/// The pieces of a word around its substitution strings: each piece plain, with the
/// substitution string in bold blue between neighbours.
pub open spec fn highlight_pieces(pieces: Seq<Seq<char>>, ss: Seq<char>) -> Seq<SegmentView>
    decreases pieces.len(),
{
    if pieces.len() == 0 {
        Seq::empty()
    } else if pieces.len() == 1 {
        seq![plain_view(pieces[0])]
    } else {
        highlight_pieces(pieces.drop_last(), ss) + seq![
            styled_view(ss, Color::Blue, Attributes::Bold),
            plain_view(pieces.last()),
        ]
    }
}

/// The segments of a command with each occurrence of the non-empty `ss` highlighted, and one
/// plain space between neighbouring words.
pub open spec fn highlighted_segments(cmd: Seq<Seq<char>>, ss: Seq<char>) -> Seq<SegmentView>
    decreases cmd.len(),
{
    if cmd.len() == 0 {
        Seq::empty()
    } else if cmd.len() == 1 {
        highlight_pieces(split_spec(cmd[0], ss), ss)
    } else {
        highlighted_segments(cmd.drop_last(), ss) + seq![plain_view(seq![' '])] + highlight_pieces(
            split_spec(cmd.last(), ss),
            ss,
        )
    }
}

/// The segments that show a command: its words in plain text when `ss` is empty, else with
/// each occurrence of `ss` highlighted.
pub open spec fn command_line_segments(cmd: Seq<Seq<char>>, ss: Seq<char>) -> Seq<SegmentView> {
    if ss.len() == 0 {
        seq![plain_view(join_spaces(cmd))]
    } else {
        highlighted_segments(cmd, ss)
    }
}

/// The command as one line of plain text, its words separated by spaces.
pub fn command_line_unhighlighted(cmd: &Vec<String>) -> (l: Line)
    ensures
        l@ == normalize(seq![plain_view(join_spaces(strings_view(cmd@)))]),
{
    let ghost words = strings_view(cmd@);
    let mut text = String::new();
    let mut i: usize = 0;
    proof {
        assert(words.take(0) =~= Seq::<Seq<char>>::empty());
        assert(text@ =~= join_spaces(words.take(0)));
    }
    while i < cmd.len()
        invariant
            0 <= i <= cmd@.len(),
            words == strings_view(cmd@),
            text@ == join_spaces(words.take(i as int)),
        decreases cmd@.len() - i,
    {
        if i > 0 {
            push_char(&mut text, ' ');
        }
        push_str(&mut text, cmd[i].as_str());
        proof {
            let next = words.take(i + 1);
            assert(next.drop_last() =~= words.take(i as int));
            assert(next.last() == cmd@[i as int]@);
            if i == 0 {
                assert(text@ =~= join_spaces(next));
            } else {
                assert(text@ =~= join_spaces(next));
            }
        }
        i = i + 1;
    }
    proof {
        assert(words.take(i as int) =~= words);
    }
    let mut segments: Vec<Segment> = Vec::new();
    segments.push(Segment::plain(text.as_str()));
    proof {
        assert(views_of(segments@) =~= seq![plain_view(join_spaces(words))]);
    }
    Line::from_segments(segments)
}

/// The command as one line, with each occurrence of the substitution string in bold blue.
pub fn command_line(cmd: &Vec<String>, substitution_string: &str) -> (l: Line)
    ensures
        l@ == normalize(command_line_segments(strings_view(cmd@), substitution_string@)),
{
    if substitution_string.is_empty() {
        return command_line_unhighlighted(cmd);
    }
    let ghost words = strings_view(cmd@);
    let ghost ss = substitution_string@;
    let mut segs: Vec<Segment> = Vec::new();
    let mut i: usize = 0;
    proof {
        assert(words.take(0) =~= Seq::<Seq<char>>::empty());
        assert(views_of(segs@) =~= highlighted_segments(words.take(0), ss));
    }
    while i < cmd.len()
        invariant
            0 <= i <= cmd@.len(),
            words == strings_view(cmd@),
            ss == substitution_string@,
            ss.len() > 0,
            views_of(segs@) == highlighted_segments(words.take(i as int), ss),
        decreases cmd@.len() - i,
    {
        let ghost before = views_of(segs@);
        if i > 0 {
            segs.push(Segment::plain(" "));
        }
        let ghost prefix = views_of(segs@);
        proof {
            if i > 0 {
                assert(" "@ =~= seq![' ']) by {
                    reveal_strlit(" ");
                }
                assert(prefix =~= before + seq![plain_view(seq![' '])]);
            } else {
                assert(prefix =~= Seq::<SegmentView>::empty());
            }
        }
        let pieces = str_split(cmd[i].as_str(), substitution_string);
        let ghost pv = strings_view(pieces@);
        proof {
            assert(pv =~= split_spec(words[i as int], ss));
        }
        let mut j: usize = 0;
        proof {
            assert(pv.take(0) =~= Seq::<Seq<char>>::empty());
            assert(views_of(segs@) =~= prefix + highlight_pieces(pv.take(0), ss));
        }
        while j < pieces.len()
            invariant
                0 <= j <= pieces@.len(),
                pv == strings_view(pieces@),
                ss == substitution_string@,
                views_of(segs@) == prefix + highlight_pieces(pv.take(j as int), ss),
            decreases pieces@.len() - j,
        {
            let ghost start = views_of(segs@);
            if j > 0 {
                segs.push(Segment::new(substitution_string.to_owned(), Color::Blue, Attributes::Bold));
            }
            let ghost middle = views_of(segs@);
            proof {
                if j > 0 {
                    assert(middle =~= start + seq![styled_view(ss, Color::Blue, Attributes::Bold)]);
                } else {
                    assert(middle =~= start);
                }
            }
            segs.push(Segment::plain(pieces[j].as_str()));
            proof {
                let next = pv.take(j + 1);
                assert(views_of(segs@) =~= middle + seq![plain_view(pv[j as int])]);
                assert(next.drop_last() =~= pv.take(j as int));
                assert(next.last() == pv[j as int]);
                if j == 0 {
                    assert(highlight_pieces(next, ss) == seq![plain_view(next[0])]);
                    assert(views_of(segs@) =~= prefix + highlight_pieces(next, ss));
                } else {
                    assert(highlight_pieces(next, ss) == highlight_pieces(pv.take(j as int), ss) + seq![
                        styled_view(ss, Color::Blue, Attributes::Bold),
                        plain_view(pv[j as int]),
                    ]);
                    assert(views_of(segs@) =~= prefix + highlight_pieces(next, ss));
                }
            }
            j = j + 1;
        }
        proof {
            assert(pv.take(j as int) =~= pv);
            let next = words.take(i + 1);
            assert(next.drop_last() =~= words.take(i as int));
            assert(next.last() == words[i as int]);
            assert(views_of(segs@) =~= highlighted_segments(next, ss));
        }
        i = i + 1;
    }
    proof {
        assert(words.take(i as int) =~= words);
    }
    Line::from_segments(segs)
}

/// The lines that report a successful search: the command, and the first bad point.
pub fn parasect_result_to_lines(args: &CliArgs, last_bad: i64) -> (lines: Vec<Line>)
    ensures
        lines_view(lines@) == seq![
            normalize(
                seq![
                    colored_view("Successfully parasected"@, Color::Green),
                    plain_view(" "@),
                ] + command_line_segments(
                    strings_view(args.command@),
                    args.substitution_string@,
                ),
            ),
            normalize(
                seq![
                    plain_view("First bad index: "@),
                    styled_view(decimal_spec(last_bad as int), Color::Blue, Attributes::Bold),
                ],
            ),
        ],
{
    let mut head: Vec<Segment> = Vec::new();
    head.push(Segment::colored("Successfully parasected", Color::Green));
    head.push(Segment::plain(" "));
    let ghost head_view = seq![
        colored_view("Successfully parasected"@, Color::Green),
        plain_view(" "@),
    ];
    proof {
        assert(views_of(head@) =~= head_view);
    }
    let head_line = Line::from_segments(head);
    let cmd_line = command_line(&args.command, args.substitution_string.as_str());
    let mut parts: Vec<Line> = Vec::new();
    parts.push(head_line);
    parts.push(cmd_line);
    let ghost cmd_segs = command_line_segments(
        strings_view(args.command@),
        args.substitution_string@,
    );
    proof {
        assert(parts@.map_values(|x: Line| x@) =~= seq![normalize(head_view), normalize(cmd_segs)]);
        law_join_two(head_view, cmd_segs);
    }
    let first = Line::join(parts);
    let mut tail: Vec<Segment> = Vec::new();
    tail.push(Segment::plain("First bad index: "));
    tail.push(Segment::new(decimal(last_bad), Color::Blue, Attributes::Bold));
    proof {
        assert(views_of(tail@) =~= seq![
            plain_view("First bad index: "@),
            styled_view(decimal_spec(last_bad as int), Color::Blue, Attributes::Bold),
        ]);
    }
    let second = Line::from_segments(tail);
    let mut lines: Vec<Line> = Vec::new();
    lines.push(first);
    lines.push(second);
    proof {
        assert(lines_view(lines@) =~= seq![
            normalize(head_view + cmd_segs),
            normalize(
                seq![
                    plain_view("First bad index: "@),
                    styled_view(decimal_spec(last_bad as int), Color::Blue, Attributes::Bold),
                ],
            ),
        ]);
    }
    lines
}

} // verus!
