use parasect::cli::cli_args::{max_parallelism_from, CliArgs};
use parasect::cli::error_handling::parasect_error_to_cli_error;
use parasect::cli::utils::{command_line, command_line_unhighlighted, parasect_result_to_lines};
use parasect::command_gen::CommandGen;
use parasect::parasect::types::ParasectError;
use parasect::range::numeric_range::NumericRange;
use parasect::ui::line::Line;
use parasect::ui::segment::{Attributes, Color, Segment};

fn words(v: &[&str]) -> Vec<String> {
    v.iter().map(|x| x.to_string()).collect()
}

fn plain_line(text: &str) -> Line {
    Line::from_segments(vec![Segment::plain(text)])
}

fn args_for(low: i64, high: i64, command: &[&str]) -> CliArgs {
    CliArgs {
        command: words(command),
        high,
        low,
        max_parallelism: None,
        no_tty: false,
        substitution_string: "$X".to_string(),
    }
}

#[test]
fn test_command_gen() {}

#[test]
fn test_command_line_basic() {
    let cmd = vec!["thing".to_string(), "--flag=$X".to_string(), "--other-flag=z".to_string()];

    assert_eq!(
        command_line(&cmd, "$X"),
        Line::from_segments(vec![
            Segment::plain("thing --flag="),
            Segment::new("$X".to_string(), Color::Blue, Attributes::Bold),
            Segment::plain(" --other-flag=z"),
        ])
    )
}

#[test]
fn test_command_line_empty() {
    let cmd = Vec::new();

    assert_eq!(command_line(&cmd, "$X"), Line::empty())
}

#[test]
fn test_command_line_empty_ss() {
    let cmd = vec!["thing".to_string(), "--flag=$X".to_string(), "--other-flag=z".to_string()];

    assert_eq!(command_line(&cmd, ""), plain_line("thing --flag=$X --other-flag=z"))
}

#[test]
fn test_parasect_result_to_lines_success() {
    let args = args_for(5, 10, &["foo", "--num=$X"]);

    assert_eq!(
        parasect_result_to_lines(&args, 7),
        vec![
            Line::from_segments(vec![
                Segment::colored("Successfully parasected", Color::Green),
                Segment::plain(" foo --num="),
                Segment::new("$X".to_string(), Color::Blue, Attributes::Bold),
            ]),
            Line::from_segments(vec![
                Segment::plain("First bad index: "),
                Segment::new("7".to_string(), Color::Blue, Attributes::Bold),
            ]),
        ]
    );
}

#[test]
fn test_parasect_result_to_lines_failure() {
    let args = args_for(5, 10, &["foo", "--num=$X"]);

    assert_eq!(
        parasect_result_to_lines(&args, 7),
        vec![
            Line::from_segments(vec![
                Segment::colored("Successfully parasected", Color::Green),
                Segment::plain(" foo --num="),
                Segment::new("$X".to_string(), Color::Blue, Attributes::Bold),
            ]),
            Line::from_segments(vec![
                Segment::plain("First bad index: "),
                Segment::new("7".to_string(), Color::Blue, Attributes::Bold),
            ]),
        ]
    );
}

#[test]
fn test_cmdgen_basic() {
    let cmdgen = CommandGen::new(
        words(&["thing", "--flag=x", "--other-flag=$X", "--third-flag=z"]),
        "$X".to_string(),
    )
    .unwrap();

    assert_eq!(
        cmdgen.command_for_number(69),
        vec!["thing", "--flag=x", "--other-flag=69", "--third-flag=z"]
    )
}

#[test]
fn test_cmdgen_multiple() {
    let cmdgen = CommandGen::new(
        words(&["thing", "--flag=$X", "--other-flag=$X", "--third-flag=z"]),
        "$X".to_string(),
    )
    .unwrap();

    assert_eq!(
        cmdgen.command_for_number(69),
        vec!["thing", "--flag=69", "--other-flag=69", "--third-flag=z"]
    )
}

#[test]
fn test_cmdgen_positional() {
    let cmdgen = CommandGen::new(
        words(&["thing", "$X", "--other-flag=$X", "--third-flag=z"]),
        "$X".to_string(),
    )
    .unwrap();

    assert_eq!(
        cmdgen.command_for_number(69),
        vec!["thing", "69", "--other-flag=69", "--third-flag=z"]
    )
}

#[test]
fn test_cmdgen_fails_with_no_ss_matches() {
    assert_eq!(
        CommandGen::new(words(&["thing", "--third-flag=z"]), "$X".to_string()).unwrap_err(),
        vec![
            Line::from_segments(vec![
                Segment::plain("The given command does not contain the substitution string "),
                Segment::new("$X".to_string(), Color::Blue, Attributes::Bold),
            ]),
            plain_line("Command: thing --third-flag=z"),
        ]
    )
}

#[test]
fn test_cmdgen_fails_with_blank_ss() {
    assert_eq!(
        CommandGen::new(words(&["thing", "--third-flag=$X"]), "".to_string()).unwrap_err(),
        vec![plain_line("The substitution string cannot be empty.")]
    )
}

#[test]
fn test_cmdgen_fails_with_blank_command() {
    assert_eq!(
        CommandGen::new(Vec::new(), "$X".to_string()).unwrap_err(),
        vec![plain_line("The command cannot be empty.")]
    )
}

#[test]
fn cmdgen_replaces_every_occurrence_with_negative_numbers() {
    let cmdgen = CommandGen::new(words(&["run", "$X-$X", "plain"]), "$X".to_string()).unwrap();
    assert_eq!(cmdgen.command_for_number(-42), vec!["run", "-42--42", "plain"]);
    assert_eq!(cmdgen.command_for_number(0), vec!["run", "0-0", "plain"]);
    assert_eq!(
        cmdgen.command_for_number(i64::MIN),
        vec!["run", "-9223372036854775808--9223372036854775808", "plain"]
    );
}

#[test]
fn command_line_highlights_each_occurrence() {
    let cmd = words(&["$X", "a$Xb$X"]);
    assert_eq!(
        command_line(&cmd, "$X"),
        Line::from_segments(vec![
            Segment::new("$X".to_string(), Color::Blue, Attributes::Bold),
            Segment::plain(" a"),
            Segment::new("$X".to_string(), Color::Blue, Attributes::Bold),
            Segment::plain("b"),
            Segment::new("$X".to_string(), Color::Blue, Attributes::Bold),
        ])
    );
}

#[test]
fn unhighlighted_command_line_joins_words_with_spaces() {
    assert_eq!(command_line_unhighlighted(&words(&["a", "b c", "d"])), plain_line("a b c d"));
    assert_eq!(command_line_unhighlighted(&Vec::new()), Line::empty());
}

#[test]
fn range_refuses_low_not_below_high() {
    assert_eq!(args_for(5, 10, &["x"]).range(), Ok(NumericRange::from_endpoints_inclusive(5, 10)));
    assert_eq!(
        args_for(10, 10, &["x"]).range().unwrap_err(),
        vec![plain_line("Low must be strictly less than high (low was 10, which is >= the high of 10)")]
    );
    assert_eq!(
        args_for(3, -4, &["x"]).range().unwrap_err(),
        vec![plain_line("Low must be strictly less than high (low was 3, which is >= the high of -4)")]
    );
}

#[test]
fn max_parallelism_refuses_zero() {
    assert_eq!(max_parallelism_from(Some(4), 8), Ok(4));
    assert_eq!(max_parallelism_from(None, 8), Ok(8));
    assert_eq!(
        max_parallelism_from(Some(0), 8).unwrap_err(),
        vec![plain_line("The max parallelism cannot be 0. Specify a value >= 1 for --max-parallelism")]
    );
    let mut args = args_for(1, 2, &["x"]);
    assert!(args.max_parallelism().unwrap() >= 1);
    args.max_parallelism = Some(3);
    assert_eq!(args.max_parallelism(), Ok(3));
}

#[test]
fn command_gen_of_args_checks_the_command() {
    let args = args_for(1, 2, &["echo", "$X"]);
    assert_eq!(args.command_gen().unwrap().command_for_number(2), vec!["echo", "2"]);
    let args = args_for(1, 2, &["echo"]);
    assert!(args.command_gen().is_err());
}

#[test]
fn cli_errors_name_their_kind() {
    assert_eq!(
        parasect_error_to_cli_error(ParasectError::PayloadError("boom".into())),
        vec![Line::from_segments(vec![
            Segment::new("Subprocess error".to_string(), Color::Red, Attributes::Bold),
            Segment::plain(": "),
            Segment::colored("boom", Color::Red),
        ])]
    );
    assert_eq!(
        parasect_error_to_cli_error(ParasectError::InconsistencyError("odd".into())),
        vec![Line::from_segments(vec![
            Segment::new("Inconsistent results from subprocess".to_string(), Color::Red, Attributes::Bold),
            Segment::plain(": "),
            Segment::colored("odd", Color::Red),
        ])]
    );
}
