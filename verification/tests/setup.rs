use parasect::setup::cli_args::CliArgs;
use parasect::setup::command_gen::CommandGen;
use parasect::setup::parasect_settings::run_parasect;
use parasect::range::numeric_range::NumericRange;
use parasect::ui::line::Line;
use parasect::ui::segment::{Attributes, Color, Segment};

fn setup_args(low: i64, high: i64) -> CliArgs {
    CliArgs {
        bad_is_zero: false,
        command: vec!["run".to_string(), "$X".to_string()],
        high,
        low,
        max_parallelism: None,
        no_tty: false,
        substitution_string: "$X".to_string(),
    }
}

#[test]
fn setup_range_refuses_low_not_below_high() {
    assert_eq!(setup_args(1, 4).parasect_range(), Ok(NumericRange::from_endpoints_inclusive(1, 4)));
    assert_eq!(
        setup_args(4, 1).parasect_range(),
        Err(Line::from_segments(vec![Segment::plain(
            "Low must be strictly less than high (low was 4, which is >= the high of 1)"
        )]))
    );
}

#[test]
fn setup_command_gen_substitutes_and_refuses() {
    let g = CommandGen::new(vec!["a".to_string(), "-n=$X".to_string()], "$X".to_string()).ok().unwrap();
    assert_eq!(g.command_for_number(12), vec!["a", "-n=12"]);
    let refused = CommandGen::new(vec!["a".to_string()], "$X".to_string()).err().unwrap();
    assert_eq!(
        refused,
        Line::from_segments(vec![
            Segment::plain("The given command does not contain the substitution string "),
            Segment::new("$X".to_string(), Color::Green, Attributes::Bold),
        ])
    );
}

#[test]
fn setup_command_gen_with_empty_substitution_interleaves() {
    let g = CommandGen::new(vec!["ab".to_string()], "".to_string()).ok().unwrap();
    assert_eq!(g.command_for_number(5), vec!["5a5b5"]);
}

#[test]
fn run_parasect_reports_a_missing_substitution_string() {
    let r = run_parasect(NumericRange::from_endpoints_inclusive(1, 2), vec!["a".to_string()], "$X".to_string());
    assert!(r.is_err());
}
