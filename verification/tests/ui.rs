use parasect::ui::line::Line;
use parasect::ui::segment::{Attributes, Color, Segment};

#[test]
fn lines_merge_neighbours_of_one_style_and_drop_empty_segments() {
    let l = Line::from_segments(vec![
        Segment::plain("ab"),
        Segment::plain(""),
        Segment::plain("cd"),
        Segment::colored("e", Color::Red),
        Segment::colored("", Color::Blue),
        Segment::colored("f", Color::Red),
    ]);
    assert_eq!(l.segments(), &vec![Segment::plain("abcd"), Segment::colored("ef", Color::Red)]);
}

#[test]
fn lines_with_the_same_styled_text_are_equal() {
    let a = Line::from_segments(vec![Segment::plain("a"), Segment::plain("bc")]);
    let b = Line::from_segments(vec![Segment::plain("ab"), Segment::plain("c")]);
    assert_eq!(a, b);
    let c = Line::from_segments(vec![Segment::plain("ab"), Segment::new("c".to_string(), Color::Green, Attributes::Normal)]);
    assert_ne!(a, c);
}

#[test]
fn join_concatenates_lines() {
    let a = Line::from_segments(vec![Segment::plain("x "), Segment::new("y".to_string(), Color::Blue, Attributes::Bold)]);
    let b = Line::from_segments(vec![Segment::new("z".to_string(), Color::Blue, Attributes::Bold), Segment::plain("!")]);
    let j = Line::join(vec![a, b]);
    assert_eq!(
        j.segments(),
        &vec![
            Segment::plain("x "),
            Segment::new("yz".to_string(), Color::Blue, Attributes::Bold),
            Segment::plain("!"),
        ]
    );
    assert_eq!(Line::join(vec![]), Line::empty());
}

#[test]
fn segment_styles() {
    assert!(Segment::plain("a").has_style_of(&Segment::plain("b")));
    assert!(!Segment::plain("a").has_style_of(&Segment::colored("b", Color::Red)));
    assert!(!Segment::new("a".to_string(), Color::Red, Attributes::Bold).has_style_of(&Segment::colored("b", Color::Red)));
    assert_eq!(Segment::plain("ab").extended("cd"), Segment::plain("abcd"));
}
