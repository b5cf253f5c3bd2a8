use ppmcanvas::script::{
    accepts_fields, classify, has_arguments, is_png_name, rotation_axis, same_bytes, split_fields,
    step, Action, Axis, Command, Expect, LineKind,
};

fn bytes(s: &str) -> Vec<u8> {
    s.as_bytes().to_vec()
}

#[test]
fn every_command_word_is_recognised() {
    let words = [
        ("line", Command::Line),
        ("ident", Command::Ident),
        ("scale", Command::Scale),
        ("move", Command::Move),
        ("rotate", Command::Rotate),
        ("apply", Command::Apply),
        ("display", Command::Display),
        ("save", Command::Save),
        ("circle", Command::Circle),
        ("hermite", Command::Hermite),
        ("bezier", Command::Bezier),
        ("box", Command::Cuboid),
        ("sphere", Command::Sphere),
        ("torus", Command::Torus),
        ("clear", Command::Clear),
    ];
    for (word, command) in words {
        assert_eq!(classify(&bytes(word)), LineKind::Command(command));
    }
}

#[test]
fn blank_lines_and_comments_are_skipped() {
    assert_eq!(classify(&bytes("")), LineKind::Skip);
    assert_eq!(classify(&bytes("# a comment")), LineKind::Skip);
    assert_eq!(classify(&bytes("\\ another")), LineKind::Skip);
    assert_eq!(classify(&bytes("#line")), LineKind::Skip);
}

#[test]
fn other_lines_are_unknown() {
    assert_eq!(classify(&bytes("quit")), LineKind::Unknown);
    assert_eq!(classify(&bytes("lin")), LineKind::Unknown);
    assert_eq!(classify(&bytes("lines")), LineKind::Unknown);
    assert_eq!(classify(&bytes("Line")), LineKind::Unknown);
    assert_eq!(classify(&bytes(" line")), LineKind::Unknown);
    assert_eq!(classify(&bytes("1 2 3")), LineKind::Unknown);
}

#[test]
fn same_bytes_compares_whole_strings() {
    assert!(same_bytes(&bytes("abc"), &bytes("abc")));
    assert!(same_bytes(&bytes(""), &bytes("")));
    assert!(!same_bytes(&bytes("abc"), &bytes("abd")));
    assert!(!same_bytes(&bytes("abc"), &bytes("ab")));
}

#[test]
fn commands_without_arguments() {
    for c in [Command::Ident, Command::Apply, Command::Display, Command::Clear] {
        assert!(!has_arguments(c));
        assert!(!accepts_fields(c, 0));
    }
    for c in [Command::Line, Command::Save, Command::Rotate, Command::Torus, Command::Cuboid] {
        assert!(has_arguments(c));
    }
}

#[test]
fn field_counts() {
    assert!(accepts_fields(Command::Line, 6));
    assert!(!accepts_fields(Command::Line, 5));
    assert!(accepts_fields(Command::Cuboid, 6));
    assert!(accepts_fields(Command::Scale, 3));
    assert!(accepts_fields(Command::Move, 3));
    assert!(!accepts_fields(Command::Move, 4));
    assert!(accepts_fields(Command::Circle, 4));
    assert!(accepts_fields(Command::Sphere, 4));
    assert!(accepts_fields(Command::Torus, 5));
    assert!(accepts_fields(Command::Hermite, 8));
    assert!(accepts_fields(Command::Bezier, 8));
    assert!(!accepts_fields(Command::Bezier, 9));
    assert!(accepts_fields(Command::Rotate, 2));
    assert!(accepts_fields(Command::Rotate, 3));
    assert!(!accepts_fields(Command::Rotate, 1));
    assert!(accepts_fields(Command::Save, 1));
}

#[test]
fn step_runs_a_script() {
    let mut expect = Expect::Command;
    let mut actions = Vec::new();
    for line in ["# scene", "", "ident", "move", "1 2 3", "box", "clear", "apply", "quit"] {
        let (next, action) = step(expect, &bytes(line));
        expect = next;
        actions.push(action);
    }
    assert_eq!(
        actions,
        vec![
            Action::Nothing,
            Action::Nothing,
            Action::Run(Command::Ident),
            Action::Nothing,
            Action::RunWith(Command::Move),
            Action::Nothing,
            Action::RunWith(Command::Cuboid),
            Action::Run(Command::Apply),
            Action::Reject,
        ]
    );
    assert_eq!(expect, Expect::Command);
    assert_eq!(
        step(Expect::Command, &bytes("save")),
        (Expect::Arguments(Command::Save), Action::Nothing)
    );
}

#[test]
fn fields_are_split_at_each_space() {
    assert_eq!(split_fields(&bytes("1 2.5 -3")), vec![bytes("1"), bytes("2.5"), bytes("-3")]);
    assert_eq!(split_fields(&bytes("x")), vec![bytes("x")]);
    assert_eq!(split_fields(&bytes("")), vec![bytes("")]);
    assert_eq!(split_fields(&bytes("a  b")), vec![bytes("a"), bytes(""), bytes("b")]);
    assert_eq!(split_fields(&bytes(" a ")), vec![bytes(""), bytes("a"), bytes("")]);
    assert_eq!(split_fields(&bytes("a\tb")), vec![bytes("a\tb")]);
}

#[test]
fn rotation_axes() {
    assert_eq!(rotation_axis(&bytes("x")), Some(Axis::X));
    assert_eq!(rotation_axis(&bytes("y")), Some(Axis::Y));
    assert_eq!(rotation_axis(&bytes("z")), Some(Axis::Z));
    assert_eq!(rotation_axis(&bytes("X")), None);
    assert_eq!(rotation_axis(&bytes("xy")), None);
    assert_eq!(rotation_axis(&bytes("")), None);
}

#[test]
fn png_names() {
    assert!(is_png_name(&bytes("out.png")));
    assert!(is_png_name(&bytes(".png")));
    assert!(!is_png_name(&bytes("out.ppm")));
    assert!(!is_png_name(&bytes("png")));
    assert!(!is_png_name(&bytes("out.PNG")));
    assert!(!is_png_name(&bytes("out.png ")));
}
