//! The grammar of drawing scripts.
//!
//! A script is read line by line. A line that is empty or starts with a
//! backslash or a hash sign is skipped. Any other line must be one of the
//! command words. Most commands take their arguments from the line that
//! follows: fields separated by single spaces.

use vstd::prelude::*;

verus! {

/// The commands of a script.
#[derive(Clone, Copy, Debug, PartialEq, Eq, Structural)]
pub enum Command {
    Line,
    Ident,
    Scale,
    Move,
    Rotate,
    Apply,
    Display,
    Save,
    Circle,
    Hermite,
    Bezier,
    Cuboid,
    Sphere,
    Torus,
    Clear,
}

/// What a line of a script is, where a command is expected.
#[derive(Clone, Copy, Debug, PartialEq, Eq, Structural)]
pub enum LineKind {
    /// Blank or a comment.
    Skip,
    /// A command word.
    Command(Command),
    /// Anything else.
    Unknown,
}

/// The axis of a rotation.
#[derive(Clone, Copy, Debug, PartialEq, Eq, Structural)]
pub enum Axis {
    X,
    Y,
    Z,
}

/// What the interpreter expects next.
#[derive(Clone, Copy, Debug, PartialEq, Eq, Structural)]
pub enum Expect {
    /// A command line.
    Command,
    /// The argument line of the command.
    Arguments(Command),
}

/// What the interpreter does with a line.
#[derive(Clone, Copy, Debug, PartialEq, Eq, Structural)]
pub enum Action {
    /// Nothing yet.
    Nothing,
    /// Run the command, which takes no arguments.
    Run(Command),
    /// Run the command with this line as its arguments.
    RunWith(Command),
    /// Stop: the line is no command.
    Reject,
}

/// The word of each command, in ASCII.
pub open spec fn keyword(c: Command) -> Seq<u8> {
    match c {
        Command::Line => seq![108u8, 105, 110, 101],
        Command::Ident => seq![105u8, 100, 101, 110, 116],
        Command::Scale => seq![115u8, 99, 97, 108, 101],
        Command::Move => seq![109u8, 111, 118, 101],
        Command::Rotate => seq![114u8, 111, 116, 97, 116, 101],
        Command::Apply => seq![97u8, 112, 112, 108, 121],
        Command::Display => seq![100u8, 105, 115, 112, 108, 97, 121],
        Command::Save => seq![115u8, 97, 118, 101],
        Command::Circle => seq![99u8, 105, 114, 99, 108, 101],
        Command::Hermite => seq![104u8, 101, 114, 109, 105, 116, 101],
        Command::Bezier => seq![98u8, 101, 122, 105, 101, 114],
        Command::Cuboid => seq![98u8, 111, 120],
        Command::Sphere => seq![115u8, 112, 104, 101, 114, 101],
        Command::Torus => seq![116u8, 111, 114, 117, 115],
        Command::Clear => seq![99u8, 108, 101, 97, 114],
    }
}

/// The line is blank or a comment: empty, or starting with a backslash or
/// a hash sign.
pub open spec fn is_skipped(line: Seq<u8>) -> bool {
    line.len() == 0 || line[0] == 92 || line[0] == 35
}

/// The kind of a line, already trimmed.
pub open spec fn line_kind(line: Seq<u8>) -> LineKind {
    if is_skipped(line) {
        LineKind::Skip
    } else if exists|c: Command| keyword(c) == line {
        LineKind::Command(choose|c: Command| keyword(c) == line)
    } else {
        LineKind::Unknown
    }
}

/// No two commands share a word.
pub proof fn lemma_keywords_differ(a: Command, b: Command)
    requires
        keyword(a) == keyword(b),
    ensures
        a == b,
{
    let (ka, kb) = (keyword(a), keyword(b));
    assert(ka.len() == kb.len());
    assert(ka[0] == kb[0]);
    assert(ka[1] == kb[1]);
    assert(ka[2] == kb[2]);
}

/// The word of a command.
fn word(c: Command) -> (w: Vec<u8>)
    ensures
        w@ == keyword(c),
{
    let w = match c {
        Command::Line => vec![108u8, 105, 110, 101],
        Command::Ident => vec![105u8, 100, 101, 110, 116],
        Command::Scale => vec![115u8, 99, 97, 108, 101],
        Command::Move => vec![109u8, 111, 118, 101],
        Command::Rotate => vec![114u8, 111, 116, 97, 116, 101],
        Command::Apply => vec![97u8, 112, 112, 108, 121],
        Command::Display => vec![100u8, 105, 115, 112, 108, 97, 121],
        Command::Save => vec![115u8, 97, 118, 101],
        Command::Circle => vec![99u8, 105, 114, 99, 108, 101],
        Command::Hermite => vec![104u8, 101, 114, 109, 105, 116, 101],
        Command::Bezier => vec![98u8, 101, 122, 105, 101, 114],
        Command::Cuboid => vec![98u8, 111, 120],
        Command::Sphere => vec![115u8, 112, 104, 101, 114, 101],
        Command::Torus => vec![116u8, 111, 114, 117, 115],
        Command::Clear => vec![99u8, 108, 101, 97, 114],
    };
    assert(w@ =~= keyword(c));
    w
}

/// Whether two byte strings are equal.
pub fn same_bytes(a: &Vec<u8>, b: &Vec<u8>) -> (r: bool)
    ensures
        r == (a@ == b@),
{
    if a.len() != b.len() {
        return false;
    }
    let mut i: usize = 0;
    while i < a.len()
        invariant
            i <= a.len(),
            a.len() == b.len(),
            forall|k: int| 0 <= k < i ==> a@[k] == b@[k],
        decreases a.len() - i,
    {
        if a[i] != b[i] {
            return false;
        }
        i = i + 1;
    }
    assert(a@ =~= b@);
    true
}

/// All commands, in the order in which a line is held against them.
fn all_commands() -> (v: Vec<Command>)
    ensures
        forall|c: Command| v@.contains(c),
{
    let v = vec![
        Command::Line,
        Command::Ident,
        Command::Scale,
        Command::Move,
        Command::Rotate,
        Command::Apply,
        Command::Display,
        Command::Save,
        Command::Circle,
        Command::Hermite,
        Command::Bezier,
        Command::Cuboid,
        Command::Sphere,
        Command::Torus,
        Command::Clear,
    ];
    assert forall|c: Command| v@.contains(c) by {
        let k: int = match c {
            Command::Line => 0,
            Command::Ident => 1,
            Command::Scale => 2,
            Command::Move => 3,
            Command::Rotate => 4,
            Command::Apply => 5,
            Command::Display => 6,
            Command::Save => 7,
            Command::Circle => 8,
            Command::Hermite => 9,
            Command::Bezier => 10,
            Command::Cuboid => 11,
            Command::Sphere => 12,
            Command::Torus => 13,
            Command::Clear => 14,
        };
        assert(v@[k] == c);
    }
    v
}

/// Tells what a trimmed line is where a command is expected.
pub fn classify(line: &Vec<u8>) -> (kind: LineKind)
    ensures
        kind == line_kind(line@),
        kind matches LineKind::Command(c) ==> keyword(c) == line@,
        kind == LineKind::Unknown ==> forall|c: Command| keyword(c) != line@,
{
    if line.len() == 0 || line[0] == 92 || line[0] == 35 {
        return LineKind::Skip;
    }
    let all = all_commands();
    let mut i: usize = 0;
    while i < all.len()
        invariant
            i <= all.len(),
            !is_skipped(line@),
            forall|c: Command| all@.contains(c),
            forall|k: int| 0 <= k < i ==> keyword(all@[k]) != line@,
        decreases all.len() - i,
    {
        let c = all[i];
        let w = word(c);
        if same_bytes(line, &w) {
            proof {
                let chosen = choose|d: Command| keyword(d) == line@;
                lemma_keywords_differ(chosen, c);
            }
            return LineKind::Command(c);
        }
        i = i + 1;
    }
    proof {
        assert forall|c: Command| keyword(c) != line@ by {
            let k = choose|k: int| 0 <= k < all@.len() && all@[k] == c;
            assert(all@.contains(c));
        }
    }
    LineKind::Unknown
}

/// Whether the command reads the line after it.
pub open spec fn takes_arguments(c: Command) -> bool {
    !(c == Command::Ident || c == Command::Apply || c == Command::Display || c == Command::Clear)
}

/// Executable form of `takes_arguments`.
pub fn has_arguments(c: Command) -> (r: bool)
    ensures
        r == takes_arguments(c),
{
    match c {
        Command::Ident | Command::Apply | Command::Display | Command::Clear => false,
        _ => true,
    }
}

/// Whether a command accepts an argument line of `n` fields: the shapes
/// take exactly as many numbers as define them, a rotation takes an axis
/// and an angle and ignores what follows, and the whole line after `save`
/// is a file name.
pub open spec fn accepts(c: Command, n: nat) -> bool {
    match c {
        Command::Line | Command::Cuboid => n == 6,
        Command::Scale | Command::Move => n == 3,
        Command::Circle | Command::Sphere => n == 4,
        Command::Torus => n == 5,
        Command::Hermite | Command::Bezier => n == 8,
        Command::Rotate => n >= 2,
        Command::Save => true,
        Command::Ident | Command::Apply | Command::Display | Command::Clear => false,
    }
}

/// Executable form of `accepts`.
pub fn accepts_fields(c: Command, n: usize) -> (r: bool)
    ensures
        r == accepts(c, n as nat),
{
    match c {
        Command::Line | Command::Cuboid => n == 6,
        Command::Scale | Command::Move => n == 3,
        Command::Circle | Command::Sphere => n == 4,
        Command::Torus => n == 5,
        Command::Hermite | Command::Bezier => n == 8,
        Command::Rotate => n >= 2,
        Command::Save => true,
        Command::Ident | Command::Apply | Command::Display | Command::Clear => false,
    }
}

/// What the interpreter does with a trimmed line, and what it expects
/// after it.
pub open spec fn step_spec(expect: Expect, line: Seq<u8>) -> (Expect, Action) {
    match expect {
        Expect::Arguments(c) => (Expect::Command, Action::RunWith(c)),
        Expect::Command => match line_kind(line) {
            LineKind::Skip => (Expect::Command, Action::Nothing),
            LineKind::Unknown => (Expect::Command, Action::Reject),
            LineKind::Command(c) => if takes_arguments(c) {
                (Expect::Arguments(c), Action::Nothing)
            } else {
                (Expect::Command, Action::Run(c))
            },
        },
    }
}

/// Takes one trimmed line: tells what to do with it and what to expect
/// after it.
pub fn step(expect: Expect, line: &Vec<u8>) -> (r: (Expect, Action))
    ensures
        r == step_spec(expect, line@),
{
    match expect {
        Expect::Arguments(c) => (Expect::Command, Action::RunWith(c)),
        Expect::Command => match classify(line) {
            LineKind::Skip => (Expect::Command, Action::Nothing),
            LineKind::Unknown => (Expect::Command, Action::Reject),
            LineKind::Command(c) => if has_arguments(c) {
                (Expect::Arguments(c), Action::Nothing)
            } else {
                (Expect::Command, Action::Run(c))
            },
        },
    }
}

/// The fields of a line: what stands between its spaces. A line without a
/// space is one field; two spaces in a row hold an empty field.
pub open spec fn fields(line: Seq<u8>) -> Seq<Seq<u8>>
    decreases line.len(),
{
    if line.len() == 0 {
        seq![Seq::empty()]
    } else {
        let before = fields(line.drop_last());
        if line.last() == 32 {
            before.push(Seq::empty())
        } else {
            before.drop_last().push(before.last().push(line.last()))
        }
    }
}

/// The views of a list of byte strings.
pub open spec fn views(parts: Seq<Vec<u8>>) -> Seq<Seq<u8>> {
    Seq::new(parts.len(), |k: int| parts[k]@)
}

/// Splits a line at each space.
pub fn split_fields(line: &Vec<u8>) -> (parts: Vec<Vec<u8>>)
    ensures
        views(parts@) == fields(line@),
{
    let mut done: Vec<Vec<u8>> = Vec::new();
    let mut current: Vec<u8> = Vec::new();
    let mut i: usize = 0;
    assert(line@.subrange(0, 0) =~= Seq::empty());
    assert(views(done@).push(current@) =~= fields(line@.subrange(0, 0)));
    while i < line.len()
        invariant
            i <= line.len(),
            views(done@).push(current@) == fields(line@.subrange(0, i as int)),
        decreases line.len() - i,
    {
        let b = line[i];
        proof {
            let upto = line@.subrange(0, i + 1);
            assert(upto.drop_last() =~= line@.subrange(0, i as int));
            assert(upto.last() == b);
            let before = views(done@).push(current@);
            assert(before.last() == current@);
            assert(before.drop_last() =~= views(done@));
        }
        if b == 32 {
            let ghost earlier = done@;
            done.push(current);
            assert(views(done@) =~= views(earlier).push(current@));
            current = Vec::new();
        } else {
            current.push(b);
        }
        i = i + 1;
    }
    assert(line@.subrange(0, i as int) =~= line@);
    let ghost earlier = done@;
    done.push(current);
    assert(views(done@) =~= views(earlier).push(current@));
    done
}

/// The axis that a field names: one lower-case letter.
pub open spec fn axis_of(field: Seq<u8>) -> Option<Axis> {
    if field == seq![120u8] {
        Some(Axis::X)
    } else if field == seq![121u8] {
        Some(Axis::Y)
    } else if field == seq![122u8] {
        Some(Axis::Z)
    } else {
        None
    }
}

/// Reads the axis of a rotation.
pub fn rotation_axis(field: &Vec<u8>) -> (r: Option<Axis>)
    ensures
        r == axis_of(field@),
{
    if field.len() != 1 {
        return None;
    }
    let b = field[0];
    assert(field@ =~= seq![b]);
    if b == 120 {
        Some(Axis::X)
    } else if b == 121 {
        Some(Axis::Y)
    } else if b == 122 {
        Some(Axis::Z)
    } else {
        assert(seq![120u8][0] == 120 && seq![121u8][0] == 121 && seq![122u8][0] == 122);
        None
    }
}

/// The name ends in `.png`.
pub open spec fn names_png(name: Seq<u8>) -> bool {
    name.len() >= 4 && name.subrange(name.len() - 4, name.len() as int) == seq![
        46u8,
        112,
        110,
        103,
    ]
}

/// Whether a saved file is to be converted: its name ends in `.png`.
pub fn is_png_name(name: &Vec<u8>) -> (r: bool)
    ensures
        r == names_png(name@),
{
    let n = name.len();
    if n < 4 {
        return false;
    }
    let ghost tail = name@.subrange(n - 4, n as int);
    let r = name[n - 4] == 46 && name[n - 3] == 112 && name[n - 2] == 110 && name[n - 1] == 103;
    proof {
        let ext = seq![46u8, 112, 110, 103];
        assert(tail[0] == name@[n - 4] && tail[1] == name@[n - 3] && tail[2] == name@[n - 2]
            && tail[3] == name@[n - 1]);
        if r {
            assert(tail =~= ext);
        } else {
            assert(ext[0] == 46 && ext[1] == 112 && ext[2] == 110 && ext[3] == 103);
        }
    }
    r
}

} // verus!
