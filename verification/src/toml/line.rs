//! The lines of a source file that is preprocessed.
use crate::text::{
    before_space, copied, is_white_space, law_trim_start, lemma_run_is, space_run, trim_start,
};
use vstd::prelude::*;

verus! {

/// What a line stands for.
#[derive(Debug)]
pub enum Line {
    /// Text that is kept.
    Text(Vec<char>),
    /// A command to include the files that match a glob.
    Include(Vec<char>),
    /// A command that does not exist.
    Unknown(Vec<char>),
    /// A command without a name.
    Empty,
}

#[verifier::ext_equal]
pub enum LineView {
    Text(Seq<char>),
    Include(Seq<char>),
    Unknown(Seq<char>),
    Empty,
}

impl View for Line {
    type V = LineView;

    open spec fn view(&self) -> LineView {
        match self {
            Line::Text(text) => LineView::Text(text@),
            Line::Include(glob) => LineView::Include(glob@),
            Line::Unknown(name) => LineView::Unknown(name@),
            Line::Empty => LineView::Empty,
        }
    }
}

/// The line starts with that many `#`.
pub open spec fn has_hashes(line: Seq<char>, n: nat) -> bool {
    line.len() >= n && forall|i: int| 0 <= i < n ==> #[trigger] line[i] == '#'
}

/// The name of the command that includes files.
pub open spec fn include_name() -> Seq<char> {
    seq!['i', 'n', 'c', 'l', 'u', 'd', 'e']
}

/// What a line stands for. `##` at its start makes it a command, and `###` stands for text that starts
/// with `##`.
pub open spec fn line_of(line: Seq<char>) -> LineView {
    if has_hashes(line, 3) {
        LineView::Text(line.skip(1))
    } else if has_hashes(line, 2) {
        let command = line.skip(2);
        let n = before_space(command) as int;
        let name = command.take(n);
        if name.len() == 0 {
            LineView::Empty
        } else if name == include_name() {
            LineView::Include(trim_start(command.skip(n)))
        } else {
            LineView::Unknown(name)
        }
    } else {
        LineView::Text(line)
    }
}

/// Text that starts with `##` is kept as it is if it is escaped by one more `#`.
pub proof fn law_escape(text: Seq<char>)
    requires
        has_hashes(text, 2),
    ensures
        line_of(seq!['#'] + text) == LineView::Text(text),
{
    let line = seq!['#'] + text;
    assert(line.skip(1) =~= text);
    assert forall|i: int| 0 <= i < 3 implies #[trigger] line[i] == '#' by {
        if i > 0 {
            assert(text[i - 1] == '#');
        }
    }
}

/// Text that does not start with `##` is kept as it is.
pub proof fn law_plain(text: Seq<char>)
    requires
        !has_hashes(text, 2),
    ensures
        line_of(text) == LineView::Text(text),
{
    if has_hashes(text, 3) {
        assert(has_hashes(text, 2));
    }
}

/// The line that includes the files that match a glob.
pub open spec fn include_line(glob: Seq<char>) -> Seq<char> {
    seq!['#', '#'] + include_name() + seq![' '] + glob
}

/// A glob that does not start with white space is included by a line with the command in front of it.
pub proof fn law_include_line(glob: Seq<char>)
    requires
        glob.len() > 0 ==> !is_white_space(glob[0]),
    ensures
        line_of(include_line(glob)) == LineView::Include(glob),
{
    let line = include_line(glob);
    let command = line.skip(2);
    let space = |c: char| is_white_space(c);
    let no_space = |c: char| !is_white_space(c);
    assert(line[2] == 'i');
    assert(!has_hashes(line, 3));
    assert(command =~= include_name() + seq![' '] + glob);
    assert(command[7] == ' ');
    lemma_run_is(command, no_space, 7);
    assert(command.take(7) =~= include_name());
    let rest = command.skip(7);
    assert(rest =~= seq![' '] + glob);
    if glob.len() > 0 {
        assert(rest[1] == glob[0]);
    }
    lemma_run_is(rest, space, 1);
    assert(rest.skip(1) =~= glob);
}

/// The number of `#` that a line starts with, counted up to three.
fn hashes(line: &[char]) -> (r: usize)
    ensures
        r <= 3,
        has_hashes(line@, r as nat),
        r < 3 ==> !has_hashes(line@, (r + 1) as nat),
{
    let mut r: usize = 0;
    while r < 3 && r < line.len() && line[r] == '#'
        invariant
            r <= 3,
            has_hashes(line@, r as nat),
        decreases 3 - r,
    {
        r += 1;
    }
    proof {
        if r < 3 && has_hashes(line@, (r + 1) as nat) {
            assert(line@[r as int] == '#');
        }
    }
    r
}

/// Tells what a line stands for.
pub fn read_line(line: &[char]) -> (r: Line)
    ensures
        r@ == line_of(line@),
{
    let n = hashes(line);
    let len = line.len();
    proof {
        assert(has_hashes(line@, 3) == (n == 3));
        assert(has_hashes(line@, 2) == (n >= 2));
    }
    if n == 3 {
        let text = copied(line, 1, len);
        assert(text@ =~= line@.skip(1));
        return Line::Text(text);
    }
    if n < 2 {
        let text = copied(line, 0, len);
        assert(text@ =~= line@);
        return Line::Text(text);
    }
    let ghost command = line@.skip(2);
    let name_len = space_run(line, 2, false);
    let name = copied(line, 2, 2 + name_len);
    assert(name@ =~= command.take(name_len as int));
    if name_len == 0 {
        return Line::Empty;
    }
    if is_include(&name) {
        assert(line@.skip(2 + name_len) =~= command.skip(name_len as int));
        let space = space_run(line, 2 + name_len, true);
        let glob = copied(line, 2 + name_len + space, len);
        assert(glob@ =~= trim_start(command.skip(name_len as int)));
        return Line::Include(glob);
    }
    Line::Unknown(name)
}

/// Whether a command is the one that includes files.
fn is_include(name: &Vec<char>) -> (r: bool)
    ensures
        r == (name@ == include_name()),
{
    let r = name.len() == 7 && name[0] == 'i' && name[1] == 'n' && name[2] == 'c' && name[3] == 'l'
        && name[4] == 'u' && name[5] == 'd' && name[6] == 'e';
    if r {
        assert(name@ =~= include_name());
    }
    r
}

/// A line that starts with `##` and anything but a third `#` is a command. Its name ends at the first white
/// space. `include` is the command that there is, with the glob behind the white space, whatever that is
/// and however much.
pub proof fn law_command(name: Seq<char>, space: Seq<char>, rest: Seq<char>)
    requires
        name.len() > 0 ==> name[0] != '#',
        forall|i: int| 0 <= i < name.len() ==> !is_white_space(#[trigger] name[i]),
        forall|i: int| 0 <= i < space.len() ==> is_white_space(#[trigger] space[i]),
        space.len() == 0 ==> rest.len() == 0,
        rest.len() > 0 ==> !is_white_space(rest[0]),
    ensures
        line_of(seq!['#', '#'] + name + space + rest) == (if name.len() == 0 {
            LineView::Empty
        } else if name == seq!['i', 'n', 'c', 'l', 'u', 'd', 'e'] {
            LineView::Include(rest)
        } else {
            LineView::Unknown(name)
        }),
{
    let line = seq!['#', '#'] + name + space + rest;
    let command = line.skip(2);
    let p = |c: char| !is_white_space(c);
    let n = name.len() as int;
    assert(command =~= name + (space + rest));
    assert(line[0] == '#' && line[1] == '#');
    assert(has_hashes(line, 2));
    if has_hashes(line, 3) {
        assert(line[2] == '#');
        assert(command[0] == '#');
        if n > 0 {
            assert(command[0] == name[0]);
        } else {
            assert(command[0] == space[0]);
            assert(is_white_space(space[0]));
        }
    }
    assert forall|i: int| 0 <= i < n implies p(#[trigger] command[i]) by {
        assert(command[i] == name[i]);
    }
    if n < command.len() {
        assert(command[n] == space[0]);
    }
    lemma_run_is(command, p, name.len());
    assert(command.take(n) =~= name);
    assert(command.skip(n) =~= space + rest);
    law_trim_start(space, rest);
}

/// A line that does not start with `##` is kept, and so is one that starts with `###`, without the first.
pub proof fn law_text(line: Seq<char>)
    ensures
        line.len() < 2 || line[0] != '#' || line[1] != '#' ==> line_of(line) == LineView::Text(line),
        line.len() >= 3 && line[0] == '#' && line[1] == '#' && line[2] == '#' ==> line_of(line)
            == LineView::Text(line.skip(1)),
{
    if has_hashes(line, 3) {
        assert(line[0] == '#' && line[1] == '#' && line[2] == '#');
    }
    if has_hashes(line, 2) {
        assert(line[0] == '#' && line[1] == '#');
    }
}

} // verus!
