//! Composing the prompt in the user's own editor: which one, how it is run, and
//! what is taken back.

use vstd::prelude::*;

use crate::text::{self, from_chars, slice_chars, to_chars, trim_chars};

verus! {

/// The editor a configuration names: what it says without the blanks around it,
/// and `vi` where that is nothing.
pub open spec fn editor(configured: Option<Seq<char>>) -> Seq<char> {
    match configured {
        Some(value) => if text::trim(value).len() == 0 {
            "vi"@
        } else {
            text::trim(value)
        },
        None => "vi"@,
    }
}

/// The editor a configuration names; see [`editor`].
pub fn program(configured: Option<String>) -> (s: String)
    ensures
        s@ == editor(
            match configured {
                Some(value) => Some(value@),
                None => None,
            },
        ),
{
    match configured {
        Some(value) => {
            let trimmed = trim_chars(&to_chars(&value));
            if trimmed.len() == 0 {
                "vi".to_string()
            } else {
                from_chars(&trimmed)
            }
        },
        None => "vi".to_string(),
    }
}

/// What an editor left, without the one line break that is its own: a blank
/// line the user left survives.
pub open spec fn taken_back(s: Seq<char>) -> Seq<char> {
    if s.len() > 0 && s.last() == '\n' {
        s.drop_last()
    } else {
        s
    }
}

/// What is taken back of what an editor left; see [`taken_back`].
pub fn read_back(left: &str) -> (s: String)
    ensures
        s@ == taken_back(left@),
{
    let chars = to_chars(left);
    let n: usize = chars.len();
    if n > 0 && chars[n - 1] == '\n' {
        let kept = slice_chars(&chars, 0, n - 1);
        assert(kept@ =~= left@.drop_last());
        from_chars(&kept)
    } else {
        from_chars(&chars)
    }
}

/// A buffer goes out and comes back unchanged when the editor changes nothing
/// but to end the file with a line break, and so does one that it leaves
/// entirely alone, unless that ends with a line break itself.
pub proof fn law_a_seeded_buffer_comes_back(buffer: Seq<char>)
    ensures
        taken_back(buffer.push('\n')) == buffer,
        buffer.len() == 0 || buffer.last() != '\n' ==> taken_back(buffer) == buffer,
{
    assert(buffer.push('\n').drop_last() =~= buffer);
}

/// The command that runs an editor on a file, a shell and its arguments: the
/// editor is a command line and may carry flags, and the file is an argument of
/// its own, so that nothing in its name becomes part of the command.
pub fn command(shell: &str, program: &str, path: &str) -> (line: Vec<String>)
    ensures
        text::texts(line@) == seq![
            shell@,
            "-c"@,
            program@ + " \"$@\""@,
            program@,
            path@,
        ],
{
    let mut script = String::new();
    script.push_str(program);
    script.push_str(" \"$@\"");
    let ghost run = script@;
    assert(run =~= program@ + " \"$@\""@);
    let line = vec![
        shell.to_string(),
        "-c".to_string(),
        script,
        program.to_string(),
        path.to_string(),
    ];
    assert(text::texts(line@) =~= seq![shell@, "-c"@, run, program@, path@]);
    line
}

/// How an editor's run ended.
#[derive(Clone, Copy, Debug, PartialEq, Eq, Structural)]
pub enum Edited {
    /// The terminal could not be given to it.
    NotReleased,
    /// The terminal could not be taken back.
    NotTaken,
    /// It could not be run.
    NotRun,
    /// It failed.
    Failed,
    /// What it left is to be read back.
    Done,
}

/// What an editor's run came to: the terminal is what is spoken of first, since
/// a refusal the user cannot read is worse than the refusal itself. `ran` says
/// whether it ran, and then whether it succeeded.
pub fn outcome(released: bool, taken: bool, ran: Option<bool>) -> (e: Edited)
    ensures
        e == (if !released {
            Edited::NotReleased
        } else if !taken {
            Edited::NotTaken
        } else {
            match ran {
                None => Edited::NotRun,
                Some(false) => Edited::Failed,
                Some(true) => Edited::Done,
            }
        }),
{
    if !released {
        return Edited::NotReleased;
    }
    if !taken {
        return Edited::NotTaken;
    }
    match ran {
        None => Edited::NotRun,
        Some(success) => if success {
            Edited::Done
        } else {
            Edited::Failed
        },
    }
}

/// The editor is what a configuration names, blanks around it or not, and `vi`
/// where it names none.
pub proof fn law_the_named_editor_is_run(front: Seq<char>, name: Seq<char>, back: Seq<char>)
    requires
        text::all_white(front),
        text::all_white(back),
        name.len() > 0,
        !text::white_space(name[0]),
        !text::white_space(name.last()),
    ensures
        editor(Some(front + name + back)) == name,
        editor(Some(front)) == seq!['v', 'i'],
        editor(None) == seq!['v', 'i'],
{
    reveal_strlit("vi");
    assert("vi"@ =~= seq!['v', 'i']);
    text::law_trimming_leaves_the_middle(front, name, back);
    let m = text::law_trimming_keeps_what_is_between(front);
    if text::trim(front).len() > 0 {
        assert(text::trim(front)[0] == front[m]);
    }
}

} // verus!
