use vstd::prelude::*;

use crate::text::{
    contains, contains_pat, fields, is_whitespace, lemma_split_pat_contains, split, split_fields,
    split_pat, string_of, to_chars, trim, trim_end, trim_range, views, Separators,
};

verus! {

broadcast use vstd::string::group_string_axioms;

/// A command line for the shell, taken apart: its commands between `|`, and the files
/// named for its input and output.
pub struct CommandParameters {
    pub background: bool,
    pub output_file: String,
    pub input_file: String,
    pub pipelined_commands: Vec<String>,
}

/// The words of a command: its fields between white space.
pub fn externalize(command: &String) -> (words: Vec<String>)
    ensures
        views(words@) == fields(command@, Separators::Whitespace),
{
    let chars = to_chars(command.as_str());
    split_fields(&chars, Separators::Whitespace)
}

/// The last command of a pipeline may name an output file after `>`: the command is the
/// text before the first `>`, the file the trimmed text after it (up to a second `>`).
pub open spec fn after_output(last: Seq<char>, before: Seq<char>) -> (Seq<char>, Seq<char>) {
    if contains_pat(last, ">"@) {
        (split_pat(last, ">"@)[0], trim(split_pat(last, ">"@)[1]))
    } else {
        (last, before)
    }
}

/// The first command of a pipeline may name an input file after `<`: the command is the
/// text before the first `<`, the file the trimmed text after it (up to a second `<`).
pub open spec fn after_input(first: Seq<char>, before: Seq<char>) -> (Seq<char>, Seq<char>) {
    if contains_pat(first, "<"@) {
        (split_pat(first, "<"@)[0], trim(split_pat(first, "<"@)[1]))
    } else {
        (first, before)
    }
}

/// The commands after the output file has been taken off the last one.
pub open spec fn output_taken(cmds: Seq<Seq<char>>, out: Seq<char>) -> (Seq<Seq<char>>, Seq<char>) {
    let r = after_output(cmds.last(), out);
    (cmds.update(cmds.len() - 1, r.0), r.1)
}

/// The commands after the input file has been taken off the first one.
pub open spec fn input_taken(cmds: Seq<Seq<char>>, inp: Seq<char>) -> (Seq<Seq<char>>, Seq<char>) {
    let r = after_input(cmds[0], inp);
    (cmds.update(0, r.0), r.1)
}

/// The commands after a final `&` has been taken off the last one.
pub open spec fn background_taken(cmds: Seq<Seq<char>>) -> Seq<Seq<char>> {
    cmds.update(cmds.len() - 1, foreground_part(cmds.last()))
}

/// Reads the line's instructions off a pipeline: a last command that ends with `&` (after
/// trailing white space) puts the pipeline in the background and loses the `&`; then
/// `> file` after its last command names the file its output goes to, and `< file` after
/// its first command names the file its input comes from. The commands keep the text
/// before the redirection; files that are not named stay as they were.
pub fn input_handler(commands: CommandParameters) -> (c: CommandParameters)
    requires
        commands.pipelined_commands.len() >= 1,
    ensures
        ({
            let cmds = views(commands.pipelined_commands@);
            let o = output_taken(background_taken(cmds), commands.output_file@);
            let i = input_taken(o.0, commands.input_file@);
            &&& c.background == (commands.background || in_background(cmds.last()))
            &&& views(c.pipelined_commands@) == i.0
            &&& c.output_file@ == o.1
            &&& c.input_file@ == i.1
        }),
{
    let mut commands = commands;
    let ghost cmds = views(commands.pipelined_commands@);
    let n = commands.pipelined_commands.len();
    let whole = to_chars(commands.pipelined_commands[n - 1].as_str());
    let (end, background) = background_split(&whole);
    if background {
        let fg = string_of(&whole, 0, end);
        assert(whole@.subrange(0, end as int) =~= whole@.take(end as int));
        commands.pipelined_commands.set(n - 1, fg);
        commands.background = true;
    }
    assert(views(commands.pipelined_commands@) =~= background_taken(cmds));
    let ghost v = views(commands.pipelined_commands@);
    let ghost out0 = commands.output_file@;
    let ghost in0 = commands.input_file@;
    let lt = to_chars("<");
    let gt = to_chars(">");
    proof {
        reveal_strlit("<");
        reveal_strlit(">");
    }
    let n = commands.pipelined_commands.len();
    let last = to_chars(commands.pipelined_commands[n - 1].as_str());
    if contains(&last, &gt) {
        let temp = split(&last, &gt);
        proof {
            lemma_split_pat_contains(last@, gt@);
        }
        assert(temp@[0]@ == split_pat(last@, gt@)[0]);
        assert(temp@[1]@ == split_pat(last@, gt@)[1]);
        let file = to_chars(temp[1].as_str());
        let (a, b) = trim_range(&file, 0, file.len());
        assert(file@.subrange(0, file.len() as int) =~= file@);
        commands.output_file = string_of(&file, a, b);
        let cmd = temp[0].clone();
        commands.pipelined_commands.set(n - 1, cmd);
    }
    let ghost o = output_taken(v, out0);
    assert(views(commands.pipelined_commands@) =~= o.0);
    assert(commands.output_file@ == o.1);
    let first = to_chars(commands.pipelined_commands[0].as_str());
    if contains(&first, &lt) {
        let temp = split(&first, &lt);
        proof {
            lemma_split_pat_contains(first@, lt@);
        }
        assert(temp@[0]@ == split_pat(first@, lt@)[0]);
        assert(temp@[1]@ == split_pat(first@, lt@)[1]);
        let file = to_chars(temp[1].as_str());
        let (a, b) = trim_range(&file, 0, file.len());
        assert(file@.subrange(0, file.len() as int) =~= file@);
        commands.input_file = string_of(&file, a, b);
        let cmd = temp[0].clone();
        commands.pipelined_commands.set(0, cmd);
    }
    assert(views(commands.pipelined_commands@) =~= input_taken(o.0, in0).0);
    commands
}

/// A line ends with `&` (after trailing white space): run it in the background.
pub open spec fn in_background(line: Seq<char>) -> bool {
    trim_end(line).len() > 0 && trim_end(line).last() == '&'
}

/// The line without its trailing white space and, when it is there, the final `&`.
pub open spec fn foreground_part(line: Seq<char>) -> Seq<char> {
    if in_background(line) {
        trim_end(line).drop_last()
    } else {
        line
    }
}

/// What the shell does with a line it has read.
pub enum ShellAction {
    /// Nothing was typed: ask again.
    Nothing,
    /// Leave the shell.
    Exit,
    /// Change the working directory to the one named.
    ChangeDir(String),
    /// Run the pipeline.
    Run(CommandParameters),
}

/// The line asks the shell to stop: it is `exit`, with or without one blank after it.
pub open spec fn is_exit(line: Seq<char>) -> bool {
    line == "exit"@ || line == "exit "@
}

/// Bounds `(b, bg)`: `line[..b]` is the line without its trailing white space and a final
/// `&`, and `bg` whether there was such an `&`.
fn background_split(line: &Vec<char>) -> (r: (usize, bool))
    ensures
        r.1 == in_background(line@),
        r.0 <= line.len(),
        line@.take(r.0 as int) == foreground_part(line@),
{
    let mut b = line.len();
    assert(line@.take(b as int) =~= line@);
    while b > 0 && is_whitespace(line[b - 1])
        invariant
            b <= line.len(),
            trim_end(line@) == trim_end(line@.take(b as int)),
        decreases b,
    {
        assert(line@.take(b as int).drop_last() =~= line@.take(b - 1));
        b = b - 1;
    }
    assert(trim_end(line@.take(b as int)) == line@.take(b as int));
    if b > 0 && line[b - 1] == '&' {
        assert(line@.take(b as int).drop_last() =~= line@.take(b - 1));
        (b - 1, true)
    } else {
        assert(line@.take(line.len() as int) =~= line@);
        (line.len(), false)
    }
}

/// What the shell does with a line: nothing for an empty line; stop on `exit`; change
/// directory when the first word is `cd` (to the second word); otherwise run the line as a
/// pipeline of the commands between `|`, in the foreground and with no redirections, until
/// `input_handler` reads them. `None` when the shell cannot go on: the line has no word at
/// all, or `cd` has no directory after it.
pub fn classify(line: &String) -> (a: Option<ShellAction>)
    ensures
        line@.len() == 0 ==> a matches Some(ShellAction::Nothing),
        line@.len() > 0 ==> match a {
            None => fields(line@, Separators::Whitespace).len() == 0 || (!is_exit(line@)
                && fields(line@, Separators::Whitespace)[0] == "cd"@ && fields(
                line@,
                Separators::Whitespace,
            ).len() < 2),
            Some(ShellAction::Nothing) => false,
            Some(ShellAction::Exit) => is_exit(line@) && fields(line@, Separators::Whitespace).len() > 0,
            Some(ShellAction::ChangeDir(dir)) => !is_exit(line@) && fields(line@, Separators::Whitespace).len() >= 2
                && fields(line@, Separators::Whitespace)[0] == "cd"@ && dir@ == fields(
                line@,
                Separators::Whitespace,
            )[1],
            Some(ShellAction::Run(c)) => !is_exit(line@) && fields(line@, Separators::Whitespace).len() > 0
                && fields(line@, Separators::Whitespace)[0] != "cd"@ && views(c.pipelined_commands@)
                == split_pat(line@, "|"@) && !c.background
                && c.input_file@ == " "@ && c.output_file@ == " "@,
        },
{
    if line.as_str().is_empty() {
        return Some(ShellAction::Nothing);
    }
    let words = externalize(line);
    let exit = String::from_str("exit");
    let exit_blank = String::from_str("exit ");
    if *line == exit || *line == exit_blank {
        if words.len() == 0 {
            return None;
        }
        return Some(ShellAction::Exit);
    }
    if words.len() == 0 {
        return None;
    }
    let cd = String::from_str("cd");
    if words[0] == cd {
        if words.len() < 2 {
            return None;
        }
        return Some(ShellAction::ChangeDir(words[1].clone()));
    }
    let chars = to_chars(line.as_str());
    let bar = to_chars("|");
    proof {
        reveal_strlit("|");
    }
    let pipelined_commands = split(&chars, &bar);
    Some(
        ShellAction::Run(
            CommandParameters {
                background: false,
                input_file: String::from_str(" "),
                output_file: String::from_str(" "),
                pipelined_commands,
            },
        ),
    )
}

} // verus!
