use vstd::prelude::*;

use crate::args_parser::strings_view;
use crate::text::{join_seq, join_text};

verus! {

/// A command that runs in a child process, like an external program.
#[derive(PartialEq, Eq, Structural, Clone, Copy, Debug)]
pub enum Builtin {
    Echo,
    Type,
    Pwd,
    History,
}

/// A command that must run in the shell process itself, because it changes the shell's own state.
#[derive(PartialEq, Eq, Structural, Clone, Copy, Debug)]
pub enum ShellCommand {
    Exit,
    Cd,
}

pub open spec fn builtin_of(name: Seq<char>) -> Option<Builtin> {
    if name == seq!['e', 'c', 'h', 'o'] {
        Some(Builtin::Echo)
    } else if name == seq!['t', 'y', 'p', 'e'] {
        Some(Builtin::Type)
    } else if name == seq!['p', 'w', 'd'] {
        Some(Builtin::Pwd)
    } else if name == seq!['h', 'i', 's', 't', 'o', 'r', 'y'] {
        Some(Builtin::History)
    } else {
        None
    }
}

pub open spec fn shell_command_of(name: Seq<char>) -> Option<ShellCommand> {
    if name == seq!['e', 'x', 'i', 't'] {
        Some(ShellCommand::Exit)
    } else if name == seq!['c', 'd'] {
        Some(ShellCommand::Cd)
    } else {
        None
    }
}

/// Whether `a` and `b` hold the same characters.
pub fn same_text(a: &str, b: &str) -> (r: bool)
    ensures
        r == (a@ == b@),
{
    let n = a.unicode_len();
    if n != b.unicode_len() {
        return false;
    }
    let mut i: usize = 0;
    while i < n
        invariant
            n == a@.len(),
            n == b@.len(),
            i <= n,
            a@.take(i as int) == b@.take(i as int),
        decreases n - i,
    {
        if a.get_char(i) != b.get_char(i) {
            assert(a@.take(i + 1)[i as int] != b@.take(i + 1)[i as int]);
            return false;
        }
        assert(a@.take(i + 1) =~= a@.take(i as int).push(a@[i as int]));
        assert(b@.take(i + 1) =~= b@.take(i as int).push(b@[i as int]));
        i = i + 1;
    }
    assert(a@.take(n as int) == a@);
    assert(b@.take(n as int) == b@);
    true
}

/// The builtin called `name`, if any.
pub fn find_builtin(name: &str) -> (r: Option<Builtin>)
    ensures
        r == builtin_of(name@),
{
    proof {
        reveal_strlit("echo");
        reveal_strlit("type");
        reveal_strlit("pwd");
        reveal_strlit("history");
    }
    if same_text(name, "echo") {
        assert("echo"@ =~= seq!['e', 'c', 'h', 'o']);
        Some(Builtin::Echo)
    } else if same_text(name, "type") {
        assert("type"@ =~= seq!['t', 'y', 'p', 'e']);
        assert(name@ != seq!['e', 'c', 'h', 'o']) by {
            if name@ == seq!['e', 'c', 'h', 'o'] {
                assert("echo"@ =~= name@);
            }
        }
        Some(Builtin::Type)
    } else if same_text(name, "pwd") {
        assert("pwd"@ =~= seq!['p', 'w', 'd']);
        assert(name@.len() == 3);
        Some(Builtin::Pwd)
    } else if same_text(name, "history") {
        assert("history"@ =~= seq!['h', 'i', 's', 't', 'o', 'r', 'y']);
        assert(name@.len() == 7);
        Some(Builtin::History)
    } else {
        assert(name@ != seq!['e', 'c', 'h', 'o']) by {
            if name@ == seq!['e', 'c', 'h', 'o'] {
                assert("echo"@ =~= name@);
            }
        }
        assert(name@ != seq!['t', 'y', 'p', 'e']) by {
            if name@ == seq!['t', 'y', 'p', 'e'] {
                assert("type"@ =~= name@);
            }
        }
        assert(name@ != seq!['p', 'w', 'd']) by {
            if name@ == seq!['p', 'w', 'd'] {
                assert("pwd"@ =~= name@);
            }
        }
        assert(name@ != seq!['h', 'i', 's', 't', 'o', 'r', 'y']) by {
            if name@ == seq!['h', 'i', 's', 't', 'o', 'r', 'y'] {
                assert("history"@ =~= name@);
            }
        }
        None
    }
}

/// The shell command called `name`, if any.
pub fn find_shell_command(name: &str) -> (r: Option<ShellCommand>)
    ensures
        r == shell_command_of(name@),
{
    proof {
        reveal_strlit("exit");
        reveal_strlit("cd");
    }
    if same_text(name, "exit") {
        assert("exit"@ =~= seq!['e', 'x', 'i', 't']);
        Some(ShellCommand::Exit)
    } else if same_text(name, "cd") {
        assert("cd"@ =~= seq!['c', 'd']);
        assert(name@.len() == 2);
        Some(ShellCommand::Cd)
    } else {
        assert(name@ != seq!['e', 'x', 'i', 't']) by {
            if name@ == seq!['e', 'x', 'i', 't'] {
                assert("exit"@ =~= name@);
            }
        }
        assert(name@ != seq!['c', 'd']) by {
            if name@ == seq!['c', 'd'] {
                assert("cd"@ =~= name@);
            }
        }
        None
    }
}

/// The names of all builtins and shell commands.
pub open spec fn command_names() -> Seq<Seq<char>> {
    seq![
        seq!['e', 'c', 'h', 'o'],
        seq!['t', 'y', 'p', 'e'],
        seq!['p', 'w', 'd'],
        seq!['h', 'i', 's', 't', 'o', 'r', 'y'],
        seq!['e', 'x', 'i', 't'],
        seq!['c', 'd'],
    ]
}

/// The command registry of the shell, and the history file it appends each dispatched line to.
pub struct Interpreter {
    /// Descriptor of the history file, opened for appending.
    pub history: i32,
}

impl Interpreter {
    /// An interpreter that records its history on the open descriptor `history`.
    pub fn new(history: i32) -> (r: Interpreter)
        ensures
            r.history == history,
    {
        Interpreter { history }
    }

    /// The names of the builtins, then those of the shell commands.
    pub fn get_builtins(&self) -> (names: Vec<String>)
        ensures
            strings_view(names@) == command_names(),
    {
        let mut names: Vec<String> = Vec::new();
        names.push(String::from_str("echo"));
        names.push(String::from_str("type"));
        names.push(String::from_str("pwd"));
        names.push(String::from_str("history"));
        names.push(String::from_str("exit"));
        names.push(String::from_str("cd"));
        proof {
            reveal_strlit("echo");
            reveal_strlit("type");
            reveal_strlit("pwd");
            reveal_strlit("history");
            reveal_strlit("exit");
            reveal_strlit("cd");
            assert("echo"@ =~= command_names()[0]);
            assert("type"@ =~= command_names()[1]);
            assert("pwd"@ =~= command_names()[2]);
            assert("history"@ =~= command_names()[3]);
            assert("exit"@ =~= command_names()[4]);
            assert("cd"@ =~= command_names()[5]);
            assert(strings_view(names@) =~= command_names());
        }
        names
    }

    /// The builtin called `name`, if any.
    pub fn builtin(&self, name: &str) -> (r: Option<Builtin>)
        ensures
            r == builtin_of(name@),
    {
        find_builtin(name)
    }

    /// The shell command called `name`, if any.
    pub fn shell_command(&self, name: &str) -> (r: Option<ShellCommand>)
        ensures
            r == shell_command_of(name@),
    {
        find_shell_command(name)
    }
}


/// What `echo` prints, without the line break: its arguments separated by single spaces.
pub fn echo_line(args: &Vec<String>) -> (r: String)
    ensures
        r@ == join_seq(strings_view(args@), ' '),
{
    join_text(args, ' ')
}

/// `name` is a builtin or a shell command.
pub open spec fn is_command_name(name: Seq<char>) -> bool {
    builtin_of(name) is Some || shell_command_of(name) is Some
}

/// What `type name` prints, without the line break, `exe` being the executable that the search path
/// gives for `name`.
pub open spec fn type_report_spec(name: Seq<char>, exe: Option<Seq<char>>) -> Seq<char> {
    if is_command_name(name) {
        name + " is a shell builtin"@
    } else {
        match exe {
            Some(p) => name + " is "@ + p,
            None => name + ": not found"@,
        }
    }
}

/// What `type name` prints, without the line break.
pub fn type_report(name: &str, exe: Option<&str>) -> (r: String)
    ensures
        r@ == type_report_spec(
            name@,
            match exe {
                Some(p) => Some(p@),
                None => None,
            },
        ),
{
    let mut r = String::from_str(name);
    if find_builtin(name).is_some() || find_shell_command(name).is_some() {
        r.append(" is a shell builtin");
    } else {
        match exe {
            Some(p) => {
                r.append(" is ");
                r.append(p);
                assert(r@ =~= name@ + " is "@ + p@);
            },
            None => {
                r.append(": not found");
            },
        }
    }
    r
}

/// What `pwd` prints, without the line break, `pwd` being the current directory or empty when it
/// could not be read.
pub fn pwd_report(pwd: &str) -> (r: String)
    ensures
        pwd@.len() == 0 ==> r@ == "Error excuting getcwd"@,
        pwd@.len() > 0 ==> r@ == pwd@,
{
    if pwd.unicode_len() == 0 {
        String::from_str("Error excuting getcwd")
    } else {
        String::from_str(pwd)
    }
}

/// What `cd` prints when it cannot change to `dir`.
pub fn cd_failure_message(dir: &str) -> (r: String)
    ensures
        r@ == "cd: "@ + dir@ + ": No such file or directory"@,
{
    let mut r = String::from_str("cd: ");
    r.append(dir);
    r.append(": No such file or directory");
    r
}

/// The value of a decimal digit character.
pub open spec fn digit_value(c: char) -> int {
    c as int - '0' as int
}

pub open spec fn is_digit(c: char) -> bool {
    '0' <= c && c <= '9'
}

/// The number that a sequence of decimal digits writes.
pub open spec fn digits_value(d: Seq<char>) -> int
    decreases d.len(),
{
    if d.len() == 0 {
        0
    } else {
        10 * digits_value(d.drop_last()) + digit_value(d.last())
    }
}

/// The `i32` that `s` writes: an optional `+` or `-`, then one or more decimal digits, and a value
/// in range; `None` for anything else.
pub open spec fn parse_i32_spec(s: Seq<char>) -> Option<int> {
    let neg = s.len() > 0 && s[0] == '-';
    let signed = s.len() > 0 && (s[0] == '-' || s[0] == '+');
    let d = if signed {
        s.skip(1)
    } else {
        s
    };
    let v = if neg {
        -digits_value(d)
    } else {
        digits_value(d)
    };
    if d.len() > 0 && (forall|k: int| 0 <= k < d.len() ==> is_digit(#[trigger] d[k])) && i32::MIN
        <= v <= i32::MAX {
        Some(v)
    } else {
        None
    }
}

/// Relies on `str::parse::<i32>` (`i32::from_str`): an optional sign, then decimal digits only,
/// and a value in range; anything else is an error.
#[verifier::external_body]
fn parse_i32(s: &str) -> (r: Option<i32>)
    ensures
        r is Some == parse_i32_spec(s@) is Some,
        r matches Some(v) ==> v as int == parse_i32_spec(s@)->0,
{
    s.parse::<i32>().ok()
}

/// The status that `exit` ends the shell with: its first argument read as an `i32`, or 0 when
/// there is none or it is not one.
pub fn exit_status(args: &Vec<String>) -> (r: i32)
    ensures
        args@.len() == 0 ==> r == 0,
        args@.len() > 0 ==> r as int == match parse_i32_spec(args@[0]@) {
            Some(v) => v,
            None => 0,
        },
{
    if args.len() == 0 {
        return 0;
    }
    match parse_i32(args[0].as_str()) {
        Some(v) => v,
        None => 0,
    }
}

} // verus!
