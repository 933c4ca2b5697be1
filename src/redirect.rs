use vstd::prelude::*;

use crate::args_parser::{lemma_strings_view_push, strings_view};
use crate::interpreter::same_text;

verus! {

/// A redirection operator.
#[derive(PartialEq, Eq, Structural, Clone, Copy, Debug)]
pub enum Redirect {
    /// `<`: standard input from the file.
    Input,
    /// `>` or `1>`: standard output to the file, truncated.
    Output,
    /// `>>` or `1>>`: standard output appended to the file.
    Append,
    /// `2>`: standard error to the file, truncated.
    ErrOutput,
    /// `2>>`: standard error appended to the file.
    ErrAppend,
    /// `&>`: standard output and standard error to the file, truncated.
    Both,
}

/// The operator that token `t` stands for, if any.
pub open spec fn redirect_of(t: Seq<char>) -> Option<Redirect> {
    if t == "<"@ {
        Some(Redirect::Input)
    } else if t == ">"@ || t == "1>"@ {
        Some(Redirect::Output)
    } else if t == ">>"@ || t == "1>>"@ {
        Some(Redirect::Append)
    } else if t == "2>"@ {
        Some(Redirect::ErrOutput)
    } else if t == "2>>"@ {
        Some(Redirect::ErrAppend)
    } else if t == "&>"@ {
        Some(Redirect::Both)
    } else {
        None
    }
}

/// The operator that `t` stands for, if any.
pub fn find_redirect(t: &str) -> (r: Option<Redirect>)
    ensures
        r == redirect_of(t@),
{
    if same_text(t, "<") {
        Some(Redirect::Input)
    } else if same_text(t, ">") || same_text(t, "1>") {
        Some(Redirect::Output)
    } else if same_text(t, ">>") || same_text(t, "1>>") {
        Some(Redirect::Append)
    } else if same_text(t, "2>") {
        Some(Redirect::ErrOutput)
    } else if same_text(t, "2>>") {
        Some(Redirect::ErrAppend)
    } else if same_text(t, "&>") {
        Some(Redirect::Both)
    } else {
        None
    }
}

/// How a redirection target is opened. Files that are created get mode 0o644.
#[derive(PartialEq, Eq, Structural, Clone, Copy, Debug)]
pub struct OpenMode {
    /// Opened for reading only; otherwise for writing only.
    pub read_only: bool,
    pub create: bool,
    pub truncate: bool,
    pub append: bool,
}

impl Redirect {
    /// How the target of this operator is opened: for reading for `<`; for writing, created and
    /// truncated for `>`, `1>`, `2>` and `&>`; for writing, created and appended to for `>>`,
    /// `1>>` and `2>>`.
    pub fn mode(&self) -> (m: OpenMode)
        ensures
            m.read_only == (*self == Redirect::Input),
            m.create == (*self != Redirect::Input),
            m.truncate == (*self == Redirect::Output || *self == Redirect::ErrOutput || *self
                == Redirect::Both),
            m.append == (*self == Redirect::Append || *self == Redirect::ErrAppend),
    {
        match self {
            Redirect::Input => OpenMode { read_only: true, create: false, truncate: false, append: false },
            Redirect::Output | Redirect::ErrOutput | Redirect::Both => OpenMode {
                read_only: false,
                create: true,
                truncate: true,
                append: false,
            },
            Redirect::Append | Redirect::ErrAppend => OpenMode {
                read_only: false,
                create: true,
                truncate: false,
                append: true,
            },
        }
    }

    /// The descriptor that the opened file replaces: 0 for input, 2 for the standard error
    /// operators, 1 otherwise (for `&>`, descriptor 1 is then copied onto 2 as well).
    pub fn target_fd(&self) -> (fd: i32)
        ensures
            fd == (if *self == Redirect::Input {
                0i32
            } else if *self == Redirect::ErrOutput || *self == Redirect::ErrAppend {
                2i32
            } else {
                1i32
            }),
    {
        match self {
            Redirect::Input => 0,
            Redirect::ErrOutput | Redirect::ErrAppend => 2,
            _ => 1,
        }
    }

    /// Whether standard error then follows standard output (only for `&>`).
    pub fn merges_stderr(&self) -> (r: bool)
        ensures
            r == (*self == Redirect::Both),
    {
        match self {
            Redirect::Both => true,
            _ => false,
        }
    }
}

/// One redirection of a stage: the operator and the path it names.
pub struct Redirection {
    pub op: Redirect,
    pub target: String,
}

/// A stage's arguments with the redirections taken out.
pub struct Scanned {
    pub argv: Vec<String>,
    pub redirections: Vec<Redirection>,
}

/// The arguments left and the redirections found, scanning `t` left to right: an operator takes
/// the next token as its path. `None` when an operator is last.
pub open spec fn scan_tokens(t: Seq<Seq<char>>) -> Option<(Seq<Seq<char>>, Seq<(Redirect, Seq<char>)>)>
    decreases t.len(),
{
    if t.len() == 0 {
        Some((Seq::empty(), Seq::empty()))
    } else {
        match redirect_of(t[0]) {
            Some(op) => {
                if t.len() < 2 {
                    None
                } else {
                    match scan_tokens(t.skip(2)) {
                        Some(rest) => Some((rest.0, seq![(op, t[1])] + rest.1)),
                        None => None,
                    }
                }
            },
            None => match scan_tokens(t.skip(1)) {
                Some(rest) => Some((seq![t[0]] + rest.0, rest.1)),
                None => None,
            },
        }
    }
}

/// The operators and paths of a vector of redirections.
pub open spec fn redirections_view(v: Seq<Redirection>) -> Seq<(Redirect, Seq<char>)> {
    v.map_values(|r: Redirection| (r.op, r.target@))
}

/// Prefixes `args` and `redirs` to the outcome of a scan.
pub open spec fn prefixed(
    args: Seq<Seq<char>>,
    redirs: Seq<(Redirect, Seq<char>)>,
    rest: Option<(Seq<Seq<char>>, Seq<(Redirect, Seq<char>)>)>,
) -> Option<(Seq<Seq<char>>, Seq<(Redirect, Seq<char>)>)> {
    match rest {
        Some(r) => Some((args + r.0, redirs + r.1)),
        None => None,
    }
}

/// Takes the redirections out of a stage's arguments; `None` when an operator has no path after
/// it.
pub fn scan_redirections(argv: &Vec<String>) -> (r: Option<Scanned>)
    ensures
        match scan_tokens(strings_view(argv@)) {
            None => r is None,
            Some(s) => (r matches Some(sc) && strings_view(sc.argv@) == s.0 && redirections_view(
                sc.redirections@,
            ) == s.1),
        },
{
    let ghost t = strings_view(argv@);
    let mut args: Vec<String> = Vec::new();
    let mut redirs: Vec<Redirection> = Vec::new();
    let n = argv.len();
    let mut i: usize = 0;
    proof {
        assert(t.skip(0) =~= t);
        assert(strings_view(args@) =~= Seq::<Seq<char>>::empty());
        assert(redirections_view(redirs@) =~= Seq::<(Redirect, Seq<char>)>::empty());
        assert(prefixed(Seq::empty(), Seq::empty(), scan_tokens(t)) =~= scan_tokens(t)) by {
            match scan_tokens(t) {
                Some(r) => {
                    assert(Seq::<Seq<char>>::empty() + r.0 =~= r.0);
                    assert(Seq::<(Redirect, Seq<char>)>::empty() + r.1 =~= r.1);
                },
                None => {},
            }
        }
    }
    while i < n
        invariant
            n == argv@.len(),
            t == strings_view(argv@),
            i <= n,
            scan_tokens(t) == prefixed(
                strings_view(args@),
                redirections_view(redirs@),
                scan_tokens(t.skip(i as int)),
            ),
        decreases n - i,
    {
        let ghost rest = t.skip(i as int);
        assert(rest[0] == argv@[i as int]@);
        match find_redirect(argv[i].as_str()) {
            Some(op) => {
                if i + 1 >= n {
                    assert(scan_tokens(rest) is None);
                    return None;
                }
                let ghost before = redirs@;
                redirs.push(Redirection { op, target: argv[i + 1].clone() });
                proof {
                    assert(rest.skip(2) =~= t.skip(i + 2));
                    assert(rest[1] == argv@[i + 1]@);
                    assert(redirections_view(redirs@) =~= redirections_view(before).push((op, rest[1])));
                    match scan_tokens(t.skip(i + 2)) {
                        Some(r) => {
                            assert(redirections_view(before) + (seq![(op, rest[1])] + r.1)
                                =~= redirections_view(redirs@) + r.1);
                        },
                        None => {},
                    }
                }
                i = i + 2;
            },
            None => {
                let ghost before = args@;
                args.push(argv[i].clone());
                proof {
                    lemma_strings_view_push(before, argv@[i as int]);
                    assert(rest.skip(1) =~= t.skip(i + 1));
                    match scan_tokens(t.skip(i + 1)) {
                        Some(r) => {
                            assert(strings_view(before) + (seq![rest[0]] + r.0) =~= strings_view(args@)
                                + r.0);
                        },
                        None => {},
                    }
                }
                i = i + 1;
            },
        }
    }
    proof {
        assert(t.skip(n as int) =~= Seq::<Seq<char>>::empty());
        assert(strings_view(args@) + Seq::<Seq<char>>::empty() =~= strings_view(args@));
        assert(redirections_view(redirs@) + Seq::<(Redirect, Seq<char>)>::empty() =~= redirections_view(
            redirs@,
        ));
    }
    Some(Scanned { argv: args, redirections: redirs })
}

} // verus!
