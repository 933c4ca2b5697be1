use vstd::prelude::*;

use crate::text::join_seq;

verus! {

/// Where the tokenizer stands between two characters of the input.
#[derive(PartialEq, Eq, Structural, Clone, Copy, Debug)]
pub enum State {
    Normal,
    InQuotes,
    InDoubleQuotes,
    /// After a backslash; the flag tells whether it stood inside double quotes.
    Escape(bool),
}

/// What has been read so far: the finished tokens, the token in progress and the state.
pub struct Scan {
    pub tokens: Seq<Seq<char>>,
    pub current: Seq<char>,
    pub state: State,
}

/// Newlines count as spaces.
pub open spec fn normalized(c: char) -> char {
    if c == '\n' {
        ' '
    } else {
        c
    }
}

/// The characters that keep their meaning after a backslash inside double quotes.
pub open spec fn escapable_in_double_quotes(c: char) -> bool {
    c == '\\' || c == '"' || c == '$' || c == '`'
}

/// One transition of the quoting state machine on the (normalized) character `c`.
pub open spec fn step(sc: Scan, c: char) -> Scan {
    match sc.state {
        State::Normal => {
            if c == '\'' {
                Scan { state: State::InQuotes, ..sc }
            } else if c == '"' {
                Scan { state: State::InDoubleQuotes, ..sc }
            } else if c == ' ' {
                if sc.current.len() == 0 {
                    sc
                } else {
                    Scan { tokens: sc.tokens.push(sc.current), current: Seq::empty(), state: State::Normal }
                }
            } else if c == '\\' {
                Scan { state: State::Escape(false), ..sc }
            } else {
                Scan { current: sc.current.push(c), ..sc }
            }
        },
        State::InQuotes => {
            if c == '\'' {
                Scan { state: State::Normal, ..sc }
            } else {
                Scan { current: sc.current.push(c), ..sc }
            }
        },
        State::InDoubleQuotes => {
            if c == '"' {
                Scan { state: State::Normal, ..sc }
            } else if c == '\\' {
                Scan { state: State::Escape(true), ..sc }
            } else {
                Scan { current: sc.current.push(c), ..sc }
            }
        },
        State::Escape(quote) => {
            let next = if quote {
                State::InDoubleQuotes
            } else {
                State::Normal
            };
            if quote && !escapable_in_double_quotes(c) {
                Scan { tokens: sc.tokens, current: sc.current.push('\\').push(c), state: next }
            } else {
                Scan { tokens: sc.tokens, current: sc.current.push(c), state: next }
            }
        },
    }
}

/// The scan after reading all of `s`, left to right, from the start state.
pub open spec fn scan(s: Seq<char>) -> Scan
    decreases s.len(),
{
    if s.len() == 0 {
        Scan { tokens: Seq::empty(), current: Seq::empty(), state: State::Normal }
    } else {
        step(scan(s.drop_last()), normalized(s.last()))
    }
}

/// The tokens of a command line: the finished ones, then the one in progress if it is not empty
/// (an unterminated quote or escape still yields its token).
pub open spec fn tokenize(s: Seq<char>) -> Seq<Seq<char>> {
    let sc = scan(s);
    if sc.current.len() == 0 {
        sc.tokens
    } else {
        sc.tokens.push(sc.current)
    }
}

/// The views of a vector of strings.
pub open spec fn strings_view(v: Seq<String>) -> Seq<Seq<char>> {
    v.map_values(|s: String| s@)
}

pub proof fn lemma_strings_view_push(v: Seq<String>, s: String)
    ensures
        strings_view(v.push(s)) == strings_view(v).push(s@),
{
    assert(strings_view(v.push(s)) =~= strings_view(v).push(s@));
}

/// Relies on String::push: appends one character.
#[verifier::external_body]
pub(crate) fn push_char(s: &mut String, c: char)
    ensures
        final(s)@ == old(s)@.push(c),
{
    s.push(c);
}

/// Splits a command line into arguments, honouring single quotes, double quotes and backslash
/// escapes. No token is empty.
pub fn parse_args(cmd: &str) -> (tokens: Vec<String>)
    ensures
        strings_view(tokens@) == tokenize(cmd@),
{
    let mut tokens: Vec<String> = Vec::new();
    let mut arg = String::new();
    let mut in_progress = false;
    let mut state = State::Normal;
    let n = cmd.unicode_len();
    let mut i: usize = 0;
    while i < n
        invariant
            n == cmd@.len(),
            i <= n,
            in_progress == (arg@.len() > 0),
            strings_view(tokens@) == scan(cmd@.take(i as int)).tokens,
            arg@ == scan(cmd@.take(i as int)).current,
            state == scan(cmd@.take(i as int)).state,
        decreases n - i,
    {
        proof {
            assert(cmd@.take(i + 1).drop_last() == cmd@.take(i as int));
        }
        let raw = cmd.get_char(i);
        let ch = if raw == '\n' {
            ' '
        } else {
            raw
        };
        match state {
            State::Normal => {
                if ch == '\'' {
                    state = State::InQuotes;
                } else if ch == '"' {
                    state = State::InDoubleQuotes;
                } else if ch == ' ' {
                    if in_progress {
                        let done = arg;
                        tokens.push(done);
                        arg = String::new();
                        in_progress = false;
                    }
                } else if ch == '\\' {
                    state = State::Escape(false);
                } else {
                    push_char(&mut arg, ch);
                    in_progress = true;
                }
            },
            State::InQuotes => {
                if ch == '\'' {
                    state = State::Normal;
                } else {
                    push_char(&mut arg, ch);
                    in_progress = true;
                }
            },
            State::InDoubleQuotes => {
                if ch == '"' {
                    state = State::Normal;
                } else if ch == '\\' {
                    state = State::Escape(true);
                } else {
                    push_char(&mut arg, ch);
                    in_progress = true;
                }
            },
            State::Escape(quote) => {
                state = if quote {
                    State::InDoubleQuotes
                } else {
                    State::Normal
                };
                if quote && !(ch == '\\' || ch == '"' || ch == '$' || ch == '`') {
                    push_char(&mut arg, '\\');
                    in_progress = true;
                }
                push_char(&mut arg, ch);
                in_progress = true;
            },
        }
        proof {
            assert(strings_view(tokens@) =~= scan(cmd@.take(i + 1)).tokens);
        }
        i = i + 1;
    }
    if in_progress {
        tokens.push(arg);
    }
    proof {
        assert(cmd@.take(n as int) == cmd@);
        assert(strings_view(tokens@) =~= tokenize(cmd@));
    }
    tokens
}


/// A character that the tokenizer copies as it is outside quotes.
pub open spec fn plain_char(c: char) -> bool {
    c != '\'' && c != '"' && c != '\\'
}

/// A character that may stand in a token of plain text.
pub open spec fn word_char(c: char) -> bool {
    plain_char(c) && c != ' ' && c != '\n'
}

pub open spec fn all_word_chars(w: Seq<char>) -> bool {
    forall|k: int| 0 <= k < w.len() ==> word_char(#[trigger] w[k])
}

/// Reading word characters in the normal state extends the token in progress.
proof fn lemma_scan_word(x: Seq<char>, w: Seq<char>)
    requires
        scan(x).state == State::Normal,
        all_word_chars(w),
    ensures
        scan(x + w) == (Scan { tokens: scan(x).tokens, current: scan(x).current + w, state: State::Normal }),
    decreases w.len(),
{
    if w.len() == 0 {
        assert(x + w =~= x);
        assert(scan(x).current + w =~= scan(x).current);
    } else {
        let w0 = w.drop_last();
        assert(all_word_chars(w0)) by {
            assert forall|k: int| 0 <= k < w0.len() implies word_char(#[trigger] w0[k]) by {
                assert(w0[k] == w[k]);
            }
        }
        lemma_scan_word(x, w0);
        assert((x + w).drop_last() =~= x + w0);
        assert((x + w).last() == w.last());
        assert(word_char(w[w.len() - 1]));
        assert(scan(x).current + w0 + seq![w.last()] =~= scan(x).current + w);
        assert((scan(x).current + w0).push(w.last()) =~= scan(x).current + w);
    }
}

/// Joined by spaces, tokens of word characters scan back to themselves, the last one in progress.
proof fn lemma_scan_joined(t: Seq<Seq<char>>)
    requires
        t.len() > 0,
        forall|i: int| 0 <= i < t.len() ==> (#[trigger] t[i]).len() > 0 && all_word_chars(t[i]),
    ensures
        scan(join_seq(t, ' ')) == (Scan { tokens: t.drop_last(), current: t.last(), state: State::Normal }),
    decreases t.len(),
{
    let e = Seq::<char>::empty();
    assert(scan(e) == (Scan { tokens: Seq::<Seq<char>>::empty(), current: e, state: State::Normal }));
    if t.len() == 1 {
        lemma_scan_word(e, t[0]);
        assert(e + t[0] =~= t[0]);
        assert(t.drop_last() =~= Seq::<Seq<char>>::empty());
        assert(e + t[0] =~= t[0]);
    } else {
        let t0 = t.drop_last();
        assert forall|i: int| 0 <= i < t0.len() implies (#[trigger] t0[i]).len() > 0 && all_word_chars(t0[i]) by {
            assert(t0[i] == t[i]);
        }
        lemma_scan_joined(t0);
        let x = join_seq(t0, ' ').push(' ');
        assert(x.drop_last() =~= join_seq(t0, ' '));
        assert(t0.last() == t[t.len() - 2]);
        assert(scan(x) == (Scan { tokens: t0, current: e, state: State::Normal })) by {
            assert(t0.drop_last().push(t0.last()) =~= t0);
        }
        lemma_scan_word(x, t.last());
        assert(e + t.last() =~= t.last());
    }
}

/// The tokens of text without quotes or backslashes are non-empty and made of word characters,
/// and the scan of such text stays in the normal state.
proof fn lemma_plain_tokens(s: Seq<char>)
    requires
        forall|k: int| 0 <= k < s.len() ==> plain_char(#[trigger] s[k]),
    ensures
        scan(s).state == State::Normal,
        all_word_chars(scan(s).current),
        forall|i: int|
            0 <= i < scan(s).tokens.len() ==> (#[trigger] scan(s).tokens[i]).len() > 0
                && all_word_chars(scan(s).tokens[i]),
    decreases s.len(),
{
    if s.len() > 0 {
        let s0 = s.drop_last();
        assert forall|k: int| 0 <= k < s0.len() implies plain_char(#[trigger] s0[k]) by {
            assert(s0[k] == s[k]);
        }
        lemma_plain_tokens(s0);
        let prev = scan(s0);
        let c = normalized(s.last());
        assert(plain_char(s[s.len() - 1]));
        if c != ' ' {
            assert forall|k: int| 0 <= k < prev.current.push(c).len() implies word_char(
                #[trigger] prev.current.push(c)[k],
            ) by {
                if k < prev.current.len() {
                    assert(prev.current.push(c)[k] == prev.current[k]);
                }
            }
        } else if prev.current.len() > 0 {
            assert forall|i: int| 0 <= i < prev.tokens.push(prev.current).len() implies (
            #[trigger] prev.tokens.push(prev.current)[i]).len() > 0 && all_word_chars(
                prev.tokens.push(prev.current)[i],
            ) by {
                if i < prev.tokens.len() {
                    assert(prev.tokens.push(prev.current)[i] == prev.tokens[i]);
                }
            }
        }
    }
}

/// Joining the tokens of text without quotes or backslashes by single spaces, and tokenizing
/// again, gives the same tokens.
pub proof fn lemma_retokenize_plain(s: Seq<char>)
    requires
        forall|k: int| 0 <= k < s.len() ==> plain_char(#[trigger] s[k]),
    ensures
        tokenize(join_seq(tokenize(s), ' ')) == tokenize(s),
{
    lemma_plain_tokens(s);
    let t = tokenize(s);
    let sc = scan(s);
    assert forall|i: int| 0 <= i < t.len() implies (#[trigger] t[i]).len() > 0 && all_word_chars(t[i]) by {
        if i < sc.tokens.len() {
            assert(t[i] == sc.tokens[i]);
        }
    }
    if t.len() == 0 {
        assert(join_seq(t, ' ') =~= Seq::<char>::empty());
        assert(tokenize(Seq::<char>::empty()) =~= Seq::<Seq<char>>::empty());
    } else {
        lemma_scan_joined(t);
        assert(t.drop_last().push(t.last()) =~= t);
    }
}

} // verus!
