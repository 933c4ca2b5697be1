use vstd::prelude::*;

use crate::args_parser::{lemma_strings_view_push, push_char, strings_view};

verus! {

/// `s` cut at every `sep`: `n` separators give `n + 1` pieces, some possibly empty.
pub open spec fn split_seq(s: Seq<char>, sep: char) -> Seq<Seq<char>>
    decreases s.len(),
{
    if s.len() == 0 {
        seq![Seq::empty()]
    } else {
        let r = split_seq(s.drop_last(), sep);
        if s.last() == sep {
            r.push(Seq::empty())
        } else {
            r.update(r.len() - 1, r.last().push(s.last()))
        }
    }
}

pub proof fn lemma_split_seq_nonempty(s: Seq<char>, sep: char)
    ensures
        split_seq(s, sep).len() >= 1,
    decreases s.len(),
{
    if s.len() > 0 {
        lemma_split_seq_nonempty(s.drop_last(), sep);
    }
}

/// The pieces of `v` with `sep` between each two.
pub open spec fn join_seq(v: Seq<Seq<char>>, sep: char) -> Seq<char>
    decreases v.len(),
{
    if v.len() == 0 {
        Seq::empty()
    } else if v.len() == 1 {
        v[0]
    } else {
        join_seq(v.drop_last(), sep).push(sep) + v.last()
    }
}

/// Cuts `s` at every `sep`.
pub fn split_text(s: &str, sep: char) -> (r: Vec<String>)
    ensures
        strings_view(r@) == split_seq(s@, sep),
{
    let n = s.unicode_len();
    let mut pieces: Vec<String> = Vec::new();
    let mut current = String::new();
    let mut i: usize = 0;
    proof {
        assert(s@.take(0) =~= Seq::<char>::empty());
        assert(strings_view(pieces@).push(current@) =~= split_seq(s@.take(0), sep));
    }
    while i < n
        invariant
            n == s@.len(),
            i <= n,
            strings_view(pieces@).push(current@) == split_seq(s@.take(i as int), sep),
        decreases n - i,
    {
        proof {
            assert(s@.take(i + 1).drop_last() =~= s@.take(i as int));
            lemma_split_seq_nonempty(s@.take(i as int), sep);
        }
        let c = s.get_char(i);
        let ghost before = pieces@;
        if c == sep {
            let done = current;
            pieces.push(done);
            current = String::new();
            proof {
                lemma_strings_view_push(before, done);
                assert(strings_view(pieces@).push(current@) =~= split_seq(s@.take(i + 1), sep));
            }
        } else {
            push_char(&mut current, c);
            proof {
                assert(strings_view(pieces@).push(current@) =~= split_seq(s@.take(i + 1), sep));
            }
        }
        i = i + 1;
    }
    let ghost before = pieces@;
    pieces.push(current);
    proof {
        lemma_strings_view_push(before, current);
        assert(s@.take(n as int) =~= s@);
    }
    pieces
}

/// The pieces of `v` joined with `sep`.
pub fn join_text(v: &Vec<String>, sep: char) -> (r: String)
    ensures
        r@ == join_seq(strings_view(v@), sep),
{
    let mut r = String::new();
    let mut i: usize = 0;
    proof {
        assert(strings_view(v@).take(0) =~= Seq::<Seq<char>>::empty());
    }
    while i < v.len()
        invariant
            i <= v@.len(),
            r@ == join_seq(strings_view(v@).take(i as int), sep),
        decreases v@.len() - i,
    {
        proof {
            assert(strings_view(v@).take(i + 1).drop_last() =~= strings_view(v@).take(i as int));
        }
        if i > 0 {
            push_char(&mut r, sep);
        }
        r.append(v[i].as_str());
        proof {
            if i == 0 {
                assert(r@ =~= strings_view(v@).take(1)[0]);
            }
        }
        i = i + 1;
    }
    proof {
        assert(strings_view(v@).take(i as int) =~= strings_view(v@));
    }
    r
}

/// The pieces of `v` that are not empty.
pub open spec fn non_empty(v: Seq<Seq<char>>) -> Seq<Seq<char>> {
    v.filter(|p: Seq<char>| p.len() > 0)
}

/// The directory segments after applying each part of a relative path in turn: `.` stays, `..`
/// drops the last segment if there is one, anything else is appended.
pub open spec fn apply_parts(segments: Seq<Seq<char>>, parts: Seq<Seq<char>>) -> Seq<Seq<char>>
    decreases parts.len(),
{
    if parts.len() == 0 {
        segments
    } else {
        let s = apply_parts(segments, parts.drop_last());
        let p = parts.last();
        if p == "."@ {
            s
        } else if p == ".."@ {
            if s.len() == 0 {
                s
            } else {
                s.drop_last()
            }
        } else {
            s.push(p)
        }
    }
}

/// The directory that `cd` changes to: `~` (also when no argument is given) is the home directory,
/// or `/root` without one; an absolute path stays as it is; a relative one is resolved against
/// the segments of the current directory `pwd`.
pub open spec fn cd_target_spec(arg: Option<Seq<char>>, home: Option<Seq<char>>, pwd: Seq<char>) -> Seq<char> {
    let dir = match arg {
        Some(a) => a,
        None => "~"@,
    };
    if dir == "~"@ {
        match home {
            Some(h) => h,
            None => "/root"@,
        }
    } else if dir.len() > 0 && dir[0] == '/' {
        dir
    } else {
        seq!['/'] + join_seq(apply_parts(non_empty(split_seq(pwd, '/')), split_seq(dir, '/')), '/')
    }
}

/// The segments of `v` that are not empty.
fn keep_non_empty(v: &Vec<String>) -> (r: Vec<String>)
    ensures
        strings_view(r@) == non_empty(strings_view(v@)),
{
    let mut r: Vec<String> = Vec::new();
    let mut i: usize = 0;
    while i < v.len()
        invariant
            i <= v@.len(),
            strings_view(r@) == non_empty(strings_view(v@).take(i as int)),
        decreases v@.len() - i,
    {
        let ghost before = r@;
        proof {
            assert(strings_view(v@).take(i + 1) =~= strings_view(v@).take(i as int).push(v@[i as int]@));
            strings_view(v@).take(i as int).lemma_filter_push(v@[i as int]@, |p: Seq<char>| p.len() > 0);
        }
        if v[i].as_str().unicode_len() > 0 {
            r.push(v[i].clone());
            proof {
                lemma_strings_view_push(before, v@[i as int]);
            }
        }
        i = i + 1;
    }
    proof {
        assert(strings_view(v@).take(i as int) =~= strings_view(v@));
    }
    r
}

/// The directory that `cd` changes to, given its argument, the home directory and the current
/// directory.
pub fn cd_target(arg: Option<&str>, home: Option<&str>, pwd: &str) -> (r: String)
    ensures
        r@ == cd_target_spec(
            match arg {
                Some(a) => Some(a@),
                None => None,
            },
            match home {
                Some(h) => Some(h@),
                None => None,
            },
            pwd@,
        ),
{
    let dir: &str = match arg {
        Some(a) => a,
        None => "~",
    };
    if crate::interpreter::same_text(dir, "~") {
        return match home {
            Some(h) => String::from_str(h),
            None => String::from_str("/root"),
        };
    }
    if dir.unicode_len() > 0 && dir.get_char(0) == '/' {
        return String::from_str(dir);
    }
    let parts = split_text(dir, '/');
    let mut segments = keep_non_empty(&split_text(pwd, '/'));
    let ghost start = strings_view(segments@);
    let mut i: usize = 0;
    proof {
        assert(strings_view(parts@).take(0) =~= Seq::<Seq<char>>::empty());
    }
    while i < parts.len()
        invariant
            i <= parts@.len(),
            strings_view(segments@) == apply_parts(start, strings_view(parts@).take(i as int)),
        decreases parts@.len() - i,
    {
        proof {
            assert(strings_view(parts@).take(i + 1).drop_last() =~= strings_view(parts@).take(i as int));
        }
        let part = parts[i].as_str();
        if crate::interpreter::same_text(part, ".") {
        } else if crate::interpreter::same_text(part, "..") {
            if segments.len() > 0 {
                let ghost before = segments@;
                segments.pop();
                proof {
                    assert(strings_view(segments@) =~= strings_view(before).drop_last());
                }
            }
        } else {
            let ghost before = segments@;
            segments.push(parts[i].clone());
            proof {
                lemma_strings_view_push(before, parts@[i as int]);
            }
        }
        i = i + 1;
    }
    proof {
        assert(strings_view(parts@).take(i as int) =~= strings_view(parts@));
    }
    let joined = join_text(&segments, '/');
    let mut r = String::new();
    push_char(&mut r, '/');
    r.append(joined.as_str());
    proof {
        assert(r@ =~= seq!['/'] + joined@);
    }
    r
}


/// The segments left after `..`: all but the last, and none at the root.
pub open spec fn parent_segments(segments: Seq<Seq<char>>) -> Seq<Seq<char>> {
    if segments.len() == 0 {
        segments
    } else {
        segments.drop_last()
    }
}

/// The segments of the current directory `pwd`.
pub open spec fn pwd_segments(pwd: Seq<char>) -> Seq<Seq<char>> {
    non_empty(split_seq(pwd, '/'))
}

proof fn lemma_split_then_piece(p: Seq<char>, c: Seq<char>)
    requires
        forall|k: int| 0 <= k < c.len() ==> #[trigger] c[k] != '/',
    ensures
        split_seq(p.push('/') + c, '/') == split_seq(p, '/').push(c),
    decreases c.len(),
{
    lemma_split_seq_nonempty(p, '/');
    if c.len() == 0 {
        assert(p.push('/') + c =~= p.push('/'));
        assert(p.push('/').drop_last() =~= p);
        assert(c =~= Seq::<char>::empty());
    } else {
        let c0 = c.drop_last();
        assert forall|k: int| 0 <= k < c0.len() implies #[trigger] c0[k] != '/' by {
            assert(c0[k] == c[k]);
        }
        lemma_split_then_piece(p, c0);
        assert((p.push('/') + c).drop_last() =~= p.push('/') + c0);
        assert((p.push('/') + c).last() == c.last());
        assert(c0.push(c.last()) =~= c);
        assert(c[c.len() - 1] != '/');
        let r = split_seq(p, '/').push(c0);
        assert(r.update(r.len() - 1, r.last().push(c.last())) =~= split_seq(p, '/').push(c));
    }
}

proof fn lemma_split_dot_dot()
    ensures
        split_seq(seq!['.', '.'], '/') == seq![".."@],
{
    reveal_strlit("..");
    let e = Seq::<char>::empty();
    assert(seq!['.', '.'].drop_last() =~= seq!['.']);
    assert(seq!['.'].drop_last() =~= e);
    assert(split_seq(e, '/') == seq![e]);
    assert(split_seq(seq!['.'], '/') =~= seq![seq!['.']]);
    assert(seq!['.', '.'].last() == '.');
    assert(seq!['.'].push('.') =~= seq!['.', '.']);
    assert(split_seq(seq!['.', '.'], '/') =~= seq![seq!['.', '.']]);
    assert(".."@ =~= seq!['.', '.']);
}

/// `cd ..` changes to the parent of the current directory, and stays at `/` at the root.
pub proof fn lemma_cd_parent(home: Option<Seq<char>>, pwd: Seq<char>)
    ensures
        cd_target_spec(Some(".."@), home, pwd) == seq!['/'] + join_seq(parent_segments(pwd_segments(pwd)), '/'),
        pwd_segments(pwd).len() == 0 ==> cd_target_spec(Some(".."@), home, pwd) == seq!['/'],
{
    reveal_strlit("..");
    reveal_strlit("~");
    reveal_strlit(".");
    assert(".."@ =~= seq!['.', '.']);
    lemma_split_dot_dot();
    let parts = seq![".."@];
    let segs = pwd_segments(pwd);
    assert(split_seq(".."@, '/') == parts);
    assert(parts.drop_last() =~= Seq::<Seq<char>>::empty());
    assert(".."@ != "."@);
    assert(".."@ != "~"@);
    assert(apply_parts(segs, parts.drop_last()) == segs);
    assert(apply_parts(segs, parts) == parent_segments(segs));
    if pwd_segments(pwd).len() == 0 {
        assert(join_seq(pwd_segments(pwd), '/') =~= Seq::<char>::empty());
        assert(seq!['/'] + Seq::<char>::empty() =~= seq!['/']);
    }
}

/// `cd ../name`, for a name without `/` other than `.` and `..`, changes to the sibling `name` of
/// the current directory (to `/name` at the root).
pub proof fn lemma_cd_sibling(home: Option<Seq<char>>, pwd: Seq<char>, name: Seq<char>)
    requires
        name.len() > 0,
        name != "."@,
        name != ".."@,
        forall|k: int| 0 <= k < name.len() ==> #[trigger] name[k] != '/',
    ensures
        cd_target_spec(Some(seq!['.', '.', '/'] + name), home, pwd) == seq!['/'] + join_seq(
            parent_segments(pwd_segments(pwd)).push(name),
            '/',
        ),
{
    reveal_strlit("..");
    reveal_strlit("~");
    reveal_strlit(".");
    let dir = seq!['.', '.', '/'] + name;
    assert(seq!['.', '.'].push('/') + name =~= dir);
    lemma_split_then_piece(seq!['.', '.'], name);
    lemma_split_dot_dot();
    let parts = seq![".."@, name];
    assert(split_seq(dir, '/') =~= parts);
    assert(parts.drop_last() =~= seq![".."@]);
    assert(seq![".."@].drop_last() =~= Seq::<Seq<char>>::empty());
    assert(".."@ =~= seq!['.', '.']);
    assert(".."@ != "."@);
    assert(dir != "~"@) by {
        assert(dir.len() != "~"@.len());
    }
    assert(dir[0] == '.');
    let segs = pwd_segments(pwd);
    assert(apply_parts(segs, seq![".."@].drop_last()) == segs);
    assert(apply_parts(segs, parts.drop_last()) == parent_segments(segs));
    assert(parts.last() == name);
    assert(apply_parts(segs, parts) == parent_segments(segs).push(name));
}

} // verus!
