use bytes::BufMut;
use vstd::prelude::*;
use vstd::utf8::*;

use crate::args_parser::{push_char, strings_view};
use crate::trie::Trie;
use crate::utils::{is_longest_common_prefix, longest_common_prefix};

verus! {

broadcast use vstd::seq_lib::group_to_multiset_ensures;

pub const BELL: u8 = 7;

pub const BACKSPACE: u8 = 8;

pub const TAB: u8 = 9;

pub const DELETE: u8 = 0x7f;

/// What `String::from_utf8_lossy` makes of a sequence of bytes.
pub uninterp spec fn lossy_text(b: Seq<u8>) -> Seq<char>;

/// Relies on `String::from_utf8_lossy`: the text of the bytes, which for valid UTF-8 is their
/// decoding.
#[verifier::external_body]
fn utf8_lossy(b: &Vec<u8>) -> (r: String)
    ensures
        r@ == lossy_text(b@),
        valid_utf8(b@) ==> r@ == decode_utf8(b@),
{
    String::from_utf8_lossy(b.as_slice()).into_owned()
}

/// Relies on `bytes::BufMut::put_slice` for `Vec<u8>`, which extends the vector by the slice.
#[verifier::external_body]
fn put_bytes(buf: &mut Vec<u8>, src: &Vec<u8>)
    ensures
        final(buf)@ == old(buf)@ + src@,
{
    buf.put_slice(src.as_slice());
}

/// `a` comes before `b`, or equals it, in byte-wise lexicographic order.
pub open spec fn bytes_le(a: Seq<u8>, b: Seq<u8>) -> bool
    decreases a.len(),
{
    if a.len() == 0 {
        true
    } else if b.len() == 0 {
        false
    } else if a[0] != b[0] {
        a[0] < b[0]
    } else {
        bytes_le(a.drop_first(), b.drop_first())
    }
}

/// The strings of `v` are in the order of `String`'s `Ord`: byte-wise lexicographic on UTF-8.
pub open spec fn sorted_strings(v: Seq<Seq<char>>) -> bool {
    forall|i: int, j: int|
        0 <= i < j < v.len() ==> bytes_le(encode_utf8(#[trigger] v[i]), encode_utf8(#[trigger] v[j]))
}

/// Relies on `<[String]>::sort`: a permutation of the strings, in `String`'s order.
#[verifier::external_body]
fn sort_strings(v: &mut Vec<String>)
    ensures
        strings_view(final(v)@).to_multiset() == strings_view(old(v)@).to_multiset(),
        sorted_strings(strings_view(final(v)@)),
{
    v.sort();
}

/// The candidates listed after a second ambiguous TAB: each followed by two spaces.
pub open spec fn listing(cands: Seq<Seq<char>>) -> Seq<char>
    decreases cands.len(),
{
    if cands.len() == 0 {
        Seq::empty()
    } else {
        listing(cands.drop_last()) + cands.last() + "  "@
    }
}

/// The unique longest common prefix of `cands`.
pub open spec fn lcp_of(cands: Seq<Seq<char>>) -> Seq<char> {
    choose|p: Seq<char>| is_longest_common_prefix(p, cands)
}

/// What TAB does to the line: bytes appended to it, bytes shown, and the latch afterwards.
pub struct CompletionSpec {
    pub append: Seq<u8>,
    pub output: Seq<u8>,
    pub ambiguous: bool,
}

/// TAB with `partial` on the line and the sorted candidates `cands`: no candidate rings the bell;
/// one is completed, with a space after it; several are extended to their longest common prefix,
/// whether or not the latch is set, or, when that adds nothing, ring the bell and latch if it is
/// not set, and are listed if it is.
pub open spec fn completion_spec(
    partial: Seq<char>,
    cands: Seq<Seq<char>>,
    ambiguous: bool,
    prompt: Seq<char>,
) -> CompletionSpec {
    if cands.len() == 0 {
        CompletionSpec { append: Seq::empty(), output: seq![BELL], ambiguous }
    } else if cands.len() == 1 {
        let added = encode_utf8(cands[0].skip(partial.len() as int).push(' '));
        CompletionSpec { append: added, output: added, ambiguous }
    } else if lcp_of(cands) != partial {
        let added = encode_utf8(lcp_of(cands).skip(partial.len() as int));
        CompletionSpec { append: added, output: added, ambiguous }
    } else if ambiguous {
        CompletionSpec {
            append: Seq::empty(),
            output: encode_utf8("\n"@ + listing(cands) + "\n"@ + prompt + partial),
            ambiguous,
        }
    } else {
        CompletionSpec { append: Seq::empty(), output: seq![BELL], ambiguous: true }
    }
}

/// What TAB does: the bytes to append to the line, the bytes to show, and the latch afterwards.
pub struct CompletionStep {
    pub append: Vec<u8>,
    pub output: Vec<u8>,
    pub ambiguous: bool,
}

proof fn lemma_lcp_unique(p: Seq<char>, cands: Seq<Seq<char>>)
    requires
        cands.len() > 0,
        is_longest_common_prefix(p, cands),
    ensures
        lcp_of(cands) == p,
{
    let q = lcp_of(cands);
    assert(is_longest_common_prefix(q, cands));
    assert(p.is_prefix_of(cands[0]) && q.is_prefix_of(cands[0]));
    if p.len() < q.len() {
        let c = q[p.len() as int];
        assert forall|k: int| 0 <= k < cands.len() implies p.push(c).is_prefix_of(#[trigger] cands[k]) by {
            assert(p.is_prefix_of(cands[k]) && q.is_prefix_of(cands[k]));
        }
        assert(crate::utils::common_prefix(p.push(c), cands));
    }
    if q.len() < p.len() {
        let c = p[q.len() as int];
        assert forall|k: int| 0 <= k < cands.len() implies q.push(c).is_prefix_of(#[trigger] cands[k]) by {
            assert(p.is_prefix_of(cands[k]) && q.is_prefix_of(cands[k]));
        }
        assert(crate::utils::common_prefix(q.push(c), cands));
    }
    assert(p =~= q);
}

/// The bytes of `s`.
fn bytes_of(s: &str) -> (b: Vec<u8>)
    ensures
        b@ == encode_utf8(s@),
{
    s.as_bytes_vec()
}

/// TAB with `partial` on the line and the sorted candidates `cands`, which all start with it.
pub fn completion_step(partial: &str, cands: &Vec<String>, ambiguous: bool, prompt: &str) -> (r: CompletionStep)
    requires
        forall|k: int| 0 <= k < cands@.len() ==> partial@.is_prefix_of(#[trigger] cands@[k]@),
    ensures
        ({
            let s = completion_spec(partial@, strings_view(cands@), ambiguous, prompt@);
            r.append@ == s.append && r.output@ == s.output && r.ambiguous == s.ambiguous
        }),
{
    let ghost cv = strings_view(cands@);
    let n = cands.len();
    if n == 0 {
        let mut out: Vec<u8> = Vec::new();
        out.push(BELL);
        assert(out@ =~= seq![BELL]);
        return CompletionStep { append: Vec::new(), output: out, ambiguous };
    }
    let plen = partial.unicode_len();
    if n == 1 {
        let c = cands[0].as_str();
        assert(partial@.is_prefix_of(cv[0]));
        let mut s = String::from_str(c.substring_char(plen, c.unicode_len()));
        push_char(&mut s, ' ');
        let added = bytes_of(s.as_str());
        let out = bytes_of(s.as_str());
        return CompletionStep { append: added, output: out, ambiguous };
    }
    proof {
        assert(crate::utils::common_prefix(partial@, cv)) by {
            assert forall|k: int| 0 <= k < cv.len() implies partial@.is_prefix_of(#[trigger] cv[k]) by {
                assert(partial@.is_prefix_of(cands@[k]@));
            }
        }
    }
    let lcp = longest_common_prefix(partial, cands);
    proof {
        lemma_lcp_unique(lcp@, cv);
    }
    assert(partial@.is_prefix_of(cv[0]));
    assert(partial@.len() <= lcp@.len()) by {
        if lcp@.len() < partial@.len() {
            let c = partial@[lcp@.len() as int];
            assert forall|k: int| 0 <= k < cv.len() implies lcp@.push(c).is_prefix_of(#[trigger] cv[k]) by {
                assert(partial@.is_prefix_of(cv[k]));
                assert(lcp@.is_prefix_of(cv[k]));
            }
            assert(crate::utils::common_prefix(lcp@.push(c), cv));
        }
    }
    if lcp.as_str().unicode_len() == plen {
        assert(lcp@ =~= partial@) by {
            assert(lcp@.is_prefix_of(cv[0]));
        }
        if ambiguous {
            let mut text = String::from_str("\n");
            let mut i: usize = 0;
            while i < n
                invariant
                    n == cands@.len(),
                    cv == strings_view(cands@),
                    i <= n,
                    text@ == "\n"@ + listing(cv.take(i as int)),
                decreases n - i,
            {
                text.append(cands[i].as_str());
                text.append("  ");
                proof {
                    assert(cv.take(i + 1).drop_last() =~= cv.take(i as int));
                }
                assert(text@ =~= "\n"@ + listing(cv.take(i + 1)));
                i = i + 1;
            }
            text.append("\n");
            text.append(prompt);
            text.append(partial);
            proof {
                assert(cv.take(n as int) =~= cv);
                assert(text@ =~= "\n"@ + listing(cv) + "\n"@ + prompt@ + partial@);
            }
            return CompletionStep { append: Vec::new(), output: bytes_of(text.as_str()), ambiguous };
        }
        let mut out: Vec<u8> = Vec::new();
        out.push(BELL);
        assert(out@ =~= seq![BELL]);
        return CompletionStep { append: Vec::new(), output: out, ambiguous: true };
    }
    assert(lcp@ != partial@);
    let l = lcp.as_str();
    let suffix = l.substring_char(plen, l.unicode_len());
    assert(suffix@ =~= lcp@.skip(partial@.len() as int));
    let added = bytes_of(suffix);
    let out = bytes_of(suffix);
    CompletionStep { append: added, output: out, ambiguous }
}

/// The candidates for `partial` among `words`, sorted: nothing for an empty `partial`, else the
/// words that start with it.
pub open spec fn candidate_list(words: Set<Seq<char>>, partial: Seq<char>, cands: Seq<Seq<char>>) -> bool {
    &&& partial.len() == 0 ==> cands.len() == 0
    &&& partial.len() > 0 ==> forall|s: Seq<char>|
        #[trigger] cands.contains(s) <==> (words.contains(s) && partial.is_prefix_of(s))
    &&& sorted_strings(cands)
    &&& cands.no_duplicates()
}

/// TAB on the line `before`, `cands` being the sorted completions of its text among `words`,
/// leaves the line `after` and shows `output`.
pub open spec fn tab_outcome(
    words: Set<Seq<char>>,
    before: LineEditor,
    prompt: Seq<char>,
    cands: Seq<Seq<char>>,
    after: LineEditor,
    output: Seq<u8>,
) -> bool {
    let partial = lossy_text(before.buffer@);
    let s = completion_spec(partial, cands, before.ambiguous, prompt);
    &&& candidate_list(words, partial, cands)
    &&& after.buffer@ == before.buffer@ + s.append
    &&& output == s.output
    &&& after.ambiguous == s.ambiguous
}

/// The line being edited, and whether an ambiguous TAB has rung the bell on it.
pub struct LineEditor {
    pub buffer: Vec<u8>,
    pub ambiguous: bool,
}

impl LineEditor {
    /// An empty line.
    pub fn new() -> (e: LineEditor)
        ensures
            e.buffer@.len() == 0,
            !e.ambiguous,
    {
        LineEditor { buffer: Vec::new(), ambiguous: false }
    }

    /// The text of the line.
    pub fn line(&self) -> (r: String)
        ensures
            r@ == lossy_text(self.buffer@),
    {
        utf8_lossy(&self.buffer)
    }
}

/// The answer to one key: the bytes to show, and whether the line is finished.
pub struct KeyResponse {
    pub output: Vec<u8>,
    pub finish: bool,
}

/// Reads lines with completion of the words it knows.
pub struct Reader {
    command_tree: Trie,
}

impl View for Reader {
    type V = Set<Seq<char>>;

    /// The words that TAB completes to.
    closed spec fn view(&self) -> Set<Seq<char>> {
        self.command_tree@
    }
}

impl Reader {
    pub closed spec fn wf(&self) -> bool {
        self.command_tree.wf()
    }

    /// A reader that knows no words.
    pub fn new() -> (r: Reader)
        ensures
            r.wf(),
            r@ == Set::<Seq<char>>::empty(),
    {
        Reader { command_tree: Trie::new() }
    }

    /// Learns the words of `words`.
    pub fn update_trie(&mut self, words: &Vec<String>)
        requires
            old(self).wf(),
        ensures
            final(self).wf(),
            final(self)@ == old(self)@ + strings_view(words@).to_set(),
    {
        let mut i: usize = 0;
        while i < words.len()
            invariant
                i <= words@.len(),
                self.wf(),
                self@ == old(self)@ + strings_view(words@).take(i as int).to_set(),
            decreases words@.len() - i,
        {
            self.command_tree.insert(words[i].as_str());
            proof {
                let t = strings_view(words@);
                assert(t.take(i + 1) =~= t.take(i as int).push(t[i as int]));
                t.take(i as int).lemma_push_to_set_commute(t[i as int]);
                assert(self@ =~= old(self)@ + t.take(i + 1).to_set());
            }
            i = i + 1;
        }
        proof {
            assert(strings_view(words@).take(i as int) =~= strings_view(words@));
        }
    }

    /// The sorted completions of `partial`.
    fn candidates(&self, partial: &str) -> (r: Vec<String>)
        requires
            self.wf(),
        ensures
            candidate_list(self@, partial@, strings_view(r@)),
    {
        let mut r = self.command_tree.with_prefix(partial);
        let ghost before = strings_view(r@);
        sort_strings(&mut r);
        proof {
            let after = strings_view(r@);
            assert forall|s: Seq<char>| #[trigger] after.contains(s) <==> before.contains(s) by {
                assert(after.to_multiset().count(s) == before.to_multiset().count(s));
            }
            if partial@.len() == 0 {
                assert(after.to_multiset().len() == 0);
            }
            before.lemma_multiset_has_no_duplicates();
            after.lemma_multiset_has_no_duplicates_conv();
        }
        r
    }

    /// Handles one key of the line in `editor`: line feed or carriage return finishes the line;
    /// DEL erases the last byte, if any; TAB completes (see `completion_spec`); any other byte is
    /// added and shown.
    pub fn handle_key(&self, editor: &mut LineEditor, prompt: &str, byte: u8) -> (r: KeyResponse)
        requires
            self.wf(),
        ensures
            byte == 10 || byte == 13 ==> r.finish && r.output@ == seq![10u8] && *final(editor)
                == *old(editor),
            byte == DELETE ==> !r.finish && final(editor).ambiguous == old(editor).ambiguous && if old(
                editor,
            ).buffer@.len() > 0 {
                final(editor).buffer@ == old(editor).buffer@.drop_last() && r.output@ == seq![
                    BACKSPACE,
                    32u8,
                    BACKSPACE,
                ]
            } else {
                final(editor).buffer@ == old(editor).buffer@ && r.output@.len() == 0
            },
            byte == TAB ==> !r.finish && exists|cands: Seq<Seq<char>>|
                #[trigger] tab_outcome(self@, *old(editor), prompt@, cands, *final(editor), r.output@),
            byte != 10 && byte != 13 && byte != DELETE && byte != TAB ==> !r.finish
                && final(editor).buffer@ == old(editor).buffer@.push(byte) && final(editor).ambiguous
                == old(editor).ambiguous && r.output@ == encode_utf8(seq![byte as char]),
    {
        if byte == 10 || byte == 13 {
            let mut out: Vec<u8> = Vec::new();
            out.push(10);
            assert(out@ =~= seq![10u8]);
            return KeyResponse { output: out, finish: true };
        }
        if byte == DELETE {
            let mut out: Vec<u8> = Vec::new();
            if editor.buffer.len() > 0 {
                editor.buffer.pop();
                out.push(BACKSPACE);
                out.push(32);
                out.push(BACKSPACE);
                assert(out@ =~= seq![BACKSPACE, 32u8, BACKSPACE]);
            }
            return KeyResponse { output: out, finish: false };
        }
        if byte == TAB {
            let partial = editor.line();
            let cands = self.candidates(partial.as_str());
            proof {
                assert forall|k: int| 0 <= k < cands@.len() implies partial@.is_prefix_of(
                    #[trigger] cands@[k]@,
                ) by {
                    assert(strings_view(cands@).contains(strings_view(cands@)[k]));
                }
            }
            let step = completion_step(partial.as_str(), &cands, editor.ambiguous, prompt);
            put_bytes(&mut editor.buffer, &step.append);
            editor.ambiguous = step.ambiguous;
            proof {
                assert(tab_outcome(self@, *old(editor), prompt@, strings_view(cands@), *editor, step.output@));
            }
            let r = KeyResponse { output: step.output, finish: false };
            assert(tab_outcome(self@, *old(editor), prompt@, strings_view(cands@), *editor, r.output@));
            return r;
        }
        editor.buffer.push(byte);
        let mut shown = String::new();
        push_char(&mut shown, byte as char);
        assert(shown@ =~= seq![byte as char]);
        KeyResponse { output: bytes_of(shown.as_str()), finish: false }
    }
}

} // verus!
