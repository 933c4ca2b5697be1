use vstd::prelude::*;

use crate::args_parser::{push_char, strings_view};

verus! {

/// `p` is a prefix of every word of `words`.
pub open spec fn common_prefix(p: Seq<char>, words: Seq<Seq<char>>) -> bool {
    forall|k: int| 0 <= k < words.len() ==> p.is_prefix_of(#[trigger] words[k])
}

/// `p` is the longest common prefix of `words`: a common prefix that no character extends.
pub open spec fn is_longest_common_prefix(p: Seq<char>, words: Seq<Seq<char>>) -> bool {
    &&& common_prefix(p, words)
    &&& forall|c: char| !#[trigger] common_prefix(p.push(c), words)
}

/// Each word of `words` without its first `n` characters.
pub open spec fn suffixes(words: Seq<Seq<char>>, n: int) -> Seq<Seq<char>> {
    words.map_values(|w: Seq<char>| w.skip(n))
}

/// When every word starts with `word`, `word` followed by the longest common prefix of what comes
/// after it is the longest common prefix of the words.
pub proof fn lemma_prefix_then_suffix_lcp(word: Seq<char>, words: Seq<Seq<char>>, q: Seq<char>)
    requires
        common_prefix(word, words),
        is_longest_common_prefix(q, suffixes(words, word.len() as int)),
    ensures
        is_longest_common_prefix(word + q, words),
{
    let n = word.len() as int;
    let sfx = suffixes(words, n);
    assert forall|k: int| 0 <= k < words.len() implies (word + q).is_prefix_of(#[trigger] words[k]) by {
        assert(word.is_prefix_of(words[k]));
        assert(q.is_prefix_of(sfx[k]));
        assert forall|j: int| 0 <= j < (word + q).len() implies (word + q)[j] == words[k][j] by {
            if j >= n {
                assert(sfx[k][j - n] == words[k][j]);
            }
        }
    }
    assert forall|c: char| !#[trigger] common_prefix((word + q).push(c), words) by {
        if common_prefix((word + q).push(c), words) {
            assert forall|k: int| 0 <= k < sfx.len() implies q.push(c).is_prefix_of(#[trigger] sfx[k]) by {
                assert((word + q).push(c).is_prefix_of(words[k]));
                assert forall|j: int| 0 <= j < q.push(c).len() implies q.push(c)[j] == sfx[k][j] by {
                    assert((word + q).push(c)[n + j] == words[k][n + j]);
                }
            }
            assert(common_prefix(q.push(c), sfx));
        }
    }
}

/// `word` followed by the longest common prefix of what follows its length in each completion;
/// when the completions all start with `word`, their longest common prefix.
pub fn longest_common_prefix(word: &str, completions: &Vec<String>) -> (lcp: String)
    requires
        completions@.len() > 0,
        forall|k: int| 0 <= k < completions@.len() ==> (#[trigger] completions@[k])@.len() >= word@.len(),
    ensures
        lcp@.len() >= word@.len(),
        lcp@.take(word@.len() as int) == word@,
        is_longest_common_prefix(
            lcp@.skip(word@.len() as int),
            suffixes(strings_view(completions@), word@.len() as int),
        ),
        common_prefix(word@, strings_view(completions@)) ==> is_longest_common_prefix(
            lcp@,
            strings_view(completions@),
        ),
{
    let ghost words = strings_view(completions@);
    let ghost n = word@.len() as int;
    let ghost sfx = suffixes(words, n);
    let mut lcp = String::from_str(word);
    let first = completions[0].as_str();
    let first_len = first.unicode_len();
    let start = word.unicode_len();
    let mut i: usize = start;
    proof {
        assert(words[0] == completions@[0]@);
        assert forall|m: int| 0 <= m < words.len() implies #[trigger] words[m].len() >= n by {
            assert(words[m] == completions@[m]@);
        }
        assert(lcp@ =~= word@ + first@.subrange(n, i as int));
        assert forall|k: int| 0 <= k < sfx.len() implies first@.subrange(n, i as int).is_prefix_of(#[trigger] sfx[k]) by {
            assert(words[k] == completions@[k]@);
        }
    }
    loop
        invariant
            words == strings_view(completions@),
            sfx == suffixes(words, n),
            n == word@.len(),
            forall|m: int| 0 <= m < words.len() ==> #[trigger] words[m].len() >= n,
            start == n,
            completions@.len() > 0,
            first@ == words[0],
            first_len == first@.len(),
            n <= i <= first_len,
            lcp@ == word@ + first@.subrange(n, i as int),
            common_prefix(first@.subrange(n, i as int), sfx),
        decreases first_len - i,
    {
        let ghost q = first@.subrange(n, i as int);
        if i == first_len {
            proof {
                assert forall|c: char| !#[trigger] common_prefix(q.push(c), sfx) by {
                    if common_prefix(q.push(c), sfx) {
                        assert(q.push(c).is_prefix_of(sfx[0]));
                    }
                }
                assert(lcp@.skip(n) =~= q);
                assert(lcp@.take(n) =~= word@);
                if common_prefix(word@, words) {
                    lemma_prefix_then_suffix_lcp(word@, words, q);
                    assert(word@ + q =~= lcp@);
                }
            }
            return lcp;
        }
        let ch = first.get_char(i);
        let mut k: usize = 1;
        while k < completions.len()
            invariant
                words == strings_view(completions@),
                sfx == suffixes(words, n),
                n == word@.len(),
                forall|m: int| 0 <= m < words.len() ==> #[trigger] words[m].len() >= n,
                1 <= k <= completions@.len(),
                first@ == words[0],
                n <= i < first@.len(),
                ch == first@[i as int],
                q == first@.subrange(n, i as int),
                lcp@ == word@ + q,
                common_prefix(q, sfx),
                forall|m: int| 0 <= m < k ==> #[trigger] words[m].len() > i && words[m][i as int] == ch,
            decreases completions@.len() - k,
        {
            let other = completions[k].as_str();
            let ok = i < other.unicode_len() && other.get_char(i) == ch;
            if !ok {
                proof {
                    assert forall|c: char| !#[trigger] common_prefix(q.push(c), sfx) by {
                        if common_prefix(q.push(c), sfx) {
                            assert(words[k as int] == other@);
                            assert(q.push(c).is_prefix_of(sfx[k as int]));
                            assert(q.push(c).is_prefix_of(sfx[0]));
                            assert(sfx[k as int] == words[k as int].skip(n));
                            assert(sfx[k as int].len() == words[k as int].len() - n);
                            assert(words[k as int].len() > i);
                            assert(q.push(c)[i - n] == c);
                            assert(sfx[k as int][i - n] == words[k as int][i as int]);
                            assert(sfx[0][i - n] == words[0][i as int]);
                        }
                    }
                    assert(lcp@.skip(n) =~= q);
                    assert(lcp@.take(n) =~= word@);
                    if common_prefix(word@, words) {
                        lemma_prefix_then_suffix_lcp(word@, words, q);
                    }
                }
                return lcp;
            }
            assert(words[k as int] == other@);
            k = k + 1;
        }
        push_char(&mut lcp, ch);
        proof {
            let q2 = first@.subrange(n, i + 1);
            assert(lcp@ =~= word@ + q2);
            assert forall|m: int| 0 <= m < sfx.len() implies q2.is_prefix_of(#[trigger] sfx[m]) by {
                assert(q.is_prefix_of(sfx[m]));
                assert(words[m].len() > i && words[m][i as int] == ch);
                assert(sfx[m][i - n] == words[m][i as int]);
                assert forall|j: int| 0 <= j < q2.len() implies q2[j] == sfx[m][j] by {
                    if j < q.len() {
                        assert(q2[j] == q[j]);
                    }
                }
            }
        }
        i = i + 1;
    }
}

} // verus!
