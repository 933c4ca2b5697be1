use vstd::prelude::*;

use crate::args_parser::{push_char, strings_view};

verus! {

broadcast use vstd::std_specs::vec::group_vec_axioms;

/// A prefix tree of words. Each node owns its children, one per distinct next character.
pub struct Trie {
    children: Vec<(char, Trie)>,
    end_of_word: bool,
}

/// `w` is stored under `t`: the path of its characters exists and ends at a node that ends a word.
pub closed spec fn has_word(t: Trie, w: Seq<char>) -> bool
    decreases w.len(),
{
    if w.len() == 0 {
        t.end_of_word
    } else {
        exists|i: int|
            0 <= i < t.children@.len() && #[trigger] t.children@[i].0 == w[0] && has_word(
                t.children@[i].1,
                w.drop_first(),
            )
    }
}

/// No two children of a node share a character, in the whole tree.
pub closed spec fn well_formed(t: Trie) -> bool
    decreases t,
{
    &&& forall|i: int, j: int|
        0 <= i < j < t.children@.len() ==> #[trigger] t.children@[i].0 != #[trigger] t.children@[j].0
    &&& forall|i: int|
        0 <= i < t.children@.len() ==> well_formed(#[trigger] t.children@[i].1)
}

impl View for Trie {
    type V = Set<Seq<char>>;

    /// The set of stored words.
    closed spec fn view(&self) -> Set<Seq<char>> {
        Set::new(|w: Seq<char>| has_word(*self, w))
    }
}

/// A new child under a character that no other child has, and that stores no word, changes
/// nothing.
proof fn lemma_push_empty_child(old: Trie, new: Trie, c: char)
    requires
        well_formed(old),
        forall|i: int| 0 <= i < old.children@.len() ==> #[trigger] old.children@[i].0 != c,
        new.end_of_word == old.end_of_word,
        new.children@.len() == old.children@.len() + 1,
        new.children@.drop_last() == old.children@,
        new.children@.last().0 == c,
        new.children@.last().1.children@.len() == 0,
        !new.children@.last().1.end_of_word,
    ensures
        well_formed(new),
        new@ == old@,
{
    let e = new.children@.last().1;
    assert(well_formed(e));
    assert forall|i: int| 0 <= i < new.children@.len() implies well_formed(#[trigger] new.children@[i].1) by {
        if i < old.children@.len() {
            assert(new.children@[i] == old.children@[i]);
        }
    }
    assert forall|a: int, b: int|
        0 <= a < b < new.children@.len() implies #[trigger] new.children@[a].0
        != #[trigger] new.children@[b].0 by {
        assert(new.children@[a] == old.children@[a]);
        if b < old.children@.len() {
            assert(new.children@[b] == old.children@[b]);
        }
    }
    assert forall|w: Seq<char>| has_word(new, w) == has_word(old, w) by {
        if w.len() > 0 {
            if has_word(new, w) {
                let i = choose|i: int|
                    0 <= i < new.children@.len() && #[trigger] new.children@[i].0 == w[0] && has_word(
                        new.children@[i].1,
                        w.drop_first(),
                    );
                if i == old.children@.len() {
                    assert(!has_word(e, w.drop_first())) by {
                        if w.drop_first().len() > 0 {
                            assert(e.children@.len() == 0);
                        }
                    }
                } else {
                    assert(new.children@[i] == old.children@[i]);
                }
            }
            if has_word(old, w) {
                let i = choose|i: int|
                    0 <= i < old.children@.len() && #[trigger] old.children@[i].0 == w[0] && has_word(
                        old.children@[i].1,
                        w.drop_first(),
                    );
                assert(new.children@[i] == old.children@[i]);
            }
        }
    }
    assert(new@ =~= old@);
}

/// Replacing the child under `c` by one that stores one more word `s` stores `c` followed by `s`.
proof fn lemma_replace_child(old: Trie, new: Trie, j: int, c: char, nc: Trie, s: Seq<char>)
    requires
        well_formed(old),
        well_formed(nc),
        0 <= j < old.children@.len(),
        old.children@[j].0 == c,
        nc@ == old.children@[j].1@.insert(s),
        new.end_of_word == old.end_of_word,
        new.children@ == old.children@.update(j, (c, nc)),
    ensures
        well_formed(new),
        new@ == old@.insert(seq![c] + s),
{
    assert forall|i: int| 0 <= i < new.children@.len() implies well_formed(#[trigger] new.children@[i].1) by {
        if i != j {
            assert(new.children@[i] == old.children@[i]);
        }
    }
    assert forall|a: int, b: int|
        0 <= a < b < new.children@.len() implies #[trigger] new.children@[a].0
        != #[trigger] new.children@[b].0 by {
        assert(old.children@[a].0 != old.children@[b].0);
    }
    let cs = seq![c] + s;
    assert forall|w: Seq<char>| has_word(new, w) == (has_word(old, w) || w == cs) by {
        if w.len() > 0 {
            assert(w == cs ==> w.drop_first() == s && w[0] == c);
            if w[0] == c {
                assert(new.children@[j].0 == w[0]);
                if has_word(new, w) {
                    let i = choose|i: int|
                        0 <= i < new.children@.len() && #[trigger] new.children@[i].0 == w[0]
                            && has_word(new.children@[i].1, w.drop_first());
                    if i != j {
                        assert(old.children@[i].0 == old.children@[j].0);
                    }
                    assert(nc@.contains(w.drop_first()));
                    if w != cs {
                        assert(w.drop_first() != s) by {
                            if w.drop_first() == s {
                                assert(w =~= cs);
                            }
                        }
                        assert(old.children@[j].1@.contains(w.drop_first()));
                    }
                }
                if has_word(old, w) {
                    let i = choose|i: int|
                        0 <= i < old.children@.len() && #[trigger] old.children@[i].0 == w[0]
                            && has_word(old.children@[i].1, w.drop_first());
                    if i != j {
                        assert(old.children@[i].0 == old.children@[j].0);
                    }
                    assert(old.children@[j].1@.contains(w.drop_first()));
                    assert(nc@.contains(w.drop_first()));
                }
                if w == cs {
                    assert(nc@.contains(w.drop_first()));
                }
            } else {
                assert(w != cs);
                if has_word(new, w) {
                    let i = choose|i: int|
                        0 <= i < new.children@.len() && #[trigger] new.children@[i].0 == w[0]
                            && has_word(new.children@[i].1, w.drop_first());
                    assert(new.children@[i] == old.children@[i]);
                }
                if has_word(old, w) {
                    let i = choose|i: int|
                        0 <= i < old.children@.len() && #[trigger] old.children@[i].0 == w[0]
                            && has_word(old.children@[i].1, w.drop_first());
                    assert(new.children@[i] == old.children@[i]);
                }
            }
        } else {
            assert(cs.len() > 0);
        }
    }
    assert(new@ =~= old@.insert(cs));
}

/// `s` is `p`, the character of child `a` of `t`, then a word stored under that child.
spec fn through_child(t: Trie, a: int, p: Seq<char>, s: Seq<char>) -> bool {
    &&& p.push(t.children@[a].0).is_prefix_of(s)
    &&& has_word(t.children@[a].1, s.skip((p.len() + 1) as int))
}

/// `s` is `p` followed by a word stored under `t`.
pub open spec fn extends_with_word(t: Trie, p: Seq<char>, s: Seq<char>) -> bool {
    p.is_prefix_of(s) && t@.contains(s.skip(p.len() as int))
}

proof fn lemma_concat_contains<A>(a: Seq<A>, b: Seq<A>, x: A)
    ensures
        (a + b).contains(x) <==> a.contains(x) || b.contains(x),
{
    if a.contains(x) {
        let i = choose|i: int| 0 <= i < a.len() && a[i] == x;
        assert((a + b)[i] == x);
    }
    if b.contains(x) {
        let i = choose|i: int| 0 <= i < b.len() && b[i] == x;
        assert((a + b)[a.len() + i] == x);
    }
    if (a + b).contains(x) {
        let i = choose|i: int| 0 <= i < (a + b).len() && (a + b)[i] == x;
        if i < a.len() {
            assert(a[i] == x);
        } else {
            assert(b[i - a.len()] == x);
        }
    }
}

/// A word of `t` that extends `p` is either `p` itself or goes through one of the children.
proof fn lemma_extends_by_children(t: Trie, p: Seq<char>, s: Seq<char>)
    ensures
        extends_with_word(t, p, s) <==> ((t.end_of_word && s == p) || exists|a: int|
            0 <= a < t.children@.len() && #[trigger] through_child(t, a, p, s)),
{
    if extends_with_word(t, p, s) {
        let w = s.skip(p.len() as int);
        if w.len() == 0 {
            assert(s =~= p);
        } else {
            let a = choose|a: int|
                0 <= a < t.children@.len() && #[trigger] t.children@[a].0 == w[0] && has_word(
                    t.children@[a].1,
                    w.drop_first(),
                );
            assert(w.drop_first() =~= s.skip((p.len() + 1) as int));
            assert(p.push(t.children@[a].0) =~= s.take((p.len() + 1) as int));
            assert(through_child(t, a, p, s));
        }
    }
    if t.end_of_word && s == p {
        assert(s.skip(p.len() as int) =~= Seq::<char>::empty());
    }
    if exists|a: int| 0 <= a < t.children@.len() && #[trigger] through_child(t, a, p, s) {
        let a = choose|a: int| 0 <= a < t.children@.len() && #[trigger] through_child(t, a, p, s);
        let w = s.skip(p.len() as int);
        assert(p.push(t.children@[a].0)[p.len() as int] == s[p.len() as int]);
        assert(w.drop_first() =~= s.skip((p.len() + 1) as int));
        assert(p =~= s.take(p.len() as int)) by {
            assert forall|k: int| 0 <= k < p.len() implies p[k] == s[k] by {
                assert(p.push(t.children@[a].0)[k] == p[k]);
            }
        }
        assert(w[0] == t.children@[a].0);
    }
}

impl Trie {
    pub closed spec fn wf(&self) -> bool {
        well_formed(*self)
    }

    /// An empty trie.
    pub fn new() -> (t: Trie)
        ensures
            t.wf(),
            t@ == Set::<Seq<char>>::empty(),
    {
        let t = Trie { children: Vec::new(), end_of_word: false };
        proof {
            assert(t@ =~= Set::<Seq<char>>::empty());
        }
        t
    }

    /// Stores `word`; storing it again changes nothing.
    pub fn insert(&mut self, word: &str)
        requires
            old(self).wf(),
        ensures
            final(self).wf(),
            final(self)@ == old(self)@.insert(word@),
    {
        self.insert_from(word, 0);
        assert(word@.skip(0) == word@);
    }

    fn insert_from(&mut self, word: &str, i: usize)
        requires
            old(self).wf(),
            i <= word@.len(),
        ensures
            final(self).wf(),
            final(self)@ == old(self)@.insert(word@.skip(i as int)),
        decreases word@.len() - i,
    {
        let n = word.unicode_len();
        if i == n {
            self.end_of_word = true;
            proof {
                assert(word@.skip(i as int) =~= Seq::<char>::empty());
                let o = *old(self);
                assert(self.children@ == o.children@);
                assert forall|a: int| 0 <= a < self.children@.len() implies well_formed(
                    #[trigger] self.children@[a].1,
                ) by {
                    assert(self.children@[a] == o.children@[a]);
                }
                assert forall|w: Seq<char>| has_word(*self, w) == (has_word(o, w) || w == Seq::<char>::empty()) by {
                    if w.len() > 0 {
                        if has_word(*self, w) {
                            let a = choose|a: int|
                                0 <= a < self.children@.len() && #[trigger] self.children@[a].0 == w[0]
                                    && has_word(self.children@[a].1, w.drop_first());
                            assert(o.children@[a] == self.children@[a]);
                        }
                        if has_word(o, w) {
                            let a = choose|a: int|
                                0 <= a < o.children@.len() && #[trigger] o.children@[a].0 == w[0]
                                    && has_word(o.children@[a].1, w.drop_first());
                            assert(o.children@[a] == self.children@[a]);
                        }
                    } else {
                        assert(w =~= Seq::<char>::empty());
                    }
                }
                assert(self@ =~= o@.insert(word@.skip(i as int)));
            }
            return;
        }
        let c = word.get_char(i);
        let mut j: usize = 0;
        while j < self.children.len()
            invariant
                j <= self.children@.len(),
                forall|a: int| 0 <= a < j ==> #[trigger] self.children@[a].0 != c,
            ensures
                j <= self.children@.len(),
                forall|a: int| 0 <= a < j ==> #[trigger] self.children@[a].0 != c,
                j < self.children@.len() ==> self.children@[j as int].0 == c,
            decreases self.children@.len() - j,
        {
            if self.children[j].0 == c {
                break;
            }
            j = j + 1;
        }
        if j == self.children.len() {
            let ghost before = *self;
            self.children.push((c, Trie { children: Vec::new(), end_of_word: false }));
            proof {
                assert(self.children@.drop_last() =~= before.children@);
                lemma_push_empty_child(before, *self, c);
            }
        }
        let ghost mid = *self;
        let (k, mut child) = self.children.remove(j);
        proof {
            assert(mid.children@[j as int] == (k, child));
            assert(well_formed(child));
        }
        child.insert_from(word, i + 1);
        self.children.insert(j, (k, child));
        proof {
            assert(self.children@ =~= mid.children@.update(j as int, (c, child)));
            lemma_replace_child(mid, *self, j as int, c, child, word@.skip(i + 1));
            assert(seq![c] + word@.skip(i + 1) =~= word@.skip(i as int));
        }
    }

    /// Appends to `res` every stored word of `node`, each preceded by `prefix`, once each.
    pub fn collect_words(node: &Self, prefix: &str, res: &mut Vec<String>)
        requires
            node.wf(),
        ensures
            strings_view(final(res)@.skip(old(res)@.len() as int)).no_duplicates(),
            final(res)@.len() >= old(res)@.len(),
            final(res)@.take(old(res)@.len() as int) == old(res)@,
            forall|s: Seq<char>|
                #[trigger] strings_view(final(res)@.skip(old(res)@.len() as int)).contains(s)
                    <==> extends_with_word(*node, prefix@, s),
        decreases node,
    {
        let ghost start = res@.len() as int;
        if node.end_of_word {
            res.push(String::from_str(prefix));
        }
        proof {
            assert(strings_view(res@.skip(start)).no_duplicates());
            assert forall|s: Seq<char>|
                #[trigger] strings_view(res@.skip(start)).contains(s) <==> (node.end_of_word && s
                    == prefix@) by {
                if node.end_of_word {
                    assert(strings_view(res@.skip(start))[0] == prefix@);
                }
            }
        }
        let mut j: usize = 0;
        while j < node.children.len()
            invariant
                j <= node.children@.len(),
                res@.len() >= start,
                res@.take(start) == old(res)@,
                start == old(res)@.len(),
                well_formed(*node),
                strings_view(res@.skip(start)).no_duplicates(),
                forall|s: Seq<char>|
                    #[trigger] strings_view(res@.skip(start)).contains(s) <==> ((node.end_of_word
                        && s == prefix@) || exists|a: int|
                        0 <= a < j && #[trigger] through_child(*node, a, prefix@, s)),
            decreases node.children@.len() - j,
        {
            let mut pref = String::from_str(prefix);
            push_char(&mut pref, node.children[j].0);
            let ghost before = res@;
            proof {
                assert(decreases_to!(node.children => node.children@[j as int]));
            }
            Self::collect_words(&node.children[j].1, pref.as_str(), res);
            proof {
                let added = res@.skip(before.len() as int);
                assert(res@ =~= before + added);
                let old_part = strings_view(before.skip(start));
                let new_part = strings_view(added);
                assert forall|a: int, b: int| 0 <= a < old_part.len() && 0 <= b < new_part.len() implies old_part[a]
                    != new_part[b] by {
                    assert(new_part.contains(new_part[b]));
                    assert(old_part.contains(old_part[a]));
                    let x = new_part[b];
                    assert(extends_with_word(node.children@[j as int].1, pref@, x));
                    assert(x.len() > prefix@.len() && x[prefix@.len() as int] == pref@[prefix@.len() as int]);
                    if old_part[a] == x {
                        let ai = choose|ai: int| 0 <= ai < j && #[trigger] through_child(*node, ai, prefix@, x);
                        assert(x[prefix@.len() as int] == prefix@.push(node.children@[ai].0)[prefix@.len() as int]);
                        assert(node.children@[ai].0 != node.children@[j as int].0);
                    }
                }
                vstd::seq_lib::lemma_no_dup_in_concat(old_part, new_part);
                assert(res@.skip(start) =~= before.skip(start) + added);
                assert(strings_view(res@.skip(start)) =~= strings_view(before.skip(start))
                    + strings_view(added));
                assert(res@.take(start) =~= before.take(start));
                assert forall|s: Seq<char>|
                    #[trigger] strings_view(res@.skip(start)).contains(s) <==> ((node.end_of_word
                        && s == prefix@) || exists|a: int|
                        0 <= a < j + 1 && #[trigger] through_child(*node, a, prefix@, s)) by {
                    lemma_concat_contains(strings_view(before.skip(start)), strings_view(added), s);
                    if extends_with_word(node.children@[j as int].1, pref@, s) {
                        assert(pref@.len() == prefix@.len() + 1);
                        assert(through_child(*node, j as int, prefix@, s));
                    }
                    if through_child(*node, j as int, prefix@, s) {
                        assert(extends_with_word(node.children@[j as int].1, pref@, s));
                    }
                    if exists|a: int| 0 <= a < j + 1 && #[trigger] through_child(*node, a, prefix@, s) {
                        let a = choose|a: int| 0 <= a < j + 1 && #[trigger] through_child(*node, a, prefix@, s);
                        if a < j {
                        } else {
                            assert(extends_with_word(node.children@[j as int].1, pref@, s));
                        }
                    }
                }
            }
            j = j + 1;
        }
        proof {
            assert forall|s: Seq<char>|
                #[trigger] strings_view(res@.skip(start)).contains(s) <==> extends_with_word(
                    *node,
                    prefix@,
                    s,
                ) by {
                lemma_extends_by_children(*node, prefix@, s);
            }
        }
    }

    /// Every stored word that starts with `word`, in no particular order; nothing for an empty
    /// `word`.
    pub fn with_prefix(&self, word: &str) -> (res: Vec<String>)
        requires
            self.wf(),
        ensures
            word@.len() == 0 ==> res@.len() == 0,
            word@.len() > 0 ==> forall|s: Seq<char>|
                #[trigger] strings_view(res@).contains(s) <==> (self@.contains(s)
                    && word@.is_prefix_of(s)),
            strings_view(res@).no_duplicates(),
    {
        let mut res: Vec<String> = Vec::new();
        let n = word.unicode_len();
        if n == 0 {
            return res;
        }
        let mut curr = self;
        let mut i: usize = 0;
        while i < n
            invariant
                n == word@.len(),
                i <= n,
                res@.len() == 0,
                well_formed(*curr),
                forall|w: Seq<char>|
                    #[trigger] has_word(*curr, w) == has_word(*self, word@.take(i as int) + w),
            decreases n - i,
        {
            let c = word.get_char(i);
            let mut j: usize = 0;
            while j < curr.children.len()
                invariant
                    j <= curr.children@.len(),
                    forall|a: int| 0 <= a < j ==> #[trigger] curr.children@[a].0 != c,
                ensures
                    j <= curr.children@.len(),
                    forall|a: int| 0 <= a < j ==> #[trigger] curr.children@[a].0 != c,
                    j < curr.children@.len() ==> curr.children@[j as int].0 == c,
                decreases curr.children@.len() - j,
            {
                if curr.children[j].0 == c {
                    break;
                }
                j = j + 1;
            }
            if j == curr.children.len() {
                proof {
                    assert forall|s: Seq<char>|
                        #[trigger] strings_view(res@).contains(s) <==> (self@.contains(s)
                            && word@.is_prefix_of(s)) by {
                        if self@.contains(s) && word@.is_prefix_of(s) {
                            let w = s.skip(i as int);
                            assert(word@.take(i as int) + w =~= s);
                            assert(w[0] == c);
                            assert(has_word(*curr, w));
                        }
                    }
                }
                return res;
            }
            proof {
                let child = curr.children@[j as int].1;
                assert(well_formed(child));
                assert forall|w: Seq<char>|
                    #[trigger] has_word(child, w) == has_word(*self, word@.take(i + 1) + w) by {
                    let cw = seq![c] + w;
                    assert(cw.drop_first() =~= w);
                    assert(word@.take(i as int) + cw =~= word@.take(i + 1) + w);
                    if has_word(*curr, cw) {
                        let a = choose|a: int|
                            0 <= a < curr.children@.len() && #[trigger] curr.children@[a].0 == cw[0]
                                && has_word(curr.children@[a].1, cw.drop_first());
                        if a != j {
                            assert(curr.children@[a].0 != curr.children@[j as int].0);
                        }
                    }
                    if has_word(child, w) {
                        assert(curr.children@[j as int].0 == cw[0]);
                        assert(has_word(*curr, cw));
                    }
                }
            }
            curr = &curr.children[j].1;
            i = i + 1;
        }
        Self::collect_words(curr, word, &mut res);
        proof {
            assert(res@.skip(0) == res@);
            assert(word@.take(n as int) == word@);
            assert forall|s: Seq<char>|
                #[trigger] strings_view(res@).contains(s) <==> (self@.contains(s) && word@.is_prefix_of(s)) by {
                if word@.is_prefix_of(s) {
                    assert(word@ + s.skip(n as int) =~= s);
                    assert(has_word(*curr, s.skip(n as int)) == has_word(*self, s));
                }
            }
        }
        res
    }
}

} // verus!
