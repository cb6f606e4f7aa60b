//! The word trie that feeds the typing lessons.
//!
//! A `Node` holds one letter and its continuations; the root carries the nul
//! letter and is skipped in every generated word. `Node::new` builds the trie
//! from a word list, and `gen_word` walks a random root-to-leaf path to hand
//! out a practice word.

use vstd::prelude::*;

use crate::canvas::push_char;
use vstd::string::StringExecFns;

verus! {

/// One trie node: a letter and the letters that may follow it.
#[derive(Debug)]
pub struct Node {
    pub children: Vec<Node>,
    pub letter: char,
}

/// One letter of a practice word, with whether it was typed correctly:
/// unset until it has been typed.
#[derive(Debug, Clone, Copy)]
pub struct Letter {
    pub letter: char,
    pub correct: Option<bool>,
}

/// A practice word: its letters, the text shown to the player, and the time
/// spent typing it, in milliseconds, when one was measured.
#[derive(Debug)]
pub struct Word {
    pub letters: Vec<Letter>,
    pub output: String,
    pub time: Option<u64>,
}

/// The letters of a word, in order.
pub open spec fn word_chars(w: Word) -> Seq<char> {
    w.letters@.map_values(|l: Letter| l.letter)
}

/// Every letter of the word still awaits typing and no time is recorded.
pub open spec fn word_fresh(w: Word) -> bool {
    &&& forall|i: int| 0 <= i < w.letters@.len() ==> (#[trigger] w.letters@[i]).correct is None
    &&& w.time is None
    &&& w.output@ == word_chars(w)
}

/// `s` spells a walk from `n` down to some leaf: the leaf letter always
/// appears, and every inner letter except the root's nul marker.
pub open spec fn is_leaf_word(n: Node, s: Seq<char>) -> bool
    decreases n,
{
    if n.children.len() == 0 {
        s == seq![n.letter]
    } else {
        exists|i: int|
            0 <= i < n.children.len() && (if n.letter == '\0' {
                is_leaf_word(#[trigger] n.children[i], s)
            } else {
                s.len() >= 1 && s[0] == n.letter && is_leaf_word(n.children[i], s.drop_first())
            })
    }
}

/// `s` spells a path from `n` downward (not necessarily to a leaf): each
/// letter in turn is found among the current node's children.
pub open spec fn has_path(n: Node, s: Seq<char>) -> bool
    decreases s.len(),
{
    s.len() == 0 || exists|i: int|
        0 <= i < n.children.len() && (#[trigger] n.children[i]).letter == s[0] && has_path(
            n.children[i],
            s.drop_first(),
        )
}

/// The trie invariant: no node has two children carrying the same letter,
/// so words that share a prefix share the nodes that spell it.
pub open spec fn wf_trie(n: Node) -> bool
    decreases n,
{
    &&& (forall|i: int, j: int|
        0 <= i < j < n.children.len() ==> (#[trigger] n.children[i]).letter != (
        #[trigger] n.children[j]).letter)
    &&& (forall|i: int| 0 <= i < n.children.len() ==> wf_trie(#[trigger] n.children[i]))
}

/// Relies on `rand::random_range` over `0..len`: the drawn index is strictly
/// below `len`. Nothing is assumed about which index comes back.
#[verifier::external_body]
fn random_index(len: usize) -> (r: usize)
    requires
        len >= 1,
    ensures
        r < len,
{
    rand::random_range(0..len)
}

/// The characters of a string, in order.
fn chars_of(s: &String) -> (r: Vec<char>)
    ensures
        r@ == s@,
{
    let st = s.as_str();
    let n = st.unicode_len();
    let mut out: Vec<char> = Vec::new();
    let mut i: usize = 0;
    while i < n
        invariant
            i <= n,
            n == st@.len(),
            st@ == s@,
            out@ == s@.take(i as int),
        decreases n - i,
    {
        out.push(st.get_char(i));
        i += 1;
        proof {
            assert(out@ =~= s@.take(i as int));
        }
    }
    proof {
        assert(s@.take(n as int) =~= s@);
    }
    out
}

/// A one-letter word that still awaits typing.
fn fresh_word(c: char) -> (w: Word)
    ensures
        word_fresh(w),
        word_chars(w) == seq![c],
{
    let mut letters: Vec<Letter> = Vec::new();
    letters.push(Letter { letter: c, correct: None });
    let mut output = String::new();
    push_char(&mut output, c);
    let w = Word { letters, output, time: None };
    proof {
        assert(word_chars(w) =~= seq![c]);
        assert(w.output@ =~= seq![c]);
    }
    w
}

/// The word with one more letter at its front.
fn prepend_letter(w: Word, c: char) -> (r: Word)
    requires
        word_fresh(w),
    ensures
        word_fresh(r),
        word_chars(r) == seq![c] + word_chars(w),
{
    let mut letters: Vec<Letter> = Vec::new();
    letters.push(Letter { letter: c, correct: None });
    let mut k: usize = 0;
    while k < w.letters.len()
        invariant
            k <= w.letters@.len(),
            letters@ =~= seq![Letter { letter: c, correct: None }] + w.letters@.take(k as int),
        decreases w.letters@.len() - k,
    {
        letters.push(w.letters[k]);
        k += 1;
        proof {
            assert(letters@ =~= seq![Letter { letter: c, correct: None }] + w.letters@.take(
                k as int,
            ));
        }
    }
    let mut output = String::new();
    push_char(&mut output, c);
    output.append(w.output.as_str());
    let r = Word { letters, output, time: None };
    proof {
        assert(w.letters@.take(w.letters@.len() as int) =~= w.letters@);
        assert(word_chars(r) =~= seq![c] + word_chars(w));
        assert(r.output@ =~= seq![c] + w.output@);
    }
    r
}

impl Node {
    /// Build the trie of a word list: a nul-lettered root from which every
    /// word of the list can be walked letter by letter.
    pub fn new(words: &Vec<String>) -> (root: Node)
        ensures
            root.letter == '\0',
            wf_trie(root),
            forall|k: int| 0 <= k < words@.len() ==> has_path(root, (#[trigger] words@[k])@),
    {
        let mut root = Node { children: Vec::new(), letter: '\0' };
        proof {
            assert(wf_trie(root));
        }
        let mut k: usize = 0;
        while k < words.len()
            invariant
                k <= words@.len(),
                root.letter == '\0',
                wf_trie(root),
                forall|j: int| 0 <= j < k ==> has_path(root, (#[trigger] words@[j])@),
            decreases words@.len() - k,
        {
            let cs = chars_of(&words[k]);
            root = root.append_chars(&cs, 0);
            proof {
                assert(cs@.skip(0) =~= words@[k as int]@);
            }
            k += 1;
        }
        root
    }

    /// Weave the tail `chars[i..]` of one word into the trie, reusing the
    /// children already present and adding new nodes where a letter is
    /// missing. Every walk that existed before still exists afterwards, and
    /// the trie invariant is kept: no node gains two children with one
    /// letter.
    pub fn append_chars(self, chars: &Vec<char>, i: usize) -> (r: Node)
        requires
            i <= chars@.len(),
        ensures
            r.letter == self.letter,
            has_path(r, chars@.skip(i as int)),
            forall|s: Seq<char>| has_path(self, s) ==> has_path(r, s),
            wf_trie(self) ==> wf_trie(r),
        decreases chars@.len() - i,
    {
        if i == chars.len() {
            proof {
                assert(chars@.skip(i as int) =~= Seq::<char>::empty());
            }
            return self;
        }
        let c = chars[i];
        let ghost tail = chars@.skip(i as int);
        proof {
            assert(tail[0] == chars@[i as int]);
            assert(tail.drop_first() =~= chars@.skip(i + 1));
        }

        let mut node = self;
        match node.find_child(c) {
            Some(j) => {
                let child = node.children.remove(j);
                let new_child = child.append_chars(chars, i + 1);
                node.children.insert(j, new_child);
                proof {
                    assert(node.children@ =~= self.children@.update(j as int, node.children@[j as int]));
                    assert(has_path(node, tail)) by {
                        assert(node.children@[j as int].letter == c);
                        assert(has_path(node.children@[j as int], tail.drop_first()));
                    }
                    assert forall|s: Seq<char>| has_path(self, s) implies has_path(node, s) by {
                        if s.len() > 0 {
                            let t = choose|t: int|
                                0 <= t < self.children.len() && (#[trigger] self.children[t]).letter
                                    == s[0] && has_path(self.children[t], s.drop_first());
                            if t == j {
                                assert(has_path(node.children@[t], s.drop_first()));
                            } else {
                                assert(node.children@[t] == self.children@[t]);
                            }
                        }
                    }
                    if wf_trie(self) {
                        assert(wf_trie(self.children@[j as int]));
                        assert forall|t: int| 0 <= t < node.children@.len() implies wf_trie(
                            #[trigger] node.children@[t],
                        ) by {
                            if t != j {
                                assert(node.children@[t] == self.children@[t]);
                            }
                        }
                        assert forall|t: int, u: int|
                            0 <= t < u < node.children@.len() implies (
                        #[trigger] node.children@[t]).letter != (
                        #[trigger] node.children@[u]).letter by {
                            assert(node.children@[t].letter == self.children@[t].letter);
                            assert(node.children@[u].letter == self.children@[u].letter);
                        }
                        assert(wf_trie(node));
                    }
                }
                node
            },
            None => {
                let fresh_node = Node { children: Vec::new(), letter: c };
                let new_child = fresh_node.append_chars(chars, i + 1);
                node.children.push(new_child);
                proof {
                    let idx = node.children@.len() - 1;
                    assert(node.children@ =~= self.children@.push(node.children@[idx]));
                    assert(has_path(node, tail)) by {
                        assert(node.children@[idx].letter == c);
                        assert(has_path(node.children@[idx], tail.drop_first()));
                    }
                    assert forall|s: Seq<char>| has_path(self, s) implies has_path(node, s) by {
                        if s.len() > 0 {
                            let t = choose|t: int|
                                0 <= t < self.children.len() && (#[trigger] self.children[t]).letter
                                    == s[0] && has_path(self.children[t], s.drop_first());
                            assert(node.children@[t] == self.children@[t]);
                        }
                    }
                    if wf_trie(self) {
                        assert(wf_trie(fresh_node));
                        assert(wf_trie(new_child));
                        assert forall|t: int| 0 <= t < node.children@.len() implies wf_trie(
                            #[trigger] node.children@[t],
                        ) by {
                            if t < idx {
                                assert(node.children@[t] == self.children@[t]);
                            }
                        }
                        assert forall|t: int, u: int|
                            0 <= t < u < node.children@.len() implies (
                        #[trigger] node.children@[t]).letter != (
                        #[trigger] node.children@[u]).letter by {
                            if u < idx {
                                assert(node.children@[t].letter == self.children@[t].letter);
                                assert(node.children@[u].letter == self.children@[u].letter);
                            } else {
                                assert(node.children@[u].letter == c);
                                assert(node.children@[t] == self.children@[t]);
                            }
                        }
                        assert(wf_trie(node));
                    }
                }
                node
            },
        }
    }

    /// The position of the child that carries the letter `c`, if any child
    /// does.
    fn find_child(&self, c: char) -> (r: Option<usize>)
        ensures
            r matches Some(j) ==> j < self.children@.len() && self.children@[j as int].letter
                == c,
            r is None ==> forall|t: int|
                0 <= t < self.children@.len() ==> (#[trigger] self.children@[t]).letter != c,
    {
        let mut j: usize = 0;
        while j < self.children.len()
            invariant
                j <= self.children@.len(),
                forall|t: int| 0 <= t < j ==> (#[trigger] self.children@[t]).letter != c,
            decreases self.children@.len() - j,
        {
            if self.children[j].letter == c {
                return Some(j);
            }
            j += 1;
        }
        None
    }

    /// Walk a random path from this node down to a leaf and hand the letters
    /// back as a fresh practice word.
    pub fn gen_word(&self) -> (w: Word)
        ensures
            word_fresh(w),
            is_leaf_word(*self, word_chars(w)),
        decreases *self,
    {
        if self.children.len() == 0 {
            fresh_word(self.letter)
        } else {
            let idx = random_index(self.children.len());
            let sub = self.children[idx].gen_word();
            if self.letter != '\0' {
                let w = prepend_letter(sub, self.letter);
                proof {
                    assert(word_chars(w).drop_first() =~= word_chars(sub));
                    assert(is_leaf_word(*self, word_chars(w))) by {
                        assert(0 <= idx < self.children.len() && is_leaf_word(
                            self.children[idx as int],
                            word_chars(w).drop_first(),
                        ));
                    }
                }
                w
            } else {
                proof {
                    assert(is_leaf_word(*self, word_chars(sub))) by {
                        assert(0 <= idx < self.children.len() && is_leaf_word(
                            self.children[idx as int],
                            word_chars(sub),
                        ));
                    }
                }
                sub
            }
        }
    }

    /// A random practice word with a trailing blank, ready to be typed in a
    /// line of words.
    pub fn gen_word_with_space(&self) -> (w: Word)
        ensures
            word_fresh(w),
            exists|base: Seq<char>|
                is_leaf_word(*self, base) && word_chars(w) == base.push(' '),
    {
        let mut word = self.gen_word();
        let ghost base = word_chars(word);
        word.letters.push(Letter { letter: ' ', correct: None });
        push_char(&mut word.output, ' ');
        proof {
            assert(word_chars(word) =~= base.push(' '));
        }
        word
    }

    /// A word of the trie that contains the wanted letter, found by walking
    /// down deterministically; `None` exactly when no word of the trie
    /// contains that letter.
    pub fn find_word_with(&self, wanted: char) -> (r: Option<Word>)
        ensures
            r matches Some(w) ==> word_fresh(w) && is_leaf_word(*self, word_chars(w))
                && word_chars(w).contains(wanted),
            r is None ==> forall|s: Seq<char>|
                is_leaf_word(*self, s) ==> !s.contains(wanted),
        decreases *self,
    {
        if self.children.len() == 0 {
            if self.letter == wanted {
                let w = fresh_word(self.letter);
                proof {
                    assert(word_chars(w)[0] == wanted);
                }
                Some(w)
            } else {
                proof {
                    assert forall|s: Seq<char>| is_leaf_word(*self, s) implies !s.contains(
                        wanted,
                    ) by {
                        if s.contains(wanted) {
                            let k = choose|k: int| 0 <= k < s.len() && s[k] == wanted;
                            assert(seq![self.letter][k] == self.letter);
                        }
                    }
                }
                None
            }
        } else if self.letter == wanted && self.letter != '\0' {
            let sub = self.children[0].gen_word();
            let w = prepend_letter(sub, self.letter);
            proof {
                assert(word_chars(w)[0] == wanted);
                assert(word_chars(w).drop_first() =~= word_chars(sub));
                assert(is_leaf_word(*self, word_chars(w))) by {
                    assert(0 <= 0 < self.children.len() && is_leaf_word(
                        self.children[0],
                        word_chars(w).drop_first(),
                    ));
                }
            }
            Some(w)
        } else {
            let mut j: usize = 0;
            while j < self.children.len()
                invariant
                    j <= self.children@.len(),
                    forall|t: int|
                        0 <= t < j ==> forall|s: Seq<char>|
                            is_leaf_word(#[trigger] self.children@[t], s) ==> !s.contains(wanted),
                decreases self.children@.len() - j,
            {
                let found = self.children[j].find_word_with(wanted);
                match found {
                    Some(sub) => {
                        if self.letter != '\0' {
                            let w = prepend_letter(sub, self.letter);
                            proof {
                                assert(word_chars(w).drop_first() =~= word_chars(sub));
                                assert(word_chars(w)[1 + choose|k: int|
                                    0 <= k < word_chars(sub).len() && word_chars(sub)[k]
                                        == wanted] == wanted);
                                assert(is_leaf_word(*self, word_chars(w))) by {
                                    assert(0 <= j < self.children.len() && is_leaf_word(
                                        self.children[j as int],
                                        word_chars(w).drop_first(),
                                    ));
                                }
                            }
                            return Some(w);
                        } else {
                            proof {
                                assert(is_leaf_word(*self, word_chars(sub))) by {
                                    assert(0 <= j < self.children.len() && is_leaf_word(
                                        self.children[j as int],
                                        word_chars(sub),
                                    ));
                                }
                            }
                            return Some(sub);
                        }
                    },
                    None => {},
                }
                j += 1;
            }
            proof {
                assert forall|s: Seq<char>| is_leaf_word(*self, s) implies !s.contains(wanted) by {
                    let i = choose|i: int|
                        0 <= i < self.children.len() && (if self.letter == '\0' {
                            is_leaf_word(#[trigger] self.children[i], s)
                        } else {
                            s.len() >= 1 && s[0] == self.letter && is_leaf_word(
                                self.children[i],
                                s.drop_first(),
                            )
                        });
                    if self.letter == '\0' {
                    } else {
                        if s.contains(wanted) {
                            let k = choose|k: int| 0 <= k < s.len() && s[k] == wanted;
                            if k > 0 {
                                assert(s.drop_first()[k - 1] == wanted);
                                assert(s.drop_first().contains(wanted));
                            }
                        }
                    }
                }
            }
            None
        }
    }

    /// A random practice word that contains the wanted letter. Random words
    /// are drawn until one contains it; after too many misses a
    /// deterministic walk finds one. The trie must be able to produce such a
    /// word — on a trie that cannot, the original search would never end.
    pub fn gen_word_with(&self, wanted: char) -> (w: Word)
        requires
            exists|s: Seq<char>| is_leaf_word(*self, s) && s.contains(wanted),
        ensures
            word_fresh(w),
            is_leaf_word(*self, word_chars(w)),
            word_chars(w).contains(wanted),
    {
        let mut attempts: usize = 0;
        while attempts < 32
            invariant
                exists|s: Seq<char>| is_leaf_word(*self, s) && s.contains(wanted),
            decreases 32 - attempts,
        {
            let word = self.gen_word();
            let mut found = false;
            let mut k: usize = 0;
            while k < word.letters.len()
                invariant
                    k <= word.letters@.len(),
                    word_fresh(word),
                    is_leaf_word(*self, word_chars(word)),
                    found ==> word_chars(word).contains(wanted),
                decreases word.letters@.len() - k,
            {
                if word.letters[k].letter == wanted {
                    proof {
                        assert(word_chars(word)[k as int] == wanted);
                    }
                    found = true;
                }
                k += 1;
            }
            if found {
                return word;
            }
            attempts += 1;
        }
        match self.find_word_with(wanted) {
            Some(word) => word,
            None => {
                // The search is complete, so this cannot happen for a trie
                // that holds a word with the wanted letter.
                proof {
                    let s = choose|s: Seq<char>| is_leaf_word(*self, s) && s.contains(wanted);
                    assert(false);
                }
                fresh_word(wanted)
            },
        }
    }

    /// A random practice word that contains the wanted letter, with a
    /// trailing blank. As for `gen_word_with`, the trie must be able to
    /// produce a word with that letter.
    pub fn gen_word_with_space_includes(&self, wanted: char) -> (w: Word)
        requires
            exists|s: Seq<char>| is_leaf_word(*self, s) && s.contains(wanted),
        ensures
            word_fresh(w),
            exists|base: Seq<char>|
                is_leaf_word(*self, base) && base.contains(wanted) && word_chars(w) == base.push(
                    ' ',
                ),
    {
        let mut word = self.gen_word_with(wanted);
        let ghost base = word_chars(word);
        word.letters.push(Letter { letter: ' ', correct: None });
        push_char(&mut word.output, ' ');
        proof {
            assert(word_chars(word) =~= base.push(' '));
        }
        word
    }
}

/// The letters met on a depth-first walk of the trie below `n`: the node's
/// own letter after its subtrees when `bubble` is set, before them otherwise.
pub open spec fn spec_walk(n: Node, bubble: bool) -> Seq<char>
    decreases n,
{
    if bubble {
        spec_walk_children(n.children@, bubble) + seq![n.letter]
    } else {
        seq![n.letter] + spec_walk_children(n.children@, bubble)
    }
}

/// The concatenated walks of a row of subtrees, left to right.
pub open spec fn spec_walk_children(cs: Seq<Node>, bubble: bool) -> Seq<char>
    decreases cs,
{
    if cs.len() == 0 {
        Seq::empty()
    } else {
        spec_walk(cs[0], bubble) + spec_walk_children(cs.drop_first(), bubble)
    }
}

impl Node {
    /// Visit every node of the trie depth-first and hand back the letters in
    /// visit order: children before their parent when `bubble` is set,
    /// the parent first otherwise.
    pub fn walk(&self, bubble: bool) -> (r: Vec<char>)
        ensures
            r@ == spec_walk(*self, bubble),
        decreases *self,
    {
        let mut out: Vec<char> = Vec::new();
        if !bubble {
            out.push(self.letter);
        }
        let mut k: usize = 0;
        while k < self.children.len()
            invariant
                k <= self.children@.len(),
                out@ == (if bubble {
                    Seq::<char>::empty()
                } else {
                    seq![self.letter]
                }) + spec_walk_prefix(self.children@, k as int, bubble),
            decreases self.children@.len() - k,
        {
            let ghost pre = out@;
            let sub = self.children[k].walk(bubble);
            let mut t: usize = 0;
            while t < sub.len()
                invariant
                    t <= sub@.len(),
                    out@ == pre + sub@.take(t as int),
                decreases sub@.len() - t,
            {
                out.push(sub[t]);
                t += 1;
                proof {
                    assert(out@ =~= pre + sub@.take(t as int));
                }
            }
            k += 1;
            proof {
                assert(sub@.take(sub@.len() as int) =~= sub@);
                lemma_walk_prefix_step(self.children@, k as int - 1, bubble);
                assert(out@ =~= (if bubble {
                    Seq::<char>::empty()
                } else {
                    seq![self.letter]
                }) + spec_walk_prefix(self.children@, k as int, bubble));
            }
        }
        if bubble {
            out.push(self.letter);
        }
        proof {
            lemma_walk_prefix_all(self.children@, bubble);
            assert(out@ =~= spec_walk(*self, bubble));
        }
        out
    }
}

/// The concatenated walks of the first `k` subtrees of a row.
pub open spec fn spec_walk_prefix(cs: Seq<Node>, k: int, bubble: bool) -> Seq<char>
    decreases k,
{
    if k <= 0 {
        Seq::empty()
    } else {
        spec_walk_prefix(cs, k - 1, bubble) + spec_walk(cs[k - 1], bubble)
    }
}

proof fn lemma_walk_prefix_step(cs: Seq<Node>, k: int, bubble: bool)
    requires
        0 <= k < cs.len(),
    ensures
        spec_walk_prefix(cs, k + 1, bubble) == spec_walk_prefix(cs, k, bubble) + spec_walk(
            cs[k],
            bubble,
        ),
{
}

proof fn lemma_walk_prefix_all(cs: Seq<Node>, bubble: bool)
    ensures
        spec_walk_prefix(cs, cs.len() as int, bubble) == spec_walk_children(cs, bubble),
    decreases cs.len(),
{
    if cs.len() > 0 {
        lemma_walk_prefix_all(cs.drop_first(), bubble);
        assert forall|k: int| 0 <= k <= cs.len() - 1 implies spec_walk_prefix(
            cs.drop_first(),
            k,
            bubble,
        ) == spec_walk_prefix(cs, k + 1, bubble).skip(spec_walk(cs[0], bubble).len() as int) by {
            lemma_walk_prefix_shift(cs, k, bubble);
        }
        lemma_walk_prefix_shift(cs, cs.len() - 1, bubble);
        assert(spec_walk_prefix(cs, cs.len() as int, bubble) =~= spec_walk(cs[0], bubble)
            + spec_walk_children(cs.drop_first(), bubble));
    }
}

proof fn lemma_walk_prefix_shift(cs: Seq<Node>, k: int, bubble: bool)
    requires
        0 <= k <= cs.len() - 1,
    ensures
        spec_walk_prefix(cs, k + 1, bubble) == spec_walk(cs[0], bubble) + spec_walk_prefix(
            cs.drop_first(),
            k,
            bubble,
        ),
    decreases k,
{
    if k == 0 {
        assert(spec_walk_prefix(cs, 0, bubble) =~= Seq::<char>::empty());
        assert(spec_walk_prefix(cs, 1, bubble) =~= spec_walk(cs[0], bubble));
    } else {
        lemma_walk_prefix_shift(cs, k - 1, bubble);
        assert(cs.drop_first()[k - 1] == cs[k]);
        assert(spec_walk_prefix(cs.drop_first(), k, bubble) == spec_walk_prefix(
            cs.drop_first(),
            k - 1,
            bubble,
        ) + spec_walk(cs.drop_first()[k - 1], bubble));
        assert(spec_walk_prefix(cs, k + 1, bubble) =~= spec_walk(cs[0], bubble)
            + spec_walk_prefix(cs.drop_first(), k, bubble));
    }
}

/// A line of `length` random words, each with its trailing blank.
pub fn gen_line(root: &Node, length: u32) -> (r: Vec<Word>)
    ensures
        r@.len() == length,
        forall|i: int|
            0 <= i < r@.len() ==> word_fresh(#[trigger] r@[i]) && exists|base: Seq<char>|
                is_leaf_word(*root, base) && word_chars(r@[i]) == base.push(' '),
{
    let mut line: Vec<Word> = Vec::new();
    let mut k: u32 = 0;
    while k < length
        invariant
            k <= length,
            line@.len() == k,
            forall|i: int|
                0 <= i < line@.len() ==> word_fresh(#[trigger] line@[i]) && exists|base: Seq<char>|
                    is_leaf_word(*root, base) && word_chars(line@[i]) == base.push(' '),
        decreases length - k,
    {
        line.push(root.gen_word_with_space());
        k += 1;
    }
    line
}

/// The concatenated display texts of a line of words.
pub open spec fn spec_outputs(ws: Seq<Word>) -> Seq<char>
    decreases ws.len(),
{
    if ws.len() == 0 {
        Seq::empty()
    } else {
        spec_outputs(ws.drop_last()) + ws.last().output@
    }
}

/// Join a line of words into the single string shown to the player.
pub fn gen_string_line(line: &Vec<Word>) -> (r: String)
    ensures
        r@ == spec_outputs(line@),
{
    let mut out = String::new();
    let mut k: usize = 0;
    while k < line.len()
        invariant
            k <= line@.len(),
            out@ == spec_outputs(line@.take(k as int)),
        decreases line@.len() - k,
    {
        out.append(line[k].output.as_str());
        k += 1;
        proof {
            assert(line@.take(k as int).drop_last() =~= line@.take(k as int - 1));
        }
    }
    proof {
        assert(line@.take(line@.len() as int) =~= line@);
    }
    out
}

} // verus!
