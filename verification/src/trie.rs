use crate::text::strs;
use vstd::prelude::*;
use vstd::string::*;

verus! {

/// A node of a trie: its children by scalar, in ascending order, and the
/// word that ends here, if one does.
#[derive(Debug)]
pub struct TrieNode {
    labels: Vec<char>,
    children: Vec<TrieNode>,
    word: Option<String>,
}

/// A trie of words, scalar by scalar.
pub struct Trie {
    root: TrieNode,
}

/// The word of a node as a list: the word, or nothing.
pub open spec fn own(word: Option<Seq<char>>) -> Seq<Seq<char>> {
    match word {
        Some(w) => seq![w],
        None => Seq::empty(),
    }
}

impl TrieNode {
    /// The scalars that lead on from here, in ascending order.
    pub closed spec fn labels(&self) -> Seq<char> {
        self.labels@
    }

    /// The nodes that the scalars lead to, in the order of `labels`.
    pub closed spec fn nodes(&self) -> Seq<TrieNode> {
        self.children@
    }

    /// The word that ends here.
    pub closed spec fn ending(&self) -> Option<Seq<char>> {
        match self.word {
            Some(w) => Some(w@),
            None => None,
        }
    }

    /// Each scalar has its node, the scalars ascend, and the same holds
    /// further down.
    pub open spec fn wf(&self) -> bool
        decreases self,
    {
        &&& self.labels().len() == self.nodes().len()
        &&& forall|i: int, j: int|
            0 <= i < j < self.labels().len() ==> self.labels()[i] < self.labels()[j]
        &&& forall|i: int| 0 <= i < self.nodes().len() ==> (#[trigger] self.nodes()[i]).wf()
    }

    /// The node that `c` leads to from here.
    pub open spec fn child(&self, c: char) -> Option<TrieNode> {
        if exists|i: int| 0 <= i < self.labels().len() && self.labels()[i] == c {
            Some(self.nodes()[choose|i: int| 0 <= i < self.labels().len() && self.labels()[i] == c])
        } else {
            None
        }
    }

    /// The node that the scalars of `path` lead to from here.
    pub open spec fn lookup(&self, path: Seq<char>) -> Option<TrieNode>
        decreases path.len(),
    {
        if path.len() == 0 {
            Some(*self)
        } else {
            match self.child(path[0]) {
                Some(node) => node.lookup(path.drop_first()),
                None => None,
            }
        }
    }

    /// `path` leads to a node from here.
    pub open spec fn reaches(&self, path: Seq<char>) -> bool {
        self.lookup(path) is Some
    }

    /// `path` leads from here to a node at which a word ends.
    pub open spec fn holds(&self, path: Seq<char>) -> bool {
        match self.lookup(path) {
            Some(node) => node.ending() is Some,
            None => false,
        }
    }

    /// The word that ends where `path` leads from here.
    pub open spec fn ending_at(&self, path: Seq<char>) -> Option<Seq<char>> {
        match self.lookup(path) {
            Some(node) => node.ending(),
            None => None,
        }
    }

    /// The words below the first `n` children, child by child: for each
    /// child its own word, then the words below it.
    pub open spec fn listing_upto(&self, n: nat) -> Seq<Seq<char>>
        decreases self, n,
    {
        if 0 < n <= self.nodes().len() {
            self.listing_upto((n - 1) as nat) + own(self.nodes()[n - 1].ending()) + self.nodes()[n
                - 1].listing()
        } else {
            Seq::empty()
        }
    }

    /// The words below this node, in the order of the scalars that lead to
    /// them, a word before those that it is a prefix of.
    pub open spec fn listing(&self) -> Seq<Seq<char>>
        decreases self, self.nodes().len() + 1,
    {
        self.listing_upto(self.nodes().len())
    }

    /// A node without children and without a word.
    pub fn new() -> (r: TrieNode)
        ensures
            r.wf(),
            r.labels().len() == 0,
            r.ending() is None,
    {
        TrieNode { labels: Vec::new(), children: Vec::new(), word: None }
    }

    /// Whether a word ends here.
    pub fn is_complete_word(&self) -> (r: bool)
        ensures
            r == self.ending() is Some,
    {
        self.word.is_some()
    }

    /// The word that ends here.
    pub fn get_word(&self) -> (r: Option<&str>)
        ensures
            match r {
                Some(w) => self.ending() == Some(w@),
                None => self.ending() is None,
            },
    {
        match &self.word {
            Some(w) => Some(w.as_str()),
            None => None,
        }
    }

    /// The place of `c` among the children.
    fn slot(&self, c: char) -> (r: Option<usize>)
        requires
            self.wf(),
        ensures
            match r {
                Some(i) => i < self.labels().len() && self.labels()[i as int] == c && self.child(c)
                    == Some(self.nodes()[i as int]),
                None => self.child(c) is None,
            },
    {
        let mut i: usize = 0;
        while i < self.labels.len()
            invariant
                i <= self.labels.len(),
                self.wf(),
                forall|k: int| 0 <= k < i ==> self.labels()[k] != c,
            decreases self.labels.len() - i,
        {
            if self.labels[i] == c {
                proof {
                    let k = choose|k: int| 0 <= k < self.labels().len() && self.labels()[k] == c;
                    if k < i {
                        assert(self.labels()[k] < self.labels()[i as int]);
                    } else if k > i {
                        assert(self.labels()[i as int] < self.labels()[k]);
                    }
                }
                return Some(i);
            }
            i = i + 1;
        }
        None
    }

    /// The node that the scalars of `word` lead to from here.
    pub fn get_matching_node(&self, word: &str) -> (r: Option<&TrieNode>)
        requires
            self.wf(),
        ensures
            match r {
                Some(node) => self.lookup(word@) == Some(*node) && node.wf(),
                None => self.lookup(word@) is None,
            },
    {
        let mut current_node = self;
        assert(word@.take(0) == Seq::<char>::empty());
        for ch in it: word.chars()
            invariant
                it.seq() == word@,
                self.wf(),
                current_node.wf(),
                self.lookup(word@.take(it.index() as int)) == Some(*current_node),
        {
            let ghost done = word@.take(it.index() as int);
            proof {
                lemma_lookup_push(*self, done, ch);
                assert(done.push(ch) == word@.take(it.index() + 1));
            }
            match current_node.slot(ch) {
                Some(i) => {
                    current_node = &current_node.children[i];
                },
                None => {
                    proof {
                        lemma_lookup_prefix(*self, word@, it.index() + 1);
                    }
                    return None;
                },
            }
        }
        assert(word@.take(word@.len() as int) == word@);
        Some(current_node)
    }

    /// The place of `c` among the children, which gets an empty child where
    /// it had none.
    fn ensure_child(&mut self, c: char) -> (k: usize)
        requires
            old(self).wf(),
        ensures
            final(self).wf(),
            k < final(self).labels().len(),
            final(self).labels()[k as int] == c,
            final(self).ending() == old(self).ending(),
            match old(self).child(c) {
                Some(node) => final(self).nodes()[k as int] == node,
                None => {
                    &&& final(self).nodes()[k as int].labels().len() == 0
                    &&& final(self).nodes()[k as int].ending() is None
                },
            },
            forall|d: char| d != c ==> final(self).child(d) == old(self).child(d),
    {
        let mut i: usize = 0;
        while i < self.labels.len() && self.labels[i] < c
            invariant
                i <= self.labels.len(),
                self.wf(),
                *self == *old(self),
                forall|j: int| 0 <= j < i ==> self.labels()[j] < c,
            decreases self.labels.len() - i,
        {
            i = i + 1;
        }
        if i < self.labels.len() && self.labels[i] == c {
            proof {
                lemma_child_at(*self, i as int);
            }
            return i;
        }
        let ghost before = *self;
        self.labels.insert(i, c);
        self.children.insert(i, TrieNode::new());
        proof {
            let after = *self;
            assert(after.labels() == before.labels().insert(i as int, c));
            assert(after.nodes().len() == before.nodes().len() + 1);
            assert forall|a: int, b: int| 0 <= a < b < after.labels().len() implies after.labels()[a]
                < after.labels()[b] by {
                let a0 = if a < i { a } else { a - 1 };
                let b0 = if b < i { b } else { b - 1 };
                if a != i && b != i {
                    assert(before.labels()[a0] < before.labels()[b0]);
                } else if a == i {
                    assert(before.labels()[b0] > c) by {
                        if b0 > i {
                            assert(before.labels()[i as int] < before.labels()[b0]);
                        }
                    }
                }
            }
            assert forall|j: int| 0 <= j < after.nodes().len() implies (
            #[trigger] after.nodes()[j]).wf() by {
                if j < i {
                    assert(after.nodes()[j] == before.nodes()[j]);
                } else if j > i {
                    assert(after.nodes()[j] == before.nodes()[j - 1]);
                }
            }
            assert(before.child(c) is None) by {
                if exists|j: int| 0 <= j < before.labels().len() && before.labels()[j] == c {
                    let j = choose|j: int| 0 <= j < before.labels().len() && before.labels()[j] == c;
                    if j > i {
                        assert(before.labels()[i as int] < before.labels()[j]);
                    }
                }
            }
            assert forall|d: char| d != c implies after.child(d) == before.child(d) by {
                if exists|j: int| 0 <= j < before.labels().len() && before.labels()[j] == d {
                    let j = choose|j: int| 0 <= j < before.labels().len() && before.labels()[j] == d;
                    let j1 = if j < i { j } else { j + 1 };
                    assert(after.labels()[j1] == d);
                    lemma_child_at(before, j);
                    lemma_child_at(after, j1);
                    assert(after.nodes()[j1] == before.nodes()[j]);
                } else {
                    if exists|j: int| 0 <= j < after.labels().len() && after.labels()[j] == d {
                        let j = choose|j: int| 0 <= j < after.labels().len() && after.labels()[j] == d;
                        let j0 = if j < i { j } else { j - 1 };
                        assert(before.labels()[j0] == d);
                    }
                }
            }
        }
        i
    }

    /// Makes the path of `chars` from `from` on lead to a node from here,
    /// and lets `word` end there.
    fn insert_from(&mut self, chars: &Vec<char>, from: usize, word: &str)
        requires
            old(self).wf(),
            from <= chars.len(),
        ensures
            final(self).wf(),
            final(self).ending() == if from == chars.len() {
                Some(word@)
            } else {
                old(self).ending()
            },
            forall|p: Seq<char>|
                final(self).reaches(p) <==> old(self).reaches(p) || starts(
                    chars@.skip(from as int),
                    p,
                ),
            forall|p: Seq<char>|
                final(self).ending_at(p) == if p == chars@.skip(from as int) {
                    Some(word@)
                } else {
                    old(self).ending_at(p)
                },
        decreases chars.len() - from,
    {
        let ghost rest = chars@.skip(from as int);
        let ghost before = *self;
        if from == chars.len() {
            self.word = Some(word.to_owned());
            proof {
                let after = *self;
                assert(rest.len() == 0);
                assert forall|p: Seq<char>| after.lookup(p) == if p.len() == 0 {
                    Some(after)
                } else {
                    before.lookup(p)
                } by {
                    if p.len() > 0 {
                        assert(after.child(p[0]) == before.child(p[0]));
                    }
                }
                assert forall|p: Seq<char>|
                    after.reaches(p) <==> before.reaches(p) || starts(rest, p) by {}
                assert forall|p: Seq<char>|
                    after.ending_at(p) == if p == rest {
                        Some(word@)
                    } else {
                        before.ending_at(p)
                    } by {
                    if p.len() == 0 {
                        assert(p == rest);
                    }
                }
            }
            return ;
        }
        let c = chars[from];
        let k = self.ensure_child(c);
        let ghost middle = *self;
        let ghost down = chars@.skip(from + 1);
        proof {
            assert(rest[0] == c);
            assert(rest.drop_first() == down);
            lemma_child_at(middle, k as int);
        }
        self.children[k].insert_from(chars, from + 1, word);
        proof {
            let after = *self;
            let old_child = middle.nodes()[k as int];
            let new_child = after.nodes()[k as int];
            assert(after.labels() == middle.labels());
            assert(after.nodes() == middle.nodes().update(k as int, new_child));
            assert forall|j: int| 0 <= j < after.nodes().len() implies (
            #[trigger] after.nodes()[j]).wf() by {
                if j != k {
                    assert(after.nodes()[j] == middle.nodes()[j]);
                }
            }
            lemma_child_at(after, k as int);
            assert forall|d: char| d != c implies after.child(d) == before.child(d) by {
                assert(middle.child(d) == before.child(d));
                if exists|j: int| 0 <= j < middle.labels().len() && middle.labels()[j] == d {
                    let j = choose|j: int| 0 <= j < middle.labels().len() && middle.labels()[j] == d;
                    lemma_child_at(middle, j);
                    lemma_child_at(after, j);
                }
            }
            assert forall|p: Seq<char>|
                after.reaches(p) <==> before.reaches(p) || starts(rest, p) by {
                if p.len() > 0 {
                    let q = p.drop_first();
                    if p[0] == c {
                        assert(after.lookup(p) == new_child.lookup(q));
                        assert(new_child.reaches(q) <==> old_child.reaches(q) || starts(down, q));
                        lemma_starts_step(rest, p);
                        assert(starts(rest, p) <==> starts(down, q));
                        match before.child(c) {
                            Some(node) => {
                                assert(before.lookup(p) == old_child.lookup(q));
                                assert(after.reaches(p) <==> before.reaches(p) || starts(rest, p));
                            },
                            None => {
                                assert(before.lookup(p) is None);
                                if q.len() > 0 {
                                    assert(old_child.child(q[0]) is None);
                                    assert(!old_child.reaches(q));
                                } else {
                                    assert(starts(down, q)) by {
                                        assert(down.take(0) == q);
                                    }
                                }
                                assert(after.reaches(p) <==> before.reaches(p) || starts(rest, p));
                            },
                        }
                    } else {
                        assert(after.lookup(p) == before.lookup(p));
                        assert(!starts(rest, p)) by {
                            if starts(rest, p) {
                                assert(rest.take(p.len() as int)[0] == p[0]);
                            }
                        }
                    }
                } else {
                    assert(starts(rest, p)) by {
                        assert(rest.take(0) == p);
                    }
                }
            }
            assert forall|p: Seq<char>|
                after.ending_at(p) == if p == rest {
                    Some(word@)
                } else {
                    before.ending_at(p)
                } by {
                if p.len() > 0 {
                    let q = p.drop_first();
                    if p[0] == c {
                        assert(after.lookup(p) == new_child.lookup(q));
                        assert(new_child.ending_at(q) == if q == down {
                            Some(word@)
                        } else {
                            old_child.ending_at(q)
                        });
                        assert(p == rest <==> q == down) by {
                            if q == down {
                                assert(p == seq![c] + q);
                                assert(rest == seq![c] + down);
                            }
                        }
                        match before.child(c) {
                            Some(node) => {
                                assert(before.lookup(p) == old_child.lookup(q));
                            },
                            None => {
                                assert(before.lookup(p) is None);
                                if q.len() > 0 {
                                    assert(old_child.child(q[0]) is None);
                                }
                            },
                        }
                    } else {
                        assert(after.lookup(p) == before.lookup(p));
                        assert(p != rest);
                    }
                } else {
                    assert(p != rest);
                }
            }
        }
    }

    /// The words below this node.
    pub fn find_complete_words(&self) -> (r: Vec<&str>)
        requires
            self.wf(),
        ensures
            strs(r@) == self.listing(),
        decreases self,
    {
        let mut words: Vec<&str> = Vec::new();
        let mut i: usize = 0;
        while i < self.children.len()
            invariant
                i <= self.children.len(),
                self.wf(),
                strs(words@) == self.listing_upto(i as nat),
            decreases self.children.len() - i,
        {
            let node = &self.children[i];
            let ghost before = strs(words@);
            match &node.word {
                Some(word) => {
                    words.push(word.as_str());
                    assert(strs(words@) == before + own(node.ending()));
                },
                None => {
                    assert(strs(words@) == before + own(node.ending()));
                },
            }
            let ghost middle = strs(words@);
            let mut child_words = node.find_complete_words();
            let ghost below = strs(child_words@);
            words.append(&mut child_words);
            assert(strs(words@) == middle + below);
            i = i + 1;
        }
        words
    }
}

/// The scalars of a string, one by one.
fn scalars(word: &str) -> (chars: Vec<char>)
    ensures
        chars@ == word@,
{
    let mut chars: Vec<char> = Vec::new();
    for c in it: word.chars()
        invariant
            it.seq() == word@,
            chars@ == word@.take(it.index() as int),
    {
        chars.push(c);
        assert(word@.take(it.index() + 1).drop_last() == word@.take(it.index() as int));
    }
    assert(word@.take(word@.len() as int) == word@);
    chars
}

impl<'a> Trie {
    /// The node that every path starts from.
    pub closed spec fn top(&self) -> TrieNode {
        self.root
    }

    /// The nodes are well formed, and a word that ends at a node is the
    /// path that leads there.
    pub open spec fn wf(&self) -> bool {
        &&& self.top().wf()
        &&& forall|p: Seq<char>|
            (#[trigger] self.top().ending_at(p)) is Some ==> self.top().ending_at(p) == Some(p)
    }

    /// `path` leads to a node: it is what some word starts with, or empty.
    pub open spec fn reaches(&self, path: Seq<char>) -> bool {
        self.top().reaches(path)
    }

    /// `word` is a word of the trie.
    pub open spec fn contains(&self, word: Seq<char>) -> bool {
        self.top().holds(word)
    }

    /// The length of the longest prefix of `s` that leads to a node.
    pub open spec fn walk_len(&self, s: Seq<char>) -> nat
        decreases s.len(),
    {
        if self.reaches(s) || s.len() == 0 {
            s.len()
        } else {
            self.walk_len(s.drop_last())
        }
    }

    /// The walk of `s` is its longest prefix that leads to a node.
    pub proof fn lemma_walk_len(&self, s: Seq<char>)
        ensures
            self.walk_len(s) <= s.len(),
            self.reaches(s.take(self.walk_len(s) as int)),
            forall|m: int| self.walk_len(s) < m <= s.len() ==> !self.reaches(s.take(m)),
        decreases s.len(),
    {
        if self.reaches(s) || s.len() == 0 {
            assert(s.take(s.len() as int) == s);
        } else {
            let t = s.drop_last();
            self.lemma_walk_len(t);
            assert(t.take(self.walk_len(t) as int) == s.take(self.walk_len(t) as int));
            assert forall|m: int| self.walk_len(s) < m <= s.len() implies !self.reaches(
                s.take(m),
            ) by {
                if m < s.len() {
                    assert(t.take(m) == s.take(m));
                } else {
                    assert(s.take(m) == s);
                }
            }
        }
    }

    /// A prefix that leads to a node, and is all of `s` or cannot be made
    /// one scalar longer, is the walk of `s`.
    pub proof fn lemma_walk_len_is(&self, s: Seq<char>, n: nat)
        requires
            n <= s.len(),
            self.reaches(s.take(n as int)),
            n < s.len() ==> !self.reaches(s.take(n as int + 1)),
        ensures
            self.walk_len(s) == n,
    {
        self.lemma_walk_len(s);
        let k = self.walk_len(s);
        if k > n {
            let key = s.take(k as int);
            assert(key.take(n as int + 1) == s.take(n as int + 1));
            if self.top().lookup(key.take(n as int + 1)) is None {
                lemma_lookup_prefix(self.top(), key, n as int + 1);
            }
        }
    }

    /// A trie without words.
    pub fn new() -> (r: Trie)
        ensures
            r.wf(),
            forall|p: Seq<char>| !r.contains(p),
            forall|p: Seq<char>| r.reaches(p) <==> p.len() == 0,
    {
        let r = Trie { root: TrieNode::new() };
        proof {
            assert forall|p: Seq<char>| r.top().lookup(p) is Some <==> p.len() == 0 by {
                if p.len() > 0 {
                    assert(r.top().child(p[0]) is None);
                }
            }
        }
        r
    }

    /// Adds a word.
    pub fn insert(&mut self, word: &str)
        requires
            old(self).wf(),
        ensures
            final(self).wf(),
            forall|p: Seq<char>| final(self).contains(p) <==> old(self).contains(p) || p == word@,
            forall|p: Seq<char>|
                final(self).reaches(p) <==> old(self).reaches(p) || starts(word@, p),
    {
        let chars = scalars(word);
        assert(chars@.skip(0) == word@);
        self.root.insert_from(&chars, 0, word);
        proof {
            assert forall|p: Seq<char>|
                (#[trigger] self.top().ending_at(p)) is Some implies self.top().ending_at(p)
                == Some(p) by {
                if p != word@ {
                    assert(old(self).top().ending_at(p) is Some);
                }
            }
            assert forall|p: Seq<char>| self.contains(p) <==> old(self).contains(p) || p
                == word@ by {
                assert(self.top().ending_at(p) == if p == word@ {
                    Some(word@)
                } else {
                    old(self).top().ending_at(p)
                });
            }
        }
    }

    /// The trie of the given words.
    pub fn from_strings(words: Vec<&str>) -> (r: Trie)
        ensures
            r.wf(),
            forall|p: Seq<char>| r.contains(p) <==> strs(words@).contains(p),
            forall|p: Seq<char>|
                r.reaches(p) <==> p.len() == 0 || some_starts(strs(words@), words@.len() as int, p),
    {
        let mut trie = Trie::new();
        let ghost all = strs(words@);
        let mut i: usize = 0;
        while i < words.len()
            invariant
                i <= words.len(),
                all == strs(words@),
                trie.wf(),
                forall|p: Seq<char>| trie.contains(p) <==> all.take(i as int).contains(p),
                forall|p: Seq<char>|
                    trie.reaches(p) <==> p.len() == 0 || some_starts(all, i as int, p),
            decreases words.len() - i,
        {
            let ghost before = trie;
            trie.insert(words[i]);
            proof {
                assert(words@[i as int]@ == all[i as int]);
                lemma_contains_step(before, trie, all, i as int);
                lemma_reaches_step(before, trie, all, i as int);
            }
            i = i + 1;
        }
        assert(all.take(words@.len() as int) == all);
        trie
    }

    /// The node that the scalars of `word` lead to from the root.
    pub fn matching_node(&self, word: &str) -> (r: Option<&TrieNode>)
        requires
            self.wf(),
        ensures
            match r {
                Some(node) => self.top().lookup(word@) == Some(*node) && node.wf(),
                None => !self.reaches(word@),
            },
    {
        self.root.get_matching_node(word)
    }

    /// The node at the end of the walk of `word`, and the length of the
    /// walk in scalars.
    fn longest_prefix(&self, word: &str) -> (r: (&TrieNode, usize))
        requires
            self.wf(),
        ensures
            r.1 == self.walk_len(word@),
            r.1 <= word@.len(),
            self.top().lookup(word@.take(r.1 as int)) == Some(*r.0),
            r.0.wf(),
    {
        let len = word.unicode_len();
        let mut current_node = &self.root;
        let mut prefix_len: usize = 0;
        assert(word@.take(0) == Seq::<char>::empty());
        for ch in it: word.chars()
            invariant_except_break
                prefix_len == it.index(),
            invariant
                it.seq() == word@,
                len == word@.len(),
                prefix_len <= len,
                self.wf(),
                current_node.wf(),
                self.top().lookup(word@.take(prefix_len as int)) == Some(*current_node),
            ensures
                prefix_len < len ==> !self.reaches(word@.take(prefix_len + 1)),
        {
            proof {
                lemma_lookup_push(self.top(), word@.take(prefix_len as int), ch);
                assert(word@.take(prefix_len as int).push(ch) == word@.take(prefix_len + 1));
            }
            match current_node.slot(ch) {
                Some(i) => {
                    prefix_len = prefix_len + 1;
                    current_node = &current_node.children[i];
                },
                None => {
                    break ;
                },
            }
        }
        proof {
            self.lemma_walk_len_is(word@, prefix_len as nat);
        }
        (current_node, prefix_len)
    }

    /// The words at and below the end of the walk of `prefix`: first those
    /// below it, then the one that ends there. There are none where the
    /// walk is empty.
    pub fn match_prefix(&'a self, prefix: &'a str) -> (r: Vec<&'a str>)
        requires
            self.wf(),
        ensures
            strs(r@) == self.below(prefix@),
    {
        let mut result: Vec<&'a str> = Vec::new();
        if prefix.is_empty() {
            assert(strs(result@) == Seq::<Seq<char>>::empty());
            return result;
        }
        let (node, prefix_len) = self.longest_prefix(prefix);
        if prefix_len == 0 {
            assert(strs(result@) == Seq::<Seq<char>>::empty());
            return result;
        }
        let mut found = node.find_complete_words();
        result.append(&mut found);
        assert(strs(result@) == node.listing());
        match &node.word {
            Some(word) => {
                result.push(word.as_str());
                assert(strs(result@) == node.listing() + own(node.ending()));
            },
            None => {
                assert(strs(result@) == node.listing() + own(node.ending()));
            },
        }
        result
    }

    /// What `match_prefix` gives for `prefix`.
    pub open spec fn below(&self, prefix: Seq<char>) -> Seq<Seq<char>> {
        let n = self.walk_len(prefix) as int;
        if n == 0 {
            Seq::empty()
        } else {
            match self.top().lookup(prefix.take(n)) {
                Some(node) => node.listing() + own(node.ending()),
                None => Seq::empty(),
            }
        }
    }

    /// Walks from the root along the scalars of `prefix` as far as the trie
    /// goes. Gives what was walked, what is left, and whether a word ends
    /// where the walk ended. Of the empty string it gives nothing and
    /// `false`.
    pub fn match_longest_common_prefix(&self, prefix: &'a str) -> (r: (&'a str, &'a str, bool))
        requires
            self.wf(),
        ensures
            r.0@ + r.1@ == prefix@,
            r.0@ == prefix@.take(self.walk_len(prefix@) as int),
            r.1@ == prefix@.skip(self.walk_len(prefix@) as int),
            r.2 == (prefix@.len() > 0 && self.contains(r.0@)),
    {
        if prefix.is_empty() {
            assert(prefix@.take(0) == prefix@ && prefix@.skip(0) == prefix@);
            return (prefix, prefix, false);
        }
        let len = prefix.unicode_len();
        let (node, matched_prefix_len) = self.longest_prefix(prefix);
        let matched_prefix = prefix.substring_char(0, matched_prefix_len);
        let remaining = prefix.substring_char(matched_prefix_len, len);
        (matched_prefix, remaining, node.word.is_some())
    }
}

/// A path with one more scalar leads where that scalar leads from the end
/// of the path.
pub proof fn lemma_lookup_push(node: TrieNode, path: Seq<char>, c: char)
    ensures
        node.lookup(path.push(c)) == match node.lookup(path) {
            Some(end) => end.child(c),
            None => None,
        },
    decreases path.len(),
{
    let more = path.push(c);
    if path.len() == 0 {
        assert(more.drop_first() == Seq::<char>::empty());
        match node.child(c) {
            Some(n) => {
                assert(n.lookup(Seq::empty()) == Some(n));
            },
            None => {},
        }
    } else {
        assert(more[0] == path[0]);
        assert(more.drop_first() == path.drop_first().push(c));
        match node.child(path[0]) {
            Some(n) => {
                lemma_lookup_push(n, path.drop_first(), c);
            },
            None => {},
        }
    }
}

/// Where a path leads to a node, so does each of its prefixes.
pub proof fn lemma_lookup_prefix(node: TrieNode, path: Seq<char>, n: int)
    requires
        0 <= n <= path.len(),
        node.lookup(path.take(n)) is None,
    ensures
        node.lookup(path) is None,
    decreases path.len() - n,
{
    if n < path.len() {
        lemma_lookup_push(node, path.take(n), path[n]);
        assert(path.take(n).push(path[n]) == path.take(n + 1));
        lemma_lookup_prefix(node, path, n + 1);
    } else {
        assert(path.take(n) == path);
    }
}

/// `p` is what `s` starts with.
pub open spec fn starts(s: Seq<char>, p: Seq<char>) -> bool {
    p.len() <= s.len() && s.take(p.len() as int) == p
}

/// Two strings with the same first scalar: one starts with the other where
/// the same holds behind that scalar.
proof fn lemma_starts_step(s: Seq<char>, p: Seq<char>)
    requires
        s.len() > 0,
        p.len() > 0,
        p[0] == s[0],
    ensures
        starts(s, p) <==> starts(s.drop_first(), p.drop_first()),
{
    if starts(s, p) {
        assert(s.drop_first().take(p.len() - 1) == p.drop_first());
    }
    if starts(s.drop_first(), p.drop_first()) {
        assert(s.take(p.len() as int) == seq![s[0]] + s.drop_first().take(p.len() - 1));
        assert(p == seq![p[0]] + p.drop_first());
    }
}

/// The scalar at place `k` leads to the node at place `k`.
proof fn lemma_child_at(node: TrieNode, k: int)
    requires
        node.wf(),
        0 <= k < node.labels().len(),
    ensures
        node.child(node.labels()[k]) == Some(node.nodes()[k]),
{
    let c = node.labels()[k];
    let j = choose|j: int| 0 <= j < node.labels().len() && node.labels()[j] == c;
    if j < k {
        assert(node.labels()[j] < node.labels()[k]);
    } else if j > k {
        assert(node.labels()[k] < node.labels()[j]);
    }
}

/// A path in two parts leads where the second part leads from the end of
/// the first.
pub proof fn lemma_lookup_concat(node: TrieNode, q: Seq<char>, p: Seq<char>)
    ensures
        node.lookup(q + p) == match node.lookup(q) {
            Some(end) => end.lookup(p),
            None => None,
        },
    decreases q.len(),
{
    if q.len() == 0 {
        assert(q + p == p);
    } else {
        assert((q + p)[0] == q[0]);
        assert((q + p).drop_first() == q.drop_first() + p);
        match node.child(q[0]) {
            Some(n) => {
                lemma_lookup_concat(n, q.drop_first(), p);
            },
            None => {},
        }
    }
}

/// One of the first `n` words starts with `p`.
pub open spec fn some_starts(words: Seq<Seq<char>>, n: int, p: Seq<char>) -> bool {
    exists|k: int| 0 <= k < n && k < words.len() && starts(#[trigger] words[k], p)
}

/// With one more word the trie holds the first `i + 1` words.
proof fn lemma_contains_step(before: Trie, after: Trie, words: Seq<Seq<char>>, i: int)
    requires
        0 <= i < words.len(),
        forall|p: Seq<char>| before.contains(p) <==> words.take(i).contains(p),
        forall|p: Seq<char>| after.contains(p) <==> before.contains(p) || p == words[i],
    ensures
        forall|p: Seq<char>| after.contains(p) <==> words.take(i + 1).contains(p),
{
    let done = words.take(i);
    let more = words.take(i + 1);
    assert(more == done.push(words[i]));
    assert forall|p: Seq<char>| after.contains(p) <==> more.contains(p) by {
        if done.contains(p) {
            let k = choose|k: int| 0 <= k < done.len() && done[k] == p;
            assert(more[k] == p);
        }
        if p == words[i] {
            assert(more[i] == p);
        }
        if more.contains(p) {
            let k = choose|k: int| 0 <= k < more.len() && more[k] == p;
            if k < i {
                assert(done[k] == p);
            }
        }
    }
}

/// With one more word the trie reaches what one of the first `i + 1` words
/// starts with.
proof fn lemma_reaches_step(before: Trie, after: Trie, words: Seq<Seq<char>>, i: int)
    requires
        0 <= i < words.len(),
        forall|p: Seq<char>| before.reaches(p) <==> p.len() == 0 || some_starts(words, i, p),
        forall|p: Seq<char>| after.reaches(p) <==> before.reaches(p) || starts(words[i], p),
    ensures
        forall|p: Seq<char>| after.reaches(p) <==> p.len() == 0 || some_starts(words, i + 1, p),
{
    assert forall|p: Seq<char>| after.reaches(p) <==> p.len() == 0 || some_starts(
        words,
        i + 1,
        p,
    ) by {
        if some_starts(words, i, p) {
            let k = choose|k: int| 0 <= k < i && k < words.len() && starts(#[trigger] words[k], p);
            assert(starts(words[k], p));
        }
        if some_starts(words, i + 1, p) {
            let k = choose|k: int|
                0 <= k < i + 1 && k < words.len() && starts(#[trigger] words[k], p);
            if k < i {
                assert(some_starts(words, i, p));
            }
        }
    }
}

/// A node that a path leads to from a well-formed node is well formed.
pub proof fn lemma_lookup_wf(node: TrieNode, path: Seq<char>)
    requires
        node.wf(),
        node.lookup(path) is Some,
    ensures
        node.lookup(path)->0.wf(),
    decreases path.len(),
{
    if path.len() > 0 {
        let i = choose|i: int| 0 <= i < node.labels().len() && node.labels()[i] == path[0];
        assert(node.nodes()[i].wf());
        lemma_lookup_wf(node.nodes()[i], path.drop_first());
    }
}

/// The word `w` ends where `p` leads from the child at place `i`.
pub open spec fn ends_below(node: TrieNode, i: int, p: Seq<char>, w: Seq<char>) -> bool {
    0 <= i < node.nodes().len() && node.nodes()[i].ending_at(p) == Some(w)
}

/// What two lists hold, one behind the other, is what either holds.
proof fn lemma_concat_contains(a: Seq<Seq<char>>, b: Seq<Seq<char>>, w: Seq<char>)
    ensures
        (a + b).contains(w) <==> a.contains(w) || b.contains(w),
{
    let ab = a + b;
    if ab.contains(w) {
        let k = choose|k: int| 0 <= k < ab.len() && ab[k] == w;
        if k < a.len() {
            assert(a[k] == w);
        } else {
            assert(b[k - a.len()] == w);
        }
    }
    if a.contains(w) {
        let k = choose|k: int| 0 <= k < a.len() && a[k] == w;
        assert(ab[k] == w);
    }
    if b.contains(w) {
        let k = choose|k: int| 0 <= k < b.len() && b[k] == w;
        assert(ab[k + a.len()] == w);
    }
}

/// The words below the first `n` children are the words that end where a
/// path leads from one of them.
proof fn lemma_listing_upto(node: TrieNode, n: nat)
    requires
        node.wf(),
        n <= node.nodes().len(),
    ensures
        forall|w: Seq<char>|
            node.listing_upto(n).contains(w) <==> exists|i: int, p: Seq<char>|
                i < n && #[trigger] ends_below(node, i, p, w),
    decreases node, n,
{
    if n == 0 {
        assert(node.listing_upto(0) == Seq::<Seq<char>>::empty());
    } else {
        let m = (n - 1) as nat;
        let child = node.nodes()[m as int];
        lemma_listing_upto(node, m);
        lemma_listing(child);
        let a = node.listing_upto(m);
        let b = own(child.ending());
        let c = child.listing();
        assert forall|w: Seq<char>|
            node.listing_upto(n).contains(w) <==> exists|i: int, p: Seq<char>|
                i < n && #[trigger] ends_below(node, i, p, w) by {
            lemma_concat_contains(a + b, c, w);
            lemma_concat_contains(a, b, w);
            if a.contains(w) {
                let (i, p) = choose|i: int, p: Seq<char>|
                    i < m && #[trigger] ends_below(node, i, p, w);
                assert(ends_below(node, i, p, w));
            }
            if b.contains(w) {
                assert(b[0] == w);
                assert(child.lookup(Seq::empty()) == Some(child));
                assert(ends_below(node, m as int, Seq::empty(), w));
            }
            if c.contains(w) {
                let p = choose|p: Seq<char>| p.len() > 0 && child.ending_at(p) == Some(w);
                assert(ends_below(node, m as int, p, w));
            }
            if exists|i: int, p: Seq<char>| i < n && #[trigger] ends_below(node, i, p, w) {
                let (i, p) = choose|i: int, p: Seq<char>|
                    i < n && #[trigger] ends_below(node, i, p, w);
                if i < m {
                    assert(ends_below(node, i, p, w));
                    assert(a.contains(w));
                } else if p.len() == 0 {
                    assert(child.lookup(p) == Some(child));
                    assert(b[0] == w);
                } else {
                    assert(c.contains(w));
                }
            }
        }
    }
}

/// The words below a node are the words that end where a path of at least
/// one scalar leads from it.
pub proof fn lemma_listing(node: TrieNode)
    requires
        node.wf(),
    ensures
        forall|w: Seq<char>|
            node.listing().contains(w) <==> exists|p: Seq<char>|
                p.len() > 0 && #[trigger] node.ending_at(p) == Some(w),
    decreases node, node.nodes().len() + 1,
{
    lemma_listing_upto(node, node.nodes().len());
    assert(node.listing() == node.listing_upto(node.nodes().len()));
    assert forall|w: Seq<char>|
        node.listing().contains(w) <==> exists|p: Seq<char>|
            p.len() > 0 && #[trigger] node.ending_at(p) == Some(w) by {
        if node.listing().contains(w) {
            assert(node.listing_upto(node.nodes().len()).contains(w));
            let (i, p) = choose|i: int, p: Seq<char>|
                i < node.nodes().len() && #[trigger] ends_below(node, i, p, w);
            assert(ends_below(node, i, p, w));
            let path = seq![node.labels()[i]] + p;
            lemma_child_at(node, i);
            assert(path[0] == node.labels()[i]);
            assert(path.drop_first() == p);
            assert(node.ending_at(path) == Some(w));
        }
        if exists|p: Seq<char>| p.len() > 0 && #[trigger] node.ending_at(p) == Some(w) {
            let p = choose|p: Seq<char>| p.len() > 0 && #[trigger] node.ending_at(p) == Some(w);
            let i = choose|i: int| 0 <= i < node.labels().len() && node.labels()[i] == p[0];
            assert(ends_below(node, i, p.drop_first(), w));
        }
    }
}

impl Trie {
    /// What `match_prefix` gives are the words of the trie that start with
    /// the walk of the prefix, where that walk is not empty.
    pub proof fn lemma_below(&self, prefix: Seq<char>)
        requires
            self.wf(),
        ensures
            forall|w: Seq<char>|
                self.below(prefix).contains(w) <==> self.walk_len(prefix) > 0 && self.contains(w)
                    && starts(w, prefix.take(self.walk_len(prefix) as int)),
    {
        let n = self.walk_len(prefix) as int;
        let q = prefix.take(n);
        self.lemma_walk_len(prefix);
        if n > 0 {
            let node = self.top().lookup(q)->0;
            lemma_lookup_wf(self.top(), q);
            lemma_listing(node);
            assert forall|w: Seq<char>|
                self.below(prefix).contains(w) <==> self.contains(w) && starts(w, q) by {
                lemma_concat_contains(node.listing(), own(node.ending()), w);
                if node.listing().contains(w) {
                    let p = choose|p: Seq<char>|
                        p.len() > 0 && #[trigger] node.ending_at(p) == Some(w);
                    lemma_lookup_concat(self.top(), q, p);
                    assert(self.top().ending_at(q + p) == Some(w));
                    assert((q + p).take(q.len() as int) == q);
                }
                if own(node.ending()).contains(w) {
                    assert(own(node.ending())[0] == w);
                    assert(self.top().ending_at(q) == Some(w));
                    assert(q.take(q.len() as int) == q);
                }
                if self.contains(w) && starts(w, q) {
                    let p = w.skip(q.len() as int);
                    assert(w == q + p);
                    lemma_lookup_concat(self.top(), q, p);
                    assert(self.top().ending_at(w) is Some);
                    assert(node.ending_at(p) == Some(w));
                    if p.len() == 0 {
                        assert(node.lookup(p) == Some(node));
                        assert(own(node.ending())[0] == w);
                    }
                }
            }
        }
    }
}

} // verus!
