use crate::automaton::{
    begins, begun, builder_add, builder_bytes, builder_keys, fst_image, graph_of,
    index_from_bytes, index_node, index_root, target, Graph,
};
use crate::encoding::{byte_of, encode, encode_str, low_byte};
use crate::order::{ascending, key_le, lemma_lex_total, lex_le};
use fst::raw::{Builder, Fst, Node};
use vstd::prelude::*;
use vstd::string::*;

verus! {

/// A read-only index of byte-coded strings.
pub struct FstTree {
    fst: Fst<Vec<u8>>,
}

/// A place inside an index, together with the string that leads to it.
pub struct FstNode<'a> {
    fst: &'a Fst<Vec<u8>>,
    node: Node<'a>,
    word: String,
}

/// `data` is what a builder writes for some ascending list of keys.
pub open spec fn is_index_image(data: Seq<u8>) -> bool {
    exists|keys: Seq<Seq<u8>>| ascending(keys) && data == #[trigger] fst_image(keys)
}

/// `data` is what a builder writes for an ascending list of exactly the
/// keys in `keys`.
pub open spec fn is_image_of(data: Seq<u8>, keys: Set<Seq<u8>>) -> bool {
    exists|list: Seq<Seq<u8>>|
        ascending(list) && data == #[trigger] fst_image(list) && list.to_set() == keys
}

/// The views of a list of keys.
pub open spec fn key_views(keys: Seq<Vec<u8>>) -> Seq<Seq<u8>> {
    Seq::new(keys.len(), |i: int| keys[i]@)
}

/// The byte codes of a list of strings.
pub open spec fn encoded(words: Seq<&str>) -> Set<Seq<u8>> {
    Set::new(|key: Seq<u8>| exists|i: int| 0 <= i < words.len() && key == encode(#[trigger] words[i]@))
}

/// Whatever can be walked to its end can be walked to any point before it.
pub proof fn lemma_walk_prefix(g: Graph, key: Seq<u8>, n: int)
    requires
        0 <= n <= key.len(),
        g.reaches(key),
    ensures
        g.reaches(key.take(n)),
    decreases key.len(),
{
    if n < key.len() {
        assert(key.drop_last().take(n) == key.take(n));
        lemma_walk_prefix(g, key.drop_last(), n);
    } else {
        assert(key.take(n) == key);
    }
}

/// The byte codes of `words` in ascending order.
fn sorted_keys(words: &Vec<&str>) -> (keys: Vec<Vec<u8>>)
    ensures
        ascending(key_views(keys@)),
        key_views(keys@).to_set() == encoded(words@),
{
    let mut keys: Vec<Vec<u8>> = Vec::new();
    let mut i: usize = 0;
    while i < words.len()
        invariant
            i <= words.len(),
            ascending(key_views(keys@)),
            key_views(keys@).to_set() == encoded(words@.take(i as int)),
        decreases words.len() - i,
    {
        let key = encode_str(words[i]);
        let mut p: usize = 0;
        while p < keys.len() && key_le(keys[p].as_slice(), key.as_slice())
            invariant
                p <= keys.len(),
                p > 0 ==> lex_le(keys@[p - 1]@, key@),
            decreases keys.len() - p,
        {
            p = p + 1;
        }
        proof {
            if p < keys.len() {
                lemma_lex_total(keys@[p as int]@, key@);
            }
        }
        let ghost before = key_views(keys@);
        keys.insert(p, key);
        proof {
            let after = key_views(keys@);
            assert(after == before.insert(p as int, key@));
            assert forall|j: int| 0 < j < after.len() implies lex_le(
                #[trigger] after[j - 1],
                after[j],
            ) by {
                if j < p {
                    assert(after[j - 1] == before[j - 1] && after[j] == before[j]);
                } else if j == p {
                } else if j == p + 1 {
                } else {
                    assert(after[j - 1] == before[j - 2] && after[j] == before[j - 1]);
                    assert(lex_le(before[(j - 1) - 1], before[j - 1]));
                }
            }
            let done = words@.take(i as int);
            let more = words@.take(i + 1);
            assert(more.drop_last() == done);
            assert forall|k: Seq<u8>| after.to_set().contains(k) <==> encoded(more).contains(
                k,
            ) by {
                if after.contains(k) {
                    let j = choose|j: int| 0 <= j < after.len() && after[j] == k;
                    if j == p {
                        assert(k == encode(more[i as int]@));
                    } else {
                        let j0 = if j < p { j } else { j - 1 };
                        assert(before[j0] == k);
                        assert(before.to_set().contains(k));
                        let w = choose|w: int| 0 <= w < done.len() && k == encode(#[trigger] done[w]@);
                        assert(k == encode(more[w]@));
                    }
                }
                if encoded(more).contains(k) {
                    let w = choose|w: int| 0 <= w < more.len() && k == encode(#[trigger] more[w]@);
                    if w == i {
                        assert(after[p as int] == k);
                    } else {
                        assert(k == encode(done[w]@));
                        assert(encoded(done).contains(k));
                        assert(before.to_set().contains(k));
                        let j0 = choose|j0: int| 0 <= j0 < before.len() && before[j0] == k;
                        let j = if j0 < p { j0 } else { j0 + 1 };
                        assert(after[j] == k);
                    }
                }
            }
            assert(after.to_set() =~= encoded(more));
        }
        i = i + 1;
    }
    assert(words@.take(words@.len() as int) == words@);
    keys
}

/// The bytes of an index that holds the byte codes of `words`, each scalar
/// cut to its low eight bits.
pub fn index_bytes(words: &Vec<&str>) -> (data: Vec<u8>)
    ensures
        is_image_of(data@, encoded(words@)),
{
    let keys = sorted_keys(words);
    let mut builder = Builder::memory();
    let mut i: usize = 0;
    while i < keys.len()
        invariant
            i <= keys.len(),
            ascending(key_views(keys@)),
            builder_keys(builder) == key_views(keys@).take(i as int),
        decreases keys.len() - i,
    {
        let ghost taken = key_views(keys@).take(i as int);
        proof {
            if i > 0 {
                assert(taken.last() == key_views(keys@)[i - 1]);
                assert(lex_le(key_views(keys@)[i - 1], key_views(keys@)[i as int]));
            }
        }
        let added = builder_add(&mut builder, &keys[i]);
        assert(added is Ok);
        assert(key_views(keys@).take(i + 1) == taken.push(keys@[i as int]@));
        i = i + 1;
    }
    assert(key_views(keys@).take(keys@.len() as int) == key_views(keys@));
    match builder_bytes(builder) {
        Ok(data) => data,
        Err(_) => vstd::pervasive::unreached(),
    }
}

/// One transition: from the state that `node` decodes, along `b`.
fn follow<'f>(fst: &'f Fst<Vec<u8>>, node: Node<'f>, b: u8, Ghost(at): Ghost<usize>) -> (r: Option<
    Node<'f>,
>)
    requires
        graph_of(*fst).sound(),
        graph_of(*fst).decodes(node, at),
    ensures
        match (r, target(graph_of(*fst).edges[at], b)) {
            (Some(next), Some(to)) => graph_of(*fst).decodes(next, to),
            (None, None) => true,
            _ => false,
        },
{
    let ghost g = graph_of(*fst);
    match node.find_input(b) {
        Some(i) => {
            let addr = node.transition_addr(i);
            proof {
                let edges = g.edges[at];
                assert(edges[i as int].0 == b);
                let j = choose|j: int| 0 <= j < edges.len() && (#[trigger] edges[j]).0 == b;
                if j < i {
                    assert(edges[j].0 != edges[i as int].0);
                } else if j > i {
                    assert(edges[i as int].0 != edges[j].0);
                }
                assert(g.edges.dom().contains(edges[i as int].1));
            }
            Some(index_node(fst, addr))
        },
        None => None,
    }
}

/// From the state that `start` decodes, reached by `base`, along the byte
/// codes of `suffix`.
fn descend<'f>(fst: &'f Fst<Vec<u8>>, start: Node<'f>, suffix: &str, Ghost(base): Ghost<Seq<u8>>) -> (r:
    Option<Node<'f>>)
    requires
        graph_of(*fst).sound(),
        graph_of(*fst).stands(start, base),
    ensures
        match r {
            Some(node) => graph_of(*fst).stands(node, base + encode(suffix@)),
            None => !graph_of(*fst).reaches(base + encode(suffix@)),
        },
{
    let ghost g = graph_of(*fst);
    let ghost whole = base + encode(suffix@);
    let mut node = start;
    assert(base + encode(suffix@.take(0)) == base);
    for c in it: suffix.chars()
        invariant
            it.seq() == suffix@,
            g == graph_of(*fst),
            g.sound(),
            whole == base + encode(suffix@),
            g.stands(node, base + encode(suffix@.take(it.index() as int))),
    {
        let ghost done = base + encode(suffix@.take(it.index() as int));
        let ghost more = base + encode(suffix@.take(it.index() + 1));
        assert(more.drop_last() == done);
        assert(more.last() == byte_of(c));
        match follow(fst, node, low_byte(c), Ghost(g.walk(done)->0)) {
            Some(next) => {
                node = next;
            },
            None => {
                proof {
                    assert(whole.take(more.len() as int) == more);
                    if g.reaches(whole) {
                        lemma_walk_prefix(g, whole, more.len() as int);
                    }
                }
                return None;
            },
        }
    }
    assert(suffix@.take(suffix@.len() as int) == suffix@);
    Some(node)
}

impl FstTree {
    /// The index is sound: every address that a walk can meet is a state.
    #[verifier::type_invariant]
    pub closed spec fn wf(&self) -> bool {
        graph_of(self.fst).sound()
    }

    /// The automaton that the index holds.
    pub closed spec fn graph(&self) -> Graph {
        graph_of(self.fst)
    }

    /// The byte string `key` can be walked to its end from the root: it is
    /// a prefix of what the index holds.
    pub open spec fn reaches(&self, key: Seq<u8>) -> bool {
        self.graph().reaches(key)
    }

    /// The byte string `key` is a key of the index.
    pub open spec fn contains(&self, key: Seq<u8>) -> bool {
        self.graph().accepts(key)
    }

    /// The keys of the index are exactly `keys`, and what it reaches is the
    /// empty string and what a key begins with.
    pub open spec fn holds(&self, keys: Set<Seq<u8>>) -> bool {
        &&& forall|key: Seq<u8>| self.contains(key) <==> keys.contains(key)
        &&& forall|p: Seq<u8>| #[trigger] self.reaches(p) <==> p.len() == 0 || begun(keys, p)
    }

    /// How many scalars of `s` can be walked from the root: the length of
    /// the longest prefix of `s` that the index reaches.
    pub open spec fn walk_len(&self, s: Seq<char>) -> nat
        decreases s.len(),
    {
        if self.reaches(encode(s)) || s.len() == 0 {
            s.len()
        } else {
            self.walk_len(s.drop_last())
        }
    }

    /// Reads an index from the bytes that a builder wrote. Its keys are the
    /// keys that the builder took, and it reaches what one of them begins
    /// with.
    pub fn from_fst(data: Vec<u8>) -> (r: FstTree)
        requires
            is_index_image(data@),
        ensures
            r.wf(),
            forall|keys: Set<Seq<u8>>| is_image_of(data@, keys) ==> r.holds(keys),
    {
        let ghost bytes = data@;
        proof {
            let list = choose|list: Seq<Seq<u8>>|
                ascending(list) && bytes == #[trigger] fst_image(list);
        }
        match index_from_bytes(data) {
            Ok(fst) => {
                let r = FstTree { fst };
                proof {
                    assert forall|keys: Set<Seq<u8>>| is_image_of(bytes, keys) implies r.holds(
                        keys,
                    ) by {
                        let list = choose|list: Seq<Seq<u8>>|
                            ascending(list) && bytes == #[trigger] fst_image(list) && list.to_set()
                                == keys;
                        assert(graph_of(fst).holds(list));
                        assert forall|key: Seq<u8>| r.contains(key) <==> keys.contains(key) by {
                            assert(list.to_set().contains(key) <==> list.contains(key));
                        }
                        assert forall|p: Seq<u8>| #[trigger] r.reaches(p) <==> p.len() == 0
                            || begun(keys, p) by {
                            if begun(keys, p) {
                                let key = choose|key: Seq<u8>|
                                    keys.contains(key) && #[trigger] begins(key, p);
                                assert(r.contains(key));
                                lemma_walk_prefix(graph_of(fst), key, p.len() as int);
                            }
                        }
                    }
                }
                r
            },
            Err(_) => vstd::pervasive::unreached(),
        }
    }

    /// An index of the byte codes of the given strings.
    pub fn from_strings(set: Vec<&str>) -> (r: FstTree)
        ensures
            r.wf(),
            r.holds(encoded(set@)),
    {
        let data = index_bytes(&set);
        FstTree::from_fst(data)
    }

    /// Walks from the root along the scalars of `prefix` as far as the
    /// index goes. Gives what was walked, what is left, and whether the
    /// walk ended at a key.
    pub fn match_longest_common_prefix<'a>(&self, prefix: &'a str) -> (r: (&'a str, &'a str, bool))
        ensures
            r.0@ + r.1@ == prefix@,
            r.0@ == prefix@.take(self.walk_len(prefix@) as int),
            r.1@ == prefix@.skip(self.walk_len(prefix@) as int),
            r.2 == self.contains(encode(r.0@)),
    {
        proof {
            use_type_invariant(self);
        }
        let ghost g = graph_of(self.fst);
        let len = prefix.unicode_len();
        let mut index: usize = 0;
        let mut node = index_root(&self.fst);
        assert(encode(prefix@.take(0)) == Seq::<u8>::empty());
        for c in it: prefix.chars()
            invariant_except_break
                index == it.index(),
            invariant
                it.seq() == prefix@,
                len == prefix@.len(),
                index <= len,
                g == graph_of(self.fst),
                g.sound(),
                g.stands(node, encode(prefix@.take(index as int))),
            ensures
                index < len ==> !g.reaches(encode(prefix@.take(index + 1))),
        {
            let ghost done = encode(prefix@.take(index as int));
            let ghost more = encode(prefix@.take(index + 1));
            assert(more.drop_last() == done);
            assert(more.last() == byte_of(c));
            match follow(&self.fst, node, low_byte(c), Ghost(g.walk(done)->0)) {
                Some(next) => {
                    node = next;
                    index = index + 1;
                },
                None => {
                    break ;
                },
            }
        }
        proof {
            self.lemma_walk_len_is(prefix@, index as nat);
        }
        let matched = prefix.substring_char(0, index);
        let remaining = prefix.substring_char(index, len);
        (matched, remaining, node.is_final())
    }

    /// The place that the scalars of `word` lead to from the root, if the
    /// index reaches all of it.
    pub fn matching_node<'a>(&'a self, word: &str) -> (r: Option<FstNode<'a>>)
        ensures
            match r {
                Some(node) => node.wf() && node.tree() == *self && node@ == word@,
                None => true,
            },
            r is Some <==> self.reaches(encode(word@)),
    {
        proof {
            use_type_invariant(self);
        }
        let root = index_root(&self.fst);
        assert(Seq::<u8>::empty() + encode(word@) == encode(word@));
        match descend(&self.fst, root, word, Ghost(Seq::empty())) {
            Some(node) => Some(FstNode { fst: &self.fst, node, word: word.to_owned() }),
            None => None,
        }
    }

    /// A key of the index is reached: the walk that looks for the place of
    /// a key finds one, and the key ends there.
    pub proof fn lemma_key_is_reached(&self, key: Seq<u8>)
        requires
            self.contains(key),
        ensures
            self.reaches(key),
    {
    }

    /// The walk of `s` is its longest prefix that the index reaches.
    pub proof fn lemma_walk_len(&self, s: Seq<char>)
        ensures
            self.walk_len(s) <= s.len(),
            self.reaches(encode(s.take(self.walk_len(s) as int))),
            forall|m: int| self.walk_len(s) < m <= s.len() ==> !self.reaches(encode(s.take(m))),
        decreases s.len(),
    {
        if self.reaches(encode(s)) || s.len() == 0 {
            assert(s.take(s.len() as int) == s);
            assert(encode(s).len() == 0 ==> self.graph().walk(encode(s)) == Some(self.graph().root));
        } else {
            let t = s.drop_last();
            self.lemma_walk_len(t);
            assert(t.take(self.walk_len(t) as int) == s.take(self.walk_len(t) as int));
            assert forall|m: int| self.walk_len(s) < m <= s.len() implies !self.reaches(
                encode(s.take(m)),
            ) by {
                if m < s.len() {
                    assert(t.take(m) == s.take(m));
                } else {
                    assert(s.take(m) == s);
                }
            }
        }
    }

    /// The walk of a prefix of `s` is the walk of `s`, cut to that prefix.
    pub proof fn lemma_walk_len_take(&self, s: Seq<char>, i: nat)
        requires
            i <= s.len(),
        ensures
            self.walk_len(s.take(i as int)) == if i <= self.walk_len(s) {
                i
            } else {
                self.walk_len(s)
            },
    {
        self.lemma_walk_len(s);
        let k = self.walk_len(s);
        let head = s.take(i as int);
        if i <= k {
            lemma_walk_prefix(self.graph(), encode(s.take(k as int)), i as int);
            assert(encode(s.take(k as int)).take(i as int) == encode(head.take(i as int)));
            self.lemma_walk_len_is(head, i);
        } else {
            assert(head.take(k as int) == s.take(k as int));
            assert(head.take(k as int + 1) == s.take(k as int + 1));
            self.lemma_walk_len_is(head, k);
        }
    }

    /// A prefix that is reached, and is all of `s` or cannot be made one
    /// scalar longer, is the walk of `s`.
    pub proof fn lemma_walk_len_is(&self, s: Seq<char>, n: nat)
        requires
            n <= s.len(),
            self.reaches(encode(s.take(n as int))),
            n < s.len() ==> !self.reaches(encode(s.take(n as int + 1))),
        ensures
            self.walk_len(s) == n,
    {
        self.lemma_walk_len(s);
        let k = self.walk_len(s);
        if k < n {
            assert(!self.reaches(encode(s.take(n as int))));
        } else if k > n {
            let key = encode(s.take(k as int));
            lemma_walk_prefix(self.graph(), key, n as int + 1);
            assert(key.take(n as int + 1) == encode(s.take(n as int + 1)));
        }
    }
}

impl<'a> View for FstNode<'a> {
    type V = Seq<char>;

    /// The string that leads to the place.
    closed spec fn view(&self) -> Seq<char> {
        self.word@
    }
}

impl<'a> Clone for FstNode<'a> {
    /// The same place, with a string of its own.
    fn clone(&self) -> (r: Self)
        ensures
            r == *self,
    {
        proof {
            use_type_invariant(self);
        }
        FstNode { fst: self.fst, node: self.node, word: self.word.clone() }
    }
}

impl<'a> FstNode<'a> {
    /// The place is where its string leads in its index, which is sound.
    #[verifier::type_invariant]
    pub closed spec fn wf(&self) -> bool {
        &&& graph_of(*self.fst).sound()
        &&& graph_of(*self.fst).stands(self.node, encode(self.word@))
    }

    /// The index that the place lies in.
    pub closed spec fn tree(&self) -> FstTree {
        FstTree { fst: *self.fst }
    }

    /// The place that the scalars of `suffix` lead to from here, if the
    /// index reaches all of them.
    pub fn get_matching_node(&self, suffix: &str) -> (r: Option<FstNode<'a>>)
        ensures
            match r {
                Some(node) => node.wf() && node.tree() == self.tree() && node@ == self@ + suffix@,
                None => true,
            },
            r is Some <==> self.tree().reaches(encode(self@ + suffix@)),
    {
        proof {
            use_type_invariant(self);
        }
        assert(encode(self.word@ + suffix@) == encode(self.word@) + encode(suffix@));
        match descend(self.fst, self.node, suffix, Ghost(encode(self.word@))) {
            Some(node) => {
                let word = self.word.clone().concat(suffix);
                Some(FstNode { fst: self.fst, node, word })
            },
            None => None,
        }
    }

    /// The place that one more scalar leads to from here, if the index has
    /// that transition.
    pub fn get_matching_node_by_char(&self, suffix: char) -> (r: Option<FstNode<'a>>)
        ensures
            match r {
                Some(node) => node.wf() && node.tree() == self.tree() && node@ == self@.push(suffix),
                None => true,
            },
            r is Some <==> self.tree().reaches(encode(self@.push(suffix))),
    {
        proof {
            use_type_invariant(self);
        }
        let ghost g = graph_of(*self.fst);
        let ghost done = encode(self.word@);
        let ghost more = encode(self.word@.push(suffix));
        assert(more.drop_last() == done);
        assert(more.last() == byte_of(suffix));
        match follow(self.fst, self.node, low_byte(suffix), Ghost(g.walk(done)->0)) {
            Some(node) => {
                let mut word = self.word.clone();
                word.push(suffix);
                Some(FstNode { fst: self.fst, node, word })
            },
            None => None,
        }
    }

    /// The string of the place, if it is a key of the index.
    pub fn get_word(self) -> (r: Option<String>)
        ensures
            match r {
                Some(word) => word@ == self@,
                None => true,
            },
            r is Some <==> self.tree().contains(encode(self@)),
    {
        proof {
            use_type_invariant(&self);
        }
        if self.node.is_final() {
            Some(self.word)
        } else {
            None
        }
    }
}

} // verus!
