use crate::avro::utils::{fix_string, normalise};
use crate::encoding::encode;
use crate::frontier::{
    all_in, collect_words, complete, extend, extend_nodes, lemma_views_append, seed_nodes, seeds,
    views, widen,
};
use crate::index::FstTree;
use crate::patterns::{block_for, entries, find_entry, BlockView};
use crate::text::strings;

pub use crate::patterns::Block;
use vstd::prelude::*;

verus! {

/// The matcher: a table of blocks by Roman key, the fragments that may
/// follow any step, an index of the table's keys and an index of the
/// dictionary.
pub struct Suggest<'a> {
    patterns: Vec<(String, Block)>,
    common_suffixes: Vec<String>,
    keys: &'a FstTree,
    words: &'a FstTree,
}

/// The length of the longest prefix of `rem` of at most `n` scalars that
/// is a key of `keys`.
pub open spec fn longest_key_upto(keys: FstTree, rem: Seq<char>, n: nat) -> Option<nat>
    decreases n,
{
    if keys.contains(encode(rem.take(n as int))) {
        Some(n)
    } else if n == 0 {
        None
    } else {
        longest_key_upto(keys, rem, (n - 1) as nat)
    }
}

/// The length of the longest prefix of `rem` that is a key of `keys`.
pub open spec fn longest_key(keys: FstTree, rem: Seq<char>) -> Option<nat> {
    longest_key_upto(keys, rem, rem.len())
}

/// One step: the frontier after a key with this block was consumed.
pub open spec fn advance(
    words: FstTree,
    common: Seq<Seq<char>>,
    frontier: Set<Seq<char>>,
    block: BlockView,
) -> Set<Seq<char>> {
    let extended = extend(words, frontier, block.expansions);
    let committed = if block.optional {
        frontier.union(extended)
    } else {
        extended
    };
    widen(words, committed, common)
}

/// A prefix that is a key, with no longer prefix up to `top` that is one, is
/// the longest key up to `top`.
proof fn lemma_key_found(keys: FstTree, rem: Seq<char>, n: nat, top: nat)
    requires
        n <= top,
        keys.contains(encode(rem.take(n as int))),
        forall|m: int| n < m <= top ==> !keys.contains(encode(rem.take(m))),
    ensures
        longest_key_upto(keys, rem, top) == Some(n),
    decreases top,
{
    if n < top {
        lemma_key_found(keys, rem, n, (top - 1) as nat);
    }
}

/// Where no prefix up to `top` is a key, there is no longest key.
proof fn lemma_no_key(keys: FstTree, rem: Seq<char>, top: nat)
    requires
        forall|m: int| 0 <= m <= top ==> !keys.contains(encode(rem.take(m))),
    ensures
        longest_key_upto(keys, rem, top) is None,
    decreases top,
{
    if 0 < top {
        lemma_no_key(keys, rem, (top - 1) as nat);
    }
}

/// Cuts `remaining` behind its longest prefix that is a key of `keys`:
/// first by walking as far as the index goes, then, where that ends at no
/// key, by trying each shorter prefix from the right.
fn split_at_key<'b>(keys: &FstTree, remaining: &'b str) -> (r: Option<(&'b str, &'b str)>)
    ensures
        match (r, longest_key(*keys, remaining@)) {
            (Some((head, rest)), Some(n)) => n <= remaining@.len() && head@ == remaining@.take(
                n as int,
            ) && rest@ == remaining@.skip(n as int),
            (None, None) => true,
            _ => false,
        },
{
    let ghost rem = remaining@;
    let len = remaining.unicode_len();
    let (matched, rest, complete) = keys.match_longest_common_prefix(remaining);
    let ghost k = keys.walk_len(rem);
    proof {
        keys.lemma_walk_len(rem);
        assert forall|m: int| k < m <= len implies !keys.contains(encode(rem.take(m))) by {}
    }
    if complete {
        proof {
            lemma_key_found(*keys, rem, k, len as nat);
        }
        return Some((matched, rest));
    }
    let mut i: usize = len;
    assert(!keys.contains(encode(rem.take(len as int)))) by {
        if k == len {
            assert(rem.take(len as int) == matched@);
        }
    }
    while i > 0
        invariant
            i <= len,
            len == rem.len(),
            rem == remaining@,
            k == keys.walk_len(rem),
            k <= len,
            !keys.contains(encode(rem.take(k as int))),
            forall|m: int| k < m <= len ==> !keys.reaches(encode(rem.take(m))),
            forall|m: int| i <= m <= len ==> !keys.contains(encode(rem.take(m))),
        decreases i,
    {
        i = i - 1;
        let head = remaining.substring_char(0, i);
        let (found, _, ends) = keys.match_longest_common_prefix(head);
        proof {
            keys.lemma_walk_len_take(rem, i as nat);
            assert(head@ == rem.take(i as int));
            if i <= k {
                assert(head@.take(i as int) == head@);
            } else {
                assert(head@.take(k as int) == rem.take(k as int));
            }
        }
        if ends {
            let tail = remaining.substring_char(i, len);
            proof {
                lemma_key_found(*keys, rem, i as nat, len as nat);
            }
            return Some((found, tail));
        }
    }
    proof {
        lemma_no_key(*keys, rem, len as nat);
    }
    None
}

impl<'a> Suggest<'a> {
    /// The table: each key with its block, in the order given.
    pub closed spec fn table(&self) -> Seq<(Seq<char>, BlockView)> {
        entries(self.patterns@)
    }

    /// The fragments that may follow any step.
    pub closed spec fn common(&self) -> Seq<Seq<char>> {
        strings(self.common_suffixes@)
    }

    /// The index of the Roman keys.
    pub closed spec fn pattern_index(&self) -> FstTree {
        *self.keys
    }

    /// The index of the dictionary.
    pub closed spec fn dictionary(&self) -> FstTree {
        *self.words
    }

    /// The frontier at the end of the step loop that starts with
    /// `frontier` and has `rem` left to consume.
    pub open spec fn run(&self, frontier: Set<Seq<char>>, rem: Seq<char>) -> Set<Seq<char>>
        decreases rem.len(),
    {
        if rem.len() == 0 {
            frontier
        } else {
            match longest_key(self.pattern_index(), rem) {
                Some(n) => if 0 < n <= rem.len() {
                    match block_for(self.table(), rem.take(n as int)) {
                        Some(block) => self.run(
                            advance(self.dictionary(), self.common(), frontier, block),
                            rem.skip(n as int),
                        ),
                        None => frontier,
                    }
                } else {
                    frontier
                },
                None => frontier,
            }
        }
    }

    /// The dictionary words that normalised input `x` stands for.
    pub open spec fn expansions(&self, x: Seq<char>) -> Set<Seq<char>> {
        let k = self.pattern_index().walk_len(x) as int;
        match block_for(self.table(), x.take(k)) {
            Some(block) => complete(
                self.dictionary(),
                self.run(
                    widen(
                        self.dictionary(),
                        seeds(self.dictionary(), block.expansions),
                        self.common(),
                    ),
                    x.skip(k),
                ),
            ),
            None => Set::empty(),
        }
    }

    /// The dictionary words that Roman input stands for.
    pub open spec fn suggestions(&self, input: Seq<char>) -> Set<Seq<char>> {
        self.expansions(normalise(input))
    }

    /// A matcher over the given table, fragments and indices.
    pub fn new(
        patterns: Vec<(String, Block)>,
        common_suffixes: Vec<String>,
        keys: &'a FstTree,
        words: &'a FstTree,
    ) -> (r: Suggest<'a>)
        ensures
            r.table() == entries(patterns@),
            r.common() == strings(common_suffixes@),
            r.pattern_index() == *keys,
            r.dictionary() == *words,
    {
        Suggest { patterns, common_suffixes, keys, words }
    }

    /// The block of a key of the table.
    fn find_block(&self, key: &str) -> (r: Option<&Block>)
        ensures
            match r {
                Some(block) => block_for(self.table(), key@) == Some(block@),
                None => block_for(self.table(), key@) is None,
            },
    {
        find_entry(&self.patterns, key)
    }

    /// The dictionary words that Roman input stands for, each once, in no
    /// particular order.
    pub fn suggest(&self, input: &str) -> (r: Vec<String>)
        ensures
            strings(r@).to_set() == self.suggestions(input@),
            strings(r@).no_duplicates(),
            forall|i: int|
                0 <= i < r@.len() ==> self.dictionary().contains(encode(#[trigger] r@[i]@)),
            normalise(input@).len() == 0 ==> r@.len() == 0,
    {
        let input = fix_string(input);
        let ghost x = input@;
        let (matched, first_rest, _) = self.keys.match_longest_common_prefix(input.as_str());
        let mut remaining = first_rest;
        let block = match self.find_block(matched) {
            Some(block) => block,
            None => {
                assert(strings(Seq::<String>::empty()).to_set() =~= Set::<Seq<char>>::empty());
                return Vec::new();
            },
        };
        let mut nodes = seed_nodes(self.words, &block.transliterate);
        let mut additional = extend_nodes(&nodes, &self.common_suffixes, Ghost(*self.words));
        proof {
            lemma_views_append(nodes@, additional@);
        }
        nodes.append(&mut additional);
        let ghost goal = self.run(views(nodes@).to_set(), remaining@);
        while !remaining.is_empty()
            invariant_except_break
                self.run(views(nodes@).to_set(), remaining@) == goal,
            invariant
                all_in(nodes@, *self.words),
            ensures
                views(nodes@).to_set() == goal,
            decreases remaining@.len(),
        {
            let ghost frontier = views(nodes@).to_set();
            let ghost rem = remaining@;
            let (key, rest) = match split_at_key(self.keys, remaining) {
                Some(parts) => parts,
                None => {
                    break ;
                },
            };
            let block = match self.find_block(key) {
                Some(block) => block,
                None => {
                    break ;
                },
            };
            remaining = rest;
            let mut extended = extend_nodes(&nodes, &block.transliterate, Ghost(*self.words));
            if block.entire_block_optional == Some(true) {
                proof {
                    lemma_views_append(nodes@, extended@);
                }
                nodes.append(&mut extended);
            } else {
                nodes = extended;
            }
            let mut additional = extend_nodes(&nodes, &self.common_suffixes, Ghost(*self.words));
            proof {
                lemma_views_append(nodes@, additional@);
            }
            nodes.append(&mut additional);
            assert(views(nodes@).to_set() == advance(*self.words, self.common(), frontier, block@));
        }
        let out = collect_words(nodes, Ghost(*self.words));
        proof {
            assert forall|i: int| 0 <= i < out@.len() implies self.dictionary().contains(
                encode(#[trigger] out@[i]@),
            ) by {
                assert(strings(out@)[i] == out@[i]@);
                assert(strings(out@).to_set().contains(out@[i]@));
            }
        }
        out
    }
}

} // verus!
