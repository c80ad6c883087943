use crate::encoding::encode;
use crate::frontier::{
    all_in, collect_words, complete, extend, extend_by_chars, joined, lemma_views_append, singles,
    views, widen,
};
use crate::index::{lemma_walk_prefix, FstNode, FstTree};
use crate::text::strings;
use vstd::prelude::*;

verus! {

/// The scalars that a Bengali word is written with: vowels, vowel signs,
/// consonants, and the marks that go with them.
pub const CHARS: [char; 61] = [
    'অ', 'আ', 'ই', 'ঈ', 'উ', 'ঊ', 'ঋ', 'এ', 'ঐ', 'ও', 'ঔ', 'া', 'ি', 'ী', 'ু', 'ূ', 'ৃ', 'ে', 'ৈ', 'ো',
    'ৌ', 'ক', 'খ', 'গ', 'ঘ', 'ঙ', 'চ', 'ছ', 'জ', 'ঝ', 'ঞ', 'ট', 'ঠ', 'ড', 'ঢ', 'ণ', 'ত', 'থ', 'দ',
    'ধ', 'ন', 'প', 'ফ', 'ব', 'ভ', 'ম', 'য', 'র', 'ল', 'শ', 'ষ', 'স', 'হ', 'ৎ', 'ড়', 'ঢ়', 'য়', 'ং',
    'ঃ', 'ঁ', '্',
];

/// How many scalars may follow a prefix of `n` scalars: the longer the
/// prefix, the further the search.
pub open spec fn depth(n: nat) -> nat {
    if n == 1 {
        0
    } else if 2 <= n <= 3 {
        1
    } else {
        5
    }
}

/// How often the frontier is widened after the first hop.
pub open spec fn rounds(n: nat) -> nat {
    if depth(n) >= 2 {
        (depth(n) - 1) as nat
    } else {
        0
    }
}

/// `frontier` widened `rounds` times by one scalar of `chars`.
pub open spec fn grow(words: FstTree, frontier: Set<Seq<char>>, chars: Seq<char>, rounds: nat) -> Set<
    Seq<char>,
>
    decreases rounds,
{
    if rounds == 0 {
        frontier
    } else {
        grow(words, widen(words, frontier, singles(chars)), chars, (rounds - 1) as nat)
    }
}

/// The dictionary words that begin with `word` and go on with scalars of
/// `chars`: one scalar at least, and as many as the length of `word`
/// allows. There are none for the empty prefix, nor for one that the
/// dictionary does not reach.
pub open spec fn completions(words: FstTree, chars: Seq<char>, word: Seq<char>) -> Set<Seq<char>> {
    if word.len() == 0 || !words.reaches(encode(word)) {
        Set::empty()
    } else {
        complete(
            words,
            grow(words, extend(words, set![word], singles(chars)), chars, rounds(word.len())),
        )
    }
}

/// The dictionary words that a Bengali prefix may be completed to, each
/// once, in no particular order.
pub fn suggest(words: &FstTree, word: &str) -> (r: Vec<String>)
    ensures
        strings(r@).to_set() == completions(*words, CHARS@, word@),
        strings(r@).no_duplicates(),
        forall|w: Seq<char>|
            strings(r@).contains(w) <==> word@.len() > 0 && continues(
                CHARS@,
                word@,
                hops(word@.len()),
                w,
            ) && words.contains(encode(w)),
        forall|i: int| 0 <= i < r@.len() ==> words.contains(encode(#[trigger] r@[i]@)),
        word@.len() == 0 ==> r@.len() == 0,
{
    proof {
        lemma_completions(*words, CHARS@, word@);
    }
    let count = word.unicode_len();
    if count == 0 {
        assert(strings(Seq::<String>::empty()).to_set() =~= Set::<Seq<char>>::empty());
        return Vec::new();
    }
    let need_chars_upto: usize = if count == 1 {
        0
    } else if count <= 3 {
        1
    } else {
        5
    };
    let node = match words.matching_node(word) {
        Some(node) => node,
        None => {
            assert(strings(Seq::<String>::empty()).to_set() =~= Set::<Seq<char>>::empty());
            assert forall|w: Seq<char>|
                !(continues(CHARS@, word@, hops(word@.len()), w) && words.contains(
                    encode(w),
                )) by {
                assert(!completions(*words, CHARS@, word@).contains(w));
            }
            return Vec::new();
        },
    };
    let mut anchor: Vec<FstNode<'_>> = Vec::new();
    anchor.push(node);
    assert(views(anchor@).to_set() =~= set![word@]) by {
        assert(views(anchor@)[0] == word@);
    }
    let mut nodes = extend_by_chars(&anchor, CHARS.as_slice(), Ghost(*words));
    let repeats: usize = if need_chars_upto > 1 {
        need_chars_upto - 1
    } else {
        0
    };
    let ghost goal = grow(*words, views(nodes@).to_set(), CHARS@, repeats as nat);
    let mut round: usize = 0;
    while round < repeats
        invariant
            round <= repeats,
            all_in(nodes@, *words),
            grow(*words, views(nodes@).to_set(), CHARS@, (repeats - round) as nat) == goal,
        decreases repeats - round,
    {
        let mut new_nodes = extend_by_chars(&nodes, CHARS.as_slice(), Ghost(*words));
        proof {
            lemma_views_append(nodes@, new_nodes@);
        }
        nodes.append(&mut new_nodes);
        round = round + 1;
    }
    let out = collect_words(nodes, Ghost(*words));
    proof {
        assert forall|w: Seq<char>|
            strings(out@).contains(w) <==> completions(*words, CHARS@, word@).contains(w) by {
            assert(strings(out@).to_set().contains(w) <==> strings(out@).contains(w));
        }
        assert forall|i: int| 0 <= i < out@.len() implies words.contains(
            encode(#[trigger] out@[i]@),
        ) by {
            assert(strings(out@)[i] == out@[i]@);
            assert(strings(out@).to_set().contains(out@[i]@));
        }
    }
    out
}

/// Every scalar of `t` is one of `chars`.
pub open spec fn over(chars: Seq<char>, t: Seq<char>) -> bool {
    forall|i: int| 0 <= i < t.len() ==> chars.contains(#[trigger] t[i])
}

/// How many scalars at most may follow a prefix of `n` scalars.
pub open spec fn hops(n: nat) -> nat {
    rounds(n) + 1
}

/// `w` is `word` with between one and `most` scalars of `chars` behind it.
pub open spec fn continues(chars: Seq<char>, word: Seq<char>, most: nat, w: Seq<char>) -> bool {
    &&& word.len() < w.len() <= word.len() + most
    &&& w.take(word.len() as int) == word
    &&& over(chars, w.skip(word.len() as int))
}

/// What `words` reaches of `word` with between one and `most` scalars of
/// `chars` behind it.
pub open spec fn within(words: FstTree, chars: Seq<char>, word: Seq<char>, most: nat) -> Set<
    Seq<char>,
> {
    Set::new(|w: Seq<char>| continues(chars, word, most, w) && words.reaches(encode(w)))
}

/// The first hop reaches the prefix with one scalar behind it.
proof fn lemma_first_hop(words: FstTree, chars: Seq<char>, word: Seq<char>)
    ensures
        extend(words, set![word], singles(chars)) == within(words, chars, word, 1),
{
    let left = extend(words, set![word], singles(chars));
    let right = within(words, chars, word, 1);
    assert forall|w: Seq<char>| left.contains(w) <==> right.contains(w) by {
        if left.contains(w) {
            let (h, j) = choose|h: Seq<char>, j: int|
                set![word].contains(h) && 0 <= j < singles(chars).len() && w == #[trigger] joined(
                    h,
                    singles(chars)[j],
                ) && words.reaches(encode(w));
            assert(w == word + seq![chars[j]]);
            assert(w.take(word.len() as int) == word);
            assert(w.skip(word.len() as int) == seq![chars[j]]);
        }
        if right.contains(w) {
            let c = w.skip(word.len() as int)[0];
            let j = choose|j: int| 0 <= j < chars.len() && chars[j] == c;
            assert(w == joined(word, singles(chars)[j])) by {
                assert(w == w.take(word.len() as int) + w.skip(word.len() as int));
                assert(w.skip(word.len() as int) == seq![c]);
            }
            assert(set![word].contains(word));
        }
    }
    assert(left =~= right);
}

/// Widening what is within `most` scalars gives what is within one more.
proof fn lemma_next_hop(words: FstTree, chars: Seq<char>, word: Seq<char>, most: nat)
    requires
        most >= 1,
    ensures
        widen(words, within(words, chars, word, most), singles(chars)) == within(
            words,
            chars,
            word,
            most + 1,
        ),
{
    let near = within(words, chars, word, most);
    let left = widen(words, near, singles(chars));
    let right = within(words, chars, word, most + 1);
    let n = word.len() as int;
    assert forall|w: Seq<char>| left.contains(w) <==> right.contains(w) by {
        if near.contains(w) {
            assert(right.contains(w));
        }
        if extend(words, near, singles(chars)).contains(w) {
            let (h, j) = choose|h: Seq<char>, j: int|
                near.contains(h) && 0 <= j < singles(chars).len() && w == #[trigger] joined(
                    h,
                    singles(chars)[j],
                ) && words.reaches(encode(w));
            assert(w == h + seq![chars[j]]);
            assert(w.take(n) == h.take(n));
            assert(w.skip(n) == h.skip(n).push(chars[j]));
            assert forall|i: int| 0 <= i < w.skip(n).len() implies chars.contains(
                #[trigger] w.skip(n)[i],
            ) by {
                if i < h.skip(n).len() {
                    assert(w.skip(n)[i] == h.skip(n)[i]);
                }
            }
        }
        if right.contains(w) && !near.contains(w) {
            let h = w.drop_last();
            let c = w.last();
            assert(w.len() == n + most + 1);
            assert(h.take(n) == w.take(n));
            assert forall|i: int| 0 <= i < h.skip(n).len() implies chars.contains(
                #[trigger] h.skip(n)[i],
            ) by {
                assert(h.skip(n)[i] == w.skip(n)[i]);
            }
            assert(c == w.skip(n)[w.skip(n).len() - 1]);
            let j = choose|j: int| 0 <= j < chars.len() && chars[j] == c;
            assert(w == joined(h, singles(chars)[j])) by {
                assert(w == h.push(c));
            }
            lemma_walk_prefix(words.graph(), encode(w), h.len() as int);
            assert(encode(w).take(h.len() as int) == encode(h));
            assert(near.contains(h));
        }
    }
    assert(left =~= right);
}

/// Widening `rounds` times what is within `most` scalars gives what is
/// within `most + rounds`.
proof fn lemma_grow(words: FstTree, chars: Seq<char>, word: Seq<char>, most: nat, rounds: nat)
    requires
        most >= 1,
    ensures
        grow(words, within(words, chars, word, most), chars, rounds) == within(
            words,
            chars,
            word,
            most + rounds,
        ),
    decreases rounds,
{
    if rounds > 0 {
        lemma_next_hop(words, chars, word, most);
        lemma_grow(words, chars, word, most + 1, (rounds - 1) as nat);
    }
}

/// The completions of a prefix are the keys of the dictionary that are the
/// prefix with scalars of `chars` behind it: one at least, and at most as
/// many as the length of the prefix allows.
pub proof fn lemma_completions(words: FstTree, chars: Seq<char>, word: Seq<char>)
    ensures
        forall|w: Seq<char>|
            completions(words, chars, word).contains(w) <==> word.len() > 0 && continues(
                chars,
                word,
                hops(word.len()),
                w,
            ) && words.contains(encode(w)),
{
    lemma_first_hop(words, chars, word);
    lemma_grow(words, chars, word, 1, rounds(word.len()));
    assert forall|w: Seq<char>|
        completions(words, chars, word).contains(w) <==> word.len() > 0 && continues(
            chars,
            word,
            hops(word.len()),
            w,
        ) && words.contains(encode(w)) by {
        if word.len() > 0 && continues(chars, word, hops(word.len()), w) && words.contains(
            encode(w),
        ) {
            lemma_walk_prefix(words.graph(), encode(w), word.len() as int);
            assert(encode(w).take(word.len() as int) == encode(word));
        }
    }
}

} // verus!
