use crate::frontier::{
    extend_by, extended_upto, joined, lemma_extended_all, lemma_row_done, lemma_step_found,
    lemma_step_missed,
};
use crate::order::{insert_sorted, strictly_ascending};
use crate::text::{strings, strs};
use crate::trie::{starts, Trie};
use crate::utils::{fix_string, letters};
use vstd::prelude::*;
use vstd::string::*;

verus! {

/// A matcher that keeps its candidates as strings: a table of fragments by
/// Roman key, the dictionary, and the fragments that may follow any step.
pub struct Suggest {
    patterns: Vec<(String, Vec<String>)>,
    words: Trie,
    common_suffixes: Vec<String>,
}

/// The views of a table's entries.
pub open spec fn rules(table: Seq<(String, Vec<String>)>) -> Seq<(Seq<char>, Seq<Seq<char>>)> {
    Seq::new(table.len(), |i: int| (table[i].0@, strings(table[i].1@)))
}

/// The place of the longest key among the first `n` entries that `input`
/// starts with; of equal keys the first. The empty key is no key.
pub open spec fn best_upto(
    table: Seq<(Seq<char>, Seq<Seq<char>>)>,
    input: Seq<char>,
    n: nat,
) -> Option<int>
    decreases n,
{
    if n == 0 {
        None
    } else {
        let before = best_upto(table, input, (n - 1) as nat);
        let key = table[n - 1].0;
        if key.len() > 0 && starts(input, key) && (before is None || table[before->0].0.len()
            < key.len()) {
            Some(n - 1)
        } else {
            before
        }
    }
}

/// The place of the longest key of the table that `input` starts with.
pub open spec fn best(table: Seq<(Seq<char>, Seq<Seq<char>>)>, input: Seq<char>) -> Option<int> {
    best_upto(table, input, table.len())
}

/// The best key is a key that `input` starts with, and no such key among
/// the first `n` is longer.
pub proof fn lemma_best(table: Seq<(Seq<char>, Seq<Seq<char>>)>, input: Seq<char>, n: nat)
    requires
        n <= table.len(),
    ensures
        match best_upto(table, input, n) {
            Some(i) => {
                &&& 0 <= i < n
                &&& table[i].0.len() > 0
                &&& starts(input, table[i].0)
                &&& forall|j: int|
                    0 <= j < n && (#[trigger] table[j]).0.len() > 0 && starts(input, table[j].0)
                        ==> table[j].0.len() <= table[i].0.len()
            },
            None => forall|j: int|
                0 <= j < n ==> !((#[trigger] table[j]).0.len() > 0 && starts(input, table[j].0)),
        },
    decreases n,
{
    if n > 0 {
        lemma_best(table, input, (n - 1) as nat);
    }
}

/// What `words` reaches, as a predicate on strings.
pub open spec fn reach_in(words: Trie) -> spec_fn(Seq<char>) -> bool {
    |w: Seq<char>| words.reaches(w)
}

/// `w` is one of `list` and a word of `words`.
pub open spec fn known(list: Seq<Seq<char>>, words: Trie, w: Seq<char>) -> bool {
    list.contains(w) && words.contains(w)
}

/// Whether `s` starts with `p`.
fn starts_with(s: &Vec<char>, p: &Vec<char>) -> (r: bool)
    ensures
        r == starts(s@, p@),
{
    if p.len() > s.len() {
        return false;
    }
    let mut i: usize = 0;
    while i < p.len()
        invariant
            i <= p.len(),
            p.len() <= s.len(),
            forall|k: int| 0 <= k < i ==> s@[k] == p@[k],
        decreases p.len() - i,
    {
        if s[i] != p[i] {
            assert(s@.take(p@.len() as int)[i as int] != p@[i as int]);
            return false;
        }
        i = i + 1;
    }
    assert(s@.take(p@.len() as int) =~= p@);
    true
}

/// The scalars of a string, one by one.
fn scalars(word: &str) -> (chars: Vec<char>)
    ensures
        chars@ == word@,
{
    let mut chars: Vec<char> = Vec::new();
    for c in it: word.chars()
        invariant
            it.seq() == word@,
            chars@ == word@.take(it.index() as int),
    {
        chars.push(c);
        assert(word@.take(it.index() + 1).drop_last() == word@.take(it.index() as int));
    }
    assert(word@.take(word@.len() as int) == word@);
    chars
}

impl Suggest {
    /// The table: each key with its fragments, in the order given.
    pub closed spec fn table(&self) -> Seq<(Seq<char>, Seq<Seq<char>>)> {
        rules(self.patterns@)
    }

    /// The dictionary.
    pub closed spec fn dictionary(&self) -> Trie {
        self.words
    }

    /// The fragments that may follow any step.
    pub closed spec fn common(&self) -> Seq<Seq<char>> {
        strings(self.common_suffixes@)
    }

    /// The dictionary is a well-formed trie.
    pub closed spec fn wf(&self) -> bool {
        self.words.wf()
    }

    /// One step: the candidates after a key with these fragments was
    /// consumed.
    pub open spec fn advance(&self, frontier: Set<Seq<char>>, fragments: Seq<Seq<char>>) -> Set<
        Seq<char>,
    > {
        let ok = reach_in(self.dictionary());
        let extended = extend_by(ok, frontier, fragments);
        extended.union(extend_by(ok, extended, self.common()))
    }

    /// The candidates at the end of the step loop that starts with
    /// `frontier` and has `rem` left to consume.
    pub open spec fn run(&self, frontier: Set<Seq<char>>, rem: Seq<char>) -> Set<Seq<char>>
        decreases rem.len(),
    {
        if rem.len() == 0 {
            frontier
        } else {
            match best(self.table(), rem) {
                Some(i) => {
                    let key = self.table()[i].0;
                    if 0 < key.len() <= rem.len() {
                        self.run(self.advance(frontier, self.table()[i].1), rem.skip(key.len() as int))
                    } else {
                        frontier
                    }
                },
                None => frontier,
            }
        }
    }

    /// The dictionary words that Roman input stands for.
    pub open spec fn suggestions(&self, input: Seq<char>) -> Set<Seq<char>> {
        Set::new(
            |w: Seq<char>|
                self.run(set![Seq::<char>::empty()], letters(input)).contains(w)
                    && self.dictionary().contains(w),
        )
    }

    /// A matcher over the given table, words and fragments.
    pub fn new(
        patterns: Vec<(String, Vec<String>)>,
        words: Vec<&str>,
        common_suffixes: Vec<String>,
    ) -> (r: Suggest)
        ensures
            r.wf(),
            r.table() == rules(patterns@),
            r.common() == strings(common_suffixes@),
            forall|p: Seq<char>| r.dictionary().contains(p) <==> strs(words@).contains(p),
    {
        Suggest { patterns, words: Trie::from_strings(words), common_suffixes }
    }

    /// The entry with the longest key that `input` starts with.
    pub fn find_pattern(&self, input: &str) -> (r: Option<(&String, &Vec<String>)>)
        ensures
            match (r, best(self.table(), input@)) {
                (Some((key, fragments)), Some(i)) => {
                    &&& 0 <= i < self.table().len()
                    &&& key@ == self.table()[i].0
                    &&& strings(fragments@) == self.table()[i].1
                    &&& key@.len() > 0
                    &&& starts(input@, key@)
                },
                (None, None) => true,
                _ => false,
            },
    {
        let text = scalars(input);
        let ghost table = self.table();
        let mut found: Option<usize> = None;
        let mut longest: usize = 0;
        let mut i: usize = 0;
        while i < self.patterns.len()
            invariant
                i <= self.patterns.len(),
                table == rules(self.patterns@),
                text@ == input@,
                match (found, best_upto(table, input@, i as nat)) {
                    (Some(k), Some(b)) => k == b && k < i && longest == table[b].0.len(),
                    (None, None) => true,
                    _ => false,
                },
            decreases self.patterns.len() - i,
        {
            let key = scalars(self.patterns[i].0.as_str());
            assert(key@ == table[i as int].0);
            if key.len() > 0 && starts_with(&text, &key) && (found.is_none() || longest
                < key.len()) {
                found = Some(i);
                longest = key.len();
            }
            i = i + 1;
        }
        proof {
            lemma_best(table, input@, table.len());
        }
        match found {
            Some(k) => {
                assert(table[k as int] == (self.patterns@[k as int].0@, strings(
                    self.patterns@[k as int].1@,
                )));
                Some((&self.patterns[k].0, &self.patterns[k].1))
            },
            None => None,
        }
    }

    /// Whether a word of the dictionary starts with `input`.
    pub fn prefix_exists(&self, input: &str) -> (r: bool)
        requires
            self.wf(),
        ensures
            r == self.dictionary().reaches(input@),
    {
        self.words.matching_node(input).is_some()
    }

    /// The candidates made longer by one fragment each, as far as a word of
    /// the dictionary starts with them.
    fn extend_strings(&self, matched: &Vec<String>, fragments: &Vec<String>) -> (out: Vec<String>)
        requires
            self.wf(),
        ensures
            strings(out@).to_set() == extend_by(
                reach_in(self.dictionary()),
                strings(matched@).to_set(),
                strings(fragments@),
            ),
    {
        let mut out: Vec<String> = Vec::new();
        let ghost hs = strings(matched@);
        let ghost es = strings(fragments@);
        let ghost ok = reach_in(self.dictionary());
        let mut i: usize = 0;
        while i < matched.len()
            invariant
                i <= matched.len(),
                self.wf(),
                hs == strings(matched@),
                es == strings(fragments@),
                ok == reach_in(self.dictionary()),
                forall|w: Seq<char>|
                    strings(out@).to_set().contains(w) <==> extended_upto(
                        ok,
                        hs,
                        es,
                        i as int,
                        0,
                        w,
                    ),
            decreases matched.len() - i,
        {
            let mut j: usize = 0;
            while j < fragments.len()
                invariant
                    i < matched.len(),
                    j <= fragments.len(),
                    self.wf(),
                    hs == strings(matched@),
                    es == strings(fragments@),
                    ok == reach_in(self.dictionary()),
                    forall|w: Seq<char>|
                        strings(out@).to_set().contains(w) <==> extended_upto(
                            ok,
                            hs,
                            es,
                            i as int,
                            j as int,
                            w,
                        ),
                decreases fragments.len() - j,
            {
                let ghost before = strings(out@);
                let candidate = matched[i].clone().concat(fragments[j].as_str());
                assert(candidate@ == joined(hs[i as int], es[j as int]));
                if self.prefix_exists(candidate.as_str()) {
                    out.push(candidate);
                    proof {
                        assert(strings(out@) == before.push(joined(hs[i as int], es[j as int])));
                        lemma_step_found(ok, hs, es, i as int, j as int, before, strings(out@));
                    }
                } else {
                    proof {
                        lemma_step_missed(ok, hs, es, i as int, j as int, before);
                    }
                }
                j = j + 1;
            }
            proof {
                lemma_row_done(ok, hs, es, i as int);
            }
            i = i + 1;
        }
        proof {
            lemma_extended_all(ok, hs, es, strings(out@).to_set());
        }
        out
    }

    /// The dictionary words that Roman input stands for, each once, in
    /// ascending order.
    pub fn suggest(&self, input: &str) -> (r: Vec<String>)
        requires
            self.wf(),
        ensures
            strictly_ascending(strings(r@)),
            strings(r@).to_set() == self.suggestions(input@),
    {
        let fixed = fix_string(input);
        let mut remaining = fixed.as_str();
        let mut matched_strings: Vec<String> = Vec::new();
        matched_strings.push(String::new());
        assert(strings(matched_strings@).to_set() =~= set![Seq::<char>::empty()]) by {
            assert(strings(matched_strings@)[0] == Seq::<char>::empty());
        }
        let ghost goal = self.run(strings(matched_strings@).to_set(), remaining@);
        while !remaining.is_empty()
            invariant_except_break
                self.run(strings(matched_strings@).to_set(), remaining@) == goal,
            invariant
                self.wf(),
            ensures
                strings(matched_strings@).to_set() == goal,
            decreases remaining@.len(),
        {
            let ghost frontier = strings(matched_strings@).to_set();
            let (key, patterns) = match self.find_pattern(remaining) {
                Some(entry) => entry,
                None => {
                    break ;
                },
            };
            let used = key.as_str().unicode_len();
            let len = remaining.unicode_len();
            remaining = remaining.substring_char(used, len);
            matched_strings = self.extend_strings(&matched_strings, patterns);
            let mut additional_matches = self.extend_strings(&matched_strings, &self.common_suffixes);
            proof {
                lemma_strings_append(matched_strings@, additional_matches@);
            }
            matched_strings.append(&mut additional_matches);
            assert(strings(matched_strings@).to_set() == self.advance(frontier, strings(patterns@)));
        }
        let mut suggestions: Vec<String> = Vec::new();
        let ghost all = matched_strings@;
        let ghost hs = strings(all);
        assert(strings(suggestions@) == Seq::<Seq<char>>::empty());
        for word in it: matched_strings.into_iter()
            invariant
                it.seq() == all,
                hs == strings(all),
                self.wf(),
                strictly_ascending(strings(suggestions@)),
                forall|w: Seq<char>|
                    #[trigger] strings(suggestions@).contains(w) <==> known(
                        hs.take(it.index() as int),
                        self.dictionary(),
                        w,
                    ),
        {
            let ghost done = hs.take(it.index() as int);
            let ghost more = hs.take(it.index() + 1);
            let ghost before = strings(suggestions@);
            assert(word == all[it.index() as int]);
            assert(more == done.push(word@));
            let is_word = match self.words.matching_node(word.as_str()) {
                Some(node) => node.is_complete_word(),
                None => false,
            };
            if is_word {
                insert_sorted(&mut suggestions, word);
            }
            proof {
                let after = strings(suggestions@);
                assert(more.contains(word@)) by {
                    assert(more[it.index() as int] == word@);
                }
                assert forall|w: Seq<char>| more.contains(w) <==> done.contains(w) || w
                    == word@ by {
                    if done.contains(w) {
                        let k = choose|k: int| 0 <= k < done.len() && done[k] == w;
                        assert(more[k] == w);
                    }
                    if more.contains(w) {
                        let k = choose|k: int| 0 <= k < more.len() && more[k] == w;
                        if k < done.len() {
                            assert(done[k] == w);
                        }
                    }
                }
                assert(is_word == self.dictionary().contains(word@));
                assert forall|w: Seq<char>| #[trigger] after.contains(w) <==> known(
                    more,
                    self.dictionary(),
                    w,
                ) by {
                    if is_word {
                        assert(after.contains(w) <==> before.contains(w) || w == word@);
                    } else {
                        assert(after == before);
                    }
                    assert(before.contains(w) <==> known(done, self.dictionary(), w));
                }
            }
        }
        proof {
            assert(hs.take(all.len() as int) == hs);
            assert(fixed@ == crate::utils::letters(input@));
            assert forall|w: Seq<char>| strings(suggestions@).to_set().contains(w)
                <==> self.suggestions(input@).contains(w) by {
                assert(hs.to_set().contains(w) <==> hs.contains(w));
                assert(strings(suggestions@).contains(w) <==> known(hs, self.dictionary(), w));
            }
            assert(strings(suggestions@).to_set() =~= self.suggestions(input@));
        }
        suggestions
    }
}

/// The strings of two lists, one behind the other, are the strings of
/// either.
pub proof fn lemma_strings_append(a: Seq<String>, b: Seq<String>)
    ensures
        strings(a + b).to_set() == strings(a).to_set().union(strings(b).to_set()),
{
    let ab = strings(a + b);
    assert forall|w: Seq<char>| ab.to_set().contains(w) <==> strings(a).to_set().union(
        strings(b).to_set(),
    ).contains(w) by {
        if ab.contains(w) {
            let k = choose|k: int| 0 <= k < ab.len() && ab[k] == w;
            if k < a.len() {
                assert(strings(a)[k] == w);
            } else {
                assert(strings(b)[k - a.len()] == w);
            }
        }
        if strings(a).contains(w) {
            let k = choose|k: int| 0 <= k < strings(a).len() && strings(a)[k] == w;
            assert(ab[k] == w);
        }
        if strings(b).contains(w) {
            let k = choose|k: int| 0 <= k < strings(b).len() && strings(b)[k] == w;
            assert(ab[k + a.len()] == w);
        }
    }
    assert(ab.to_set() =~= strings(a).to_set().union(strings(b).to_set()));
}

} // verus!
