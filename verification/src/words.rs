use crate::text::{strs, trimmed};
use crate::trie::Trie;
use vstd::prelude::*;

verus! {

/// The dictionary as a trie.
pub struct Words {
    pub trie: Trie,
}

/// The lines without the white space around them.
pub open spec fn trimmed_lines(lines: Seq<&str>) -> Seq<Seq<char>> {
    Seq::new(lines.len(), |i: int| trimmed(lines[i]@))
}

impl Words {
    /// The dictionary of the words that the lines hold, one word a line.
    pub fn new(lines: Vec<&str>) -> (r: Words)
        ensures
            r.trie.wf(),
            forall|p: Seq<char>| r.trie.contains(p) <==> trimmed_lines(lines@).contains(p),
    {
        let mut words: Vec<&str> = Vec::new();
        let mut i: usize = 0;
        while i < lines.len()
            invariant
                i <= lines.len(),
                strs(words@) == trimmed_lines(lines@).take(i as int),
            decreases lines.len() - i,
        {
            let ghost before = strs(words@);
            words.push(lines[i].trim());
            assert(strs(words@) == before.push(trimmed(lines@[i as int]@)));
            i = i + 1;
        }
        assert(trimmed_lines(lines@).take(lines@.len() as int) == trimmed_lines(lines@));
        Words { trie: Trie::from_strings(words) }
    }
}

} // verus!
