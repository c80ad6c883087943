use crate::text::{strings, strs};
use crate::trie::Trie;
use vstd::prelude::*;

verus! {

/// What one Roman fragment may stand for.
pub struct Block {
    /// The Bengali fragments that the key may become, in order.
    pub transliterate: Vec<String>,
    /// Set where the key may also become nothing at all.
    pub entire_block_optional: Option<bool>,
}

/// A block as plain values.
pub struct BlockView {
    pub expansions: Seq<Seq<char>>,
    pub optional: bool,
}

impl View for Block {
    type V = BlockView;

    open spec fn view(&self) -> BlockView {
        BlockView {
            expansions: strings(self.transliterate@),
            optional: self.entire_block_optional == Some(true),
        }
    }
}

/// The views of a table's entries.
pub open spec fn entries(table: Seq<(String, Block)>) -> Seq<(Seq<char>, BlockView)> {
    Seq::new(table.len(), |i: int| (table[i].0@, table[i].1@))
}

/// The block of the first entry of `table` whose key is `key`. The empty
/// key has no block.
pub open spec fn block_for(table: Seq<(Seq<char>, BlockView)>, key: Seq<char>) -> Option<BlockView>
    decreases table.len(),
{
    if key.len() == 0 || table.len() == 0 {
        None
    } else if table[0].0 == key {
        Some(table[0].1)
    } else {
        block_for(table.drop_first(), key)
    }
}

/// The table of blocks by Roman key, a trie of its keys, and the fragments
/// that may follow any step.
pub struct Patterns {
    pub dict: Vec<(String, Block)>,
    pub trie: Trie,
    pub common: Vec<String>,
}

/// The keys of a table.
pub open spec fn keys_of(dict: Seq<(String, Block)>) -> Seq<Seq<char>> {
    Seq::new(dict.len(), |i: int| dict[i].0@)
}

impl Patterns {
    /// The table with the trie of its keys.
    pub fn new(dict: Vec<(String, Block)>, common: Vec<String>) -> (r: Patterns)
        ensures
            r.dict == dict,
            r.common == common,
            r.trie.wf(),
            forall|p: Seq<char>| r.trie.contains(p) <==> keys_of(dict@).contains(p),
    {
        let mut keys: Vec<&str> = Vec::new();
        let mut i: usize = 0;
        while i < dict.len()
            invariant
                i <= dict.len(),
                strs(keys@) == keys_of(dict@).take(i as int),
            decreases dict.len() - i,
        {
            let ghost before = strs(keys@);
            keys.push(dict[i].0.as_str());
            assert(strs(keys@) == before.push(dict@[i as int].0@));
            i = i + 1;
        }
        assert(keys_of(dict@).take(dict@.len() as int) == keys_of(dict@));
        let trie = Trie::from_strings(keys);
        Patterns { dict, trie, common }
    }

    /// The block of a key of the table: that of the first entry with this
    /// key.
    pub fn get(&self, key: &str) -> (r: Option<&Block>)
        ensures
            match r {
                Some(block) => block_for(entries(self.dict@), key@) == Some(block@),
                None => block_for(entries(self.dict@), key@) is None,
            },
    {
        find_entry(&self.dict, key)
    }
}

/// The block of the first entry of `dict` whose key is `key`. The empty key
/// has no block.
pub(crate) fn find_entry<'a>(dict: &'a Vec<(String, Block)>, key: &str) -> (r: Option<&'a Block>)
    ensures
        match r {
            Some(block) => block_for(entries(dict@), key@) == Some(block@),
            None => block_for(entries(dict@), key@) is None,
        },
{
    if key.is_empty() {
        return None;
    }
    let wanted = key.to_owned();
    let ghost table = entries(dict@);
    let mut i: usize = 0;
    assert(table.skip(0) == table);
    while i < dict.len()
        invariant
            i <= dict.len(),
            table == entries(dict@),
            wanted@ == key@,
            key@.len() > 0,
            block_for(table, key@) == block_for(table.skip(i as int), key@),
        decreases dict.len() - i,
    {
        if dict[i].0 == wanted {
            assert(table.skip(i as int)[0] == table[i as int]);
            return Some(&dict[i].1);
        }
        assert(table.skip(i as int)[0] == table[i as int]);
        assert(table.skip(i as int).drop_first() == table.skip(i + 1));
        i = i + 1;
    }
    None
}

} // verus!
