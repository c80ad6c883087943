use crate::order::{insert_sorted, strictly_ascending};
use crate::patterns::Block;
use crate::text::strings;
use vstd::prelude::*;
use vstd::string::*;

verus! {

/// A table entry before its pattern is expanded: the pattern of Bengali
/// fragments as a regular expression.
pub struct RegexBlock {
    pub transliterate: String,
    pub entire_block_optional: Option<bool>,
}

/// The strings that a regular expression stands for, in the order in which
/// the expander lists them; `None` where the expression does not parse.
pub uninterp spec fn regex_strings(pattern: Seq<char>) -> Option<Seq<Seq<char>>>;

/// `rexplode::explode`: every string that the pattern matches, as far as
/// the pattern is made of literals, classes, groups, alternations and
/// bounded repetitions. An expression that does not parse gives nothing.
#[verifier::external_body]
pub(crate) fn explode_regex(pattern: &str) -> (r: Option<Vec<String>>)
    ensures
        match r {
            Some(list) => regex_strings(pattern@) == Some(strings(list@)),
            None => regex_strings(pattern@) is None,
        },
{
    rexplode::explode(pattern).ok()
}

/// The strings of `list` that are not empty.
pub open spec fn non_empty(list: Seq<Seq<char>>) -> Set<Seq<char>> {
    Set::new(|w: Seq<char>| w.len() > 0 && list.contains(w))
}

/// The strings of `list` that are not empty, each once, in ascending order.
pub fn sorted_unique(list: Vec<String>) -> (out: Vec<String>)
    ensures
        strictly_ascending(strings(out@)),
        strings(out@).to_set() == non_empty(strings(list@)),
{
    let mut out: Vec<String> = Vec::new();
    let ghost all = strings(list@);
    let ghost items = list@;
    for word in it: list.into_iter()
        invariant
            it.seq() == items,
            all == strings(items),
            strictly_ascending(strings(out@)),
            strings(out@).to_set() == non_empty(all.take(it.index() as int)),
    {
        let ghost before = strings(out@);
        let ghost w = word@;
        assert(word == items[it.index() as int]);
        assert(w == all[it.index() as int]);
        if word.as_str().unicode_len() > 0 {
            insert_sorted(&mut out, word);
        }
        proof {
            let after = strings(out@);
            let done = all.take(it.index() as int);
            let more = all.take(it.index() + 1);
            assert(more.drop_last() == done);
            assert forall|x: Seq<char>| after.to_set().contains(x) <==> non_empty(more).contains(
                x,
            ) by {
                if before.contains(x) {
                    assert(before.to_set().contains(x));
                    let a = choose|a: int| 0 <= a < done.len() && done[a] == x;
                    assert(more[a] == x);
                }
                if after.contains(x) && !before.contains(x) {
                    assert(more[it.index() as int] == x);
                }
                if non_empty(more).contains(x) {
                    let a = choose|a: int| 0 <= a < more.len() && more[a] == x;
                    if a < it.index() {
                        assert(done[a] == x);
                        assert(non_empty(done).contains(x));
                        assert(before.to_set().contains(x));
                        assert(before.contains(x));
                    }
                }
            }
            assert(after.to_set() =~= non_empty(more));
        }
    }
    assert(all.take(items.len() as int) == all);
    out
}

/// What an entry with this pattern becomes, given the strings that the
/// pattern stands for: they are its fragments, without the empty one, each
/// once and in ascending order.
pub fn block_of(exploded: Vec<String>, entire_block_optional: Option<bool>) -> (r: Block)
    ensures
        strictly_ascending(r@.expansions),
        r@.expansions.to_set() == non_empty(strings(exploded@)),
        r.entire_block_optional == entire_block_optional,
{
    Block { transliterate: sorted_unique(exploded), entire_block_optional }
}

/// Expands the pattern of an entry. There is no block where the pattern
/// does not parse.
pub fn explode_block(source: &RegexBlock) -> (r: Option<Block>)
    ensures
        match (r, regex_strings(source.transliterate@)) {
            (Some(block), Some(list)) => {
                &&& strictly_ascending(block@.expansions)
                &&& block@.expansions.to_set() == non_empty(list)
                &&& block.entire_block_optional == source.entire_block_optional
            },
            (None, None) => true,
            _ => false,
        },
{
    match explode_regex(source.transliterate.as_str()) {
        Some(exploded) => Some(block_of(exploded, source.entire_block_optional)),
        None => None,
    }
}

} // verus!
