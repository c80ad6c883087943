use vstd::prelude::*;

verus! {

/// The byte that stands for a scalar in an index: its low eight bits.
pub open spec fn byte_of(c: char) -> u8 {
    ((c as u32) % 256) as u8
}

/// The byte string that stands for a string in an index, scalar by scalar.
pub open spec fn encode(s: Seq<char>) -> Seq<u8> {
    Seq::new(s.len(), |i: int| byte_of(s[i]))
}

/// The byte that stands for `c`. Scalars that differ only above their low
/// eight bits get the same byte: an index cannot tell them apart.
pub fn low_byte(c: char) -> (b: u8)
    ensures
        b == byte_of(c),
{
    let u: u32 = c as u32;
    (u % 256) as u8
}

/// The byte string that stands for `s`.
pub fn encode_str(s: &str) -> (v: Vec<u8>)
    ensures
        v@ == encode(s@),
{
    let mut v: Vec<u8> = Vec::new();
    for c in it: s.chars()
        invariant
            v@ == encode(s@.take(it.index() as int)),
            it.seq() == s@,
    {
        v.push(low_byte(c));
        assert(s@.take(it.index() + 1).drop_last() == s@.take(it.index() as int));
    }
    assert(s@.take(s@.len() as int) == s@);
    v
}

} // verus!
