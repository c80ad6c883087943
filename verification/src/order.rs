use crate::text::strings;
use vstd::prelude::*;
use vstd::string::*;
use vstd::utf8::encode_utf8;

verus! {

/// The order of byte strings: by the first byte that differs, a proper
/// prefix before what it is a prefix of.
pub open spec fn lex_le(a: Seq<u8>, b: Seq<u8>) -> bool
    decreases a.len(),
{
    if a.len() == 0 {
        true
    } else if b.len() == 0 {
        false
    } else {
        a[0] < b[0] || (a[0] == b[0] && lex_le(a.drop_first(), b.drop_first()))
    }
}

/// No key stands before a smaller one.
pub open spec fn ascending(keys: Seq<Seq<u8>>) -> bool {
    forall|i: int| 0 < i < keys.len() ==> lex_le(#[trigger] keys[i - 1], keys[i])
}

/// Of two byte strings one stands at or before the other.
pub proof fn lemma_lex_total(a: Seq<u8>, b: Seq<u8>)
    ensures
        lex_le(a, b) || lex_le(b, a),
    decreases a.len(),
{
    if a.len() > 0 && b.len() > 0 && a[0] == b[0] {
        lemma_lex_total(a.drop_first(), b.drop_first());
    }
}

/// Whether `a` stands at or before `b` in the order of keys.
pub fn key_le(a: &[u8], b: &[u8]) -> (r: bool)
    ensures
        r == lex_le(a@, b@),
{
    let mut i: usize = 0;
    assert(a@.skip(0) == a@ && b@.skip(0) == b@);
    loop
        invariant
            i <= a.len(),
            i <= b.len(),
            lex_le(a@, b@) == lex_le(a@.skip(i as int), b@.skip(i as int)),
        decreases a.len() - i,
    {
        if i == a.len() {
            return true;
        }
        if i == b.len() {
            return false;
        }
        if a[i] < b[i] {
            return true;
        }
        if a[i] > b[i] {
            return false;
        }
        assert(a@.skip(i as int).drop_first() == a@.skip(i + 1));
        assert(b@.skip(i as int).drop_first() == b@.skip(i + 1));
        i = i + 1;
    }
}

/// The order of strings: that of their UTF-8 bytes.
pub open spec fn str_le(a: Seq<char>, b: Seq<char>) -> bool {
    lex_le(encode_utf8(a), encode_utf8(b))
}

/// Each string stands before the next, and differs from it.
pub open spec fn strictly_ascending(list: Seq<Seq<char>>) -> bool {
    forall|i: int|
        0 < i < list.len() ==> str_le(#[trigger] list[i - 1], list[i]) && list[i - 1] != list[i]
}

/// A byte string stands at its own place.
pub proof fn lemma_lex_reflexive(a: Seq<u8>)
    ensures
        lex_le(a, a),
    decreases a.len(),
{
    if a.len() > 0 {
        lemma_lex_reflexive(a.drop_first());
    }
}

/// Whether `a` stands at or before `b` in the order of strings.
pub fn string_le(a: &String, b: &String) -> (r: bool)
    ensures
        r == str_le(a@, b@),
{
    key_le(a.as_str().as_bytes(), b.as_str().as_bytes())
}

/// Puts `word` at its place in an ascending list, unless the list holds
/// it already.
pub fn insert_sorted(list: &mut Vec<String>, word: String)
    requires
        strictly_ascending(strings(old(list)@)),
    ensures
        strictly_ascending(strings(final(list)@)),
        forall|x: Seq<char>|
            strings(final(list)@).contains(x) <==> strings(old(list)@).contains(x) || x == word@,
{
    let ghost before = strings(list@);
    let ghost w = word@;
    let mut p: usize = 0;
    while p < list.len() && !string_le(&word, &list[p])
        invariant
            p <= list.len(),
            w == word@,
            before == strings(list@),
            p > 0 ==> str_le(before[p - 1], w) && before[p - 1] != w,
        decreases list.len() - p,
    {
        proof {
            assert(before[p as int] == list@[p as int]@);
            lemma_lex_total(encode_utf8(w), encode_utf8(before[p as int]));
            lemma_lex_reflexive(encode_utf8(w));
        }
        p = p + 1;
    }
    if p == list.len() || list[p] != word {
        proof {
            if p < list.len() {
                assert(before[p as int] == list@[p as int]@);
            }
        }
        list.insert(p, word);
        proof {
            let after = strings(list@);
            assert(after == before.insert(p as int, w));
            assert(after[p as int] == w);
            assert forall|x: Seq<char>| after.contains(x) <==> before.contains(x) || x == w by {
                if after.contains(x) {
                    let k = choose|k: int| 0 <= k < after.len() && after[k] == x;
                    if k < p {
                        assert(before[k] == x);
                    } else if k > p {
                        assert(before[k - 1] == x);
                    }
                }
                if before.contains(x) {
                    let k = choose|k: int| 0 <= k < before.len() && before[k] == x;
                    if k < p {
                        assert(after[k] == x);
                    } else {
                        assert(after[k + 1] == x);
                    }
                }
            }
            assert forall|i: int| 0 < i < after.len() implies str_le(
                #[trigger] after[i - 1],
                after[i],
            ) && after[i - 1] != after[i] by {
                if i < p {
                    assert(after[i - 1] == before[i - 1] && after[i] == before[i]);
                } else if i == p {
                } else if i == p + 1 {
                    assert(after[i] == before[p as int]);
                } else {
                    assert(after[i - 1] == before[i - 2] && after[i] == before[i - 1]);
                    assert(str_le(before[(i - 1) - 1], before[i - 1]));
                }
            }
        }
    } else {
        assert(before[p as int] == list@[p as int]@);
        assert(before.contains(w));
    }
}

} // verus!
