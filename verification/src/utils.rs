use crate::avro::utils::{emit, fold, kept, promoted};
use crate::text::{ascii_lower, is_ascii_alpha, trimmed};
use vstd::prelude::*;

verus! {

/// What the scalar at `i` contributes where only letters stay: `O`, its
/// lower case, or nothing.
pub open spec fn emit_letter(t: Seq<char>, i: int) -> Seq<char> {
    if promoted(t, i) {
        seq!['O']
    } else if is_ascii_alpha(t[i]) {
        seq![ascii_lower(t[i])]
    } else {
        Seq::empty()
    }
}

/// What the first `n` scalars of `t` contribute where only letters stay.
pub open spec fn letters_upto(t: Seq<char>, n: nat) -> Seq<char>
    decreases n,
{
    if n == 0 {
        Seq::empty()
    } else {
        letters_upto(t, (n - 1) as nat) + emit_letter(t, n - 1)
    }
}

/// The letters of Roman input: trimmed, lower case, and with `O` for an
/// `o` that follows no letter. Nothing else stays.
pub open spec fn letters(raw: Seq<char>) -> Seq<char> {
    letters_upto(trimmed(raw), trimmed(raw).len())
}

/// Where no digit and no backtick stands among the first `n` scalars, the
/// letters are all that the canonical form holds.
pub proof fn lemma_letters_fold(t: Seq<char>, n: nat)
    requires
        n <= t.len(),
        forall|i: int| 0 <= i < n ==> kept(#[trigger] t[i]) ==> is_ascii_alpha(t[i]),
    ensures
        letters_upto(t, n) == fold(t, n),
    decreases n,
{
    if n > 0 {
        lemma_letters_fold(t, (n - 1) as nat);
        assert(kept(t[n - 1]) ==> is_ascii_alpha(t[n - 1]));
        assert(emit_letter(t, n - 1) == emit(t, n - 1));
    }
}

/// Whether a scalar is a letter `a` to `z` or `A` to `Z`.
pub fn is_convertible(c: char) -> (r: bool)
    ensures
        r == is_ascii_alpha(c),
{
    ((c >= 'a') && (c <= 'z')) || ((c >= 'A') && (c <= 'Z'))
}

/// Brings Roman input into the form that holds its letters only.
pub fn fix_string(s: &str) -> (r: String)
    ensures
        r@ == letters(s@),
{
    let t = s.trim();
    let mut result = String::new();
    let mut prev = ' ';
    for c in it: t.chars()
        invariant
            it.seq() == t@,
            result@ == letters_upto(t@, it.index() as nat),
            prev == (if it.index() == 0 {
                ' '
            } else {
                t@[it.index() - 1]
            }),
    {
        if is_convertible(c) {
            if (c == 'o' || c == 'O') && !is_convertible(prev) {
                result.push('O');
                assert(emit_letter(t@, it.index() as int) == seq!['O']);
            } else {
                result.push(c.to_ascii_lowercase());
                assert(emit_letter(t@, it.index() as int) == seq![ascii_lower(c)]);
            }
        }
        prev = c;
    }
    result
}

} // verus!
