use crate::text::{
    ascii_lower, is_ascii_alnum, is_ascii_alpha, trim_end, trim_start, trimmed,
};
use vstd::prelude::*;

verus! {

/// The scalar at `i` is an `o` that opens the text or follows something
/// that is no letter: it is written `O`.
pub open spec fn promoted(t: Seq<char>, i: int) -> bool {
    (t[i] == 'o' || t[i] == 'O') && (i == 0 || !is_ascii_alpha(t[i - 1]))
}

/// The scalars that stay: letters, digits and the backtick.
pub open spec fn kept(c: char) -> bool {
    is_ascii_alnum(c) || c == '`'
}

/// What the scalar at `i` contributes: `O`, its lower case, or nothing.
pub open spec fn emit(t: Seq<char>, i: int) -> Seq<char> {
    if promoted(t, i) {
        seq!['O']
    } else if kept(t[i]) {
        seq![ascii_lower(t[i])]
    } else {
        Seq::empty()
    }
}

/// What the first `n` scalars of `t` contribute, in order.
pub open spec fn fold(t: Seq<char>, n: nat) -> Seq<char>
    decreases n,
{
    if n == 0 {
        Seq::empty()
    } else {
        fold(t, (n - 1) as nat) + emit(t, n - 1)
    }
}

/// The canonical form of Roman input: trimmed, lower case, without
/// punctuation, and with `O` for an `o` that follows no letter.
pub open spec fn normalise(raw: Seq<char>) -> Seq<char> {
    fold(trimmed(raw), trimmed(raw).len())
}

/// The scalars of canonical text: `a` to `z`, `0` to `9`, the backtick,
/// and `O`.
pub open spec fn canonical(c: char) -> bool {
    ('a' <= c && c <= 'z') || ('0' <= c && c <= '9') || c == '`' || c == 'O'
}

/// Canonical text is as long as what it was made of, less what was dropped,
/// and holds canonical scalars only.
pub proof fn lemma_fold_canonical(t: Seq<char>, n: nat)
    requires
        n <= t.len(),
    ensures
        fold(t, n).len() <= n,
        forall|j: int| 0 <= j < fold(t, n).len() ==> canonical(#[trigger] fold(t, n)[j]),
    decreases n,
{
    if n > 0 {
        lemma_fold_canonical(t, (n - 1) as nat);
    }
}

/// Trimming makes nothing longer.
pub proof fn lemma_trim_len(s: Seq<char>)
    ensures
        trim_start(s).len() <= s.len(),
        trim_end(s).len() <= s.len(),
        trimmed(s).len() <= s.len(),
    decreases s.len(),
{
    if s.len() > 0 {
        lemma_trim_len(s.drop_first());
        lemma_trim_len(s.drop_last());
    }
    lemma_trim_end_len(trim_start(s));
}

/// Trimming the end makes nothing longer.
proof fn lemma_trim_end_len(s: Seq<char>)
    ensures
        trim_end(s).len() <= s.len(),
    decreases s.len(),
{
    if s.len() > 0 {
        lemma_trim_end_len(s.drop_last());
    }
}

/// Brings Roman input into its canonical form.
pub fn fix_string(s: &str) -> (r: String)
    ensures
        r@ == normalise(s@),
        r@.len() <= s@.len(),
        forall|j: int| 0 <= j < r@.len() ==> canonical(#[trigger] r@[j]),
{
    let t = s.trim();
    let mut prev = ' ';
    let mut result = String::new();
    for c in it: t.chars()
        invariant
            it.seq() == t@,
            result@ == fold(t@, it.index() as nat),
            prev == (if it.index() == 0 {
                ' '
            } else {
                t@[it.index() - 1]
            }),
    {
        if (c == 'o' || c == 'O') && !prev.is_ascii_alphabetic() {
            result.push('O');
            assert(emit(t@, it.index() as int) == seq!['O']);
        } else if c.is_ascii_alphanumeric() || c == '`' {
            result.push(c.to_ascii_lowercase());
            assert(emit(t@, it.index() as int) == seq![ascii_lower(c)]);
        }
        prev = c;
    }
    proof {
        lemma_fold_canonical(t@, t@.len());
        lemma_trim_len(s@);
    }
    result
}

/// Every `O` of the canonical form of `t` opens it or follows a digit or a
/// backtick: nothing was dropped between a letter and an `o` after it.
pub open spec fn stable(t: Seq<char>) -> bool {
    forall|i: int|
        0 <= i < t.len() && #[trigger] promoted(t, i) ==> fold(t, i as nat).len() == 0
            || !is_ascii_alpha(fold(t, i as nat).last())
}

/// Each scalar of `x` contributes itself.
pub open spec fn settled(x: Seq<char>) -> bool {
    forall|j: int| 0 <= j < x.len() ==> #[trigger] emit(x, j) == seq![x[j]]
}

/// Text of which each scalar contributes itself is its own canonical form.
proof fn lemma_settled_fold(x: Seq<char>, n: nat)
    requires
        settled(x),
        n <= x.len(),
    ensures
        fold(x, n) == x.take(n as int),
    decreases n,
{
    if n > 0 {
        lemma_settled_fold(x, (n - 1) as nat);
        assert(emit(x, n - 1) == seq![x[n - 1]]);
        assert(x.take(n - 1) + seq![x[n - 1]] == x.take(n as int));
    } else {
        assert(x.take(0) == Seq::<char>::empty());
    }
}

/// Canonical text has no white space to trim.
proof fn lemma_canonical_trimmed(x: Seq<char>)
    requires
        forall|j: int| 0 <= j < x.len() ==> canonical(#[trigger] x[j]),
    ensures
        trimmed(x) == x,
{
    if x.len() > 0 {
        assert(canonical(x[0]));
        assert(canonical(x[x.len() - 1]));
    }
}

/// A letter contributes a letter.
proof fn lemma_after_letter(t: Seq<char>, n: nat)
    requires
        0 < n <= t.len(),
        is_ascii_alpha(t[n - 1]),
    ensures
        fold(t, n).len() > 0,
        is_ascii_alpha(fold(t, n).last()),
{
    let e = emit(t, n - 1);
    assert(e.len() == 1);
    assert(fold(t, n).last() == e[0]);
}

/// In the canonical form of stable text each scalar contributes itself.
proof fn lemma_fold_settled(t: Seq<char>, n: nat)
    requires
        stable(t),
        n <= t.len(),
    ensures
        settled(fold(t, n)),
    decreases n,
{
    if n > 0 {
        let m = (n - 1) as nat;
        lemma_fold_settled(t, m);
        let a = fold(t, m);
        let e = emit(t, m as int);
        let x = fold(t, n);
        assert(x == a + e);
        assert forall|j: int| 0 <= j < x.len() implies #[trigger] emit(x, j) == seq![x[j]] by {
            if j < a.len() {
                assert(x[j] == a[j]);
                if j > 0 {
                    assert(x[j - 1] == a[j - 1]);
                }
                assert(emit(a, j) == seq![a[j]]);
                assert(promoted(x, j) == promoted(a, j));
            } else {
                assert(e.len() == 1 && j == a.len());
                assert(x[j] == e[0]);
                if j > 0 {
                    assert(x[j - 1] == a.last());
                }
                if promoted(t, m as int) {
                    assert(promoted(x, j));
                } else {
                    if t[m as int] == 'o' || t[m as int] == 'O' {
                        lemma_after_letter(t, m);
                    }
                }
            }
        }
    }
}

/// Bringing canonical text into canonical form once more changes nothing,
/// where no `O` of it stands behind a letter.
pub proof fn lemma_normalise_idempotent(raw: Seq<char>)
    requires
        stable(trimmed(raw)),
    ensures
        normalise(normalise(raw)) == normalise(raw),
{
    let t = trimmed(raw);
    let x = normalise(raw);
    lemma_fold_canonical(t, t.len());
    lemma_canonical_trimmed(x);
    lemma_fold_settled(t, t.len());
    lemma_settled_fold(x, x.len());
    assert(x.take(x.len() as int) == x);
}

/// The canonical form holds canonical scalars only, and is no longer than
/// what it was made of.
pub proof fn lemma_normalise_canonical(raw: Seq<char>)
    ensures
        normalise(raw).len() <= raw.len(),
        forall|j: int| 0 <= j < normalise(raw).len() ==> canonical(#[trigger] normalise(raw)[j]),
{
    lemma_fold_canonical(trimmed(raw), trimmed(raw).len());
    lemma_trim_len(raw);
}

/// What fewer scalars contribute is the start of what more contribute.
proof fn lemma_fold_grows(t: Seq<char>, m: nat, n: nat)
    requires
        m <= n <= t.len(),
    ensures
        fold(t, m).len() <= fold(t, n).len(),
        fold(t, n).take(fold(t, m).len() as int) == fold(t, m),
    decreases n,
{
    if m < n {
        lemma_fold_grows(t, m, (n - 1) as nat);
        let a = fold(t, (n - 1) as nat);
        assert((a + emit(t, n - 1)).take(fold(t, m).len() as int) == a.take(
            fold(t, m).len() as int,
        ));
    } else {
        assert(fold(t, n).take(fold(t, n).len() as int) == fold(t, n));
    }
}

/// Each scalar of canonical text contributes exactly one scalar.
proof fn lemma_fold_of_canonical(x: Seq<char>, n: nat)
    requires
        n <= x.len(),
        forall|j: int| 0 <= j < x.len() ==> canonical(#[trigger] x[j]),
    ensures
        fold(x, n).len() == n,
        forall|k: int| 0 <= k < n ==> seq![#[trigger] fold(x, n)[k]] == emit(x, k),
    decreases n,
{
    if n > 0 {
        lemma_fold_of_canonical(x, (n - 1) as nat);
        assert(canonical(x[n - 1]));
        assert(emit(x, n - 1).len() == 1);
        assert(emit(x, n - 1) == seq![emit(x, n - 1)[0]]);
    }
}

/// Bringing canonical text into canonical form once more changes it, where
/// an `O` of it stands behind a letter: that `O` becomes `o`.
pub proof fn lemma_normalise_changes(raw: Seq<char>)
    requires
        !stable(trimmed(raw)),
    ensures
        normalise(normalise(raw)) != normalise(raw),
{
    let t = trimmed(raw);
    let x = normalise(raw);
    let i = choose|i: int|
        0 <= i < t.len() && #[trigger] promoted(t, i) && !(fold(t, i as nat).len() == 0
            || !is_ascii_alpha(fold(t, i as nat).last()));
    let a = fold(t, i as nat);
    let j = a.len() as int;
    lemma_fold_grows(t, (i + 1) as nat, t.len());
    assert(fold(t, (i + 1) as nat) == a + seq!['O']);
    assert(x.take(j + 1) == a + seq!['O']);
    assert(x[j] == x.take(j + 1)[j]);
    assert(x[j - 1] == x.take(j + 1)[j - 1]);
    lemma_fold_canonical(t, t.len());
    lemma_canonical_trimmed(x);
    lemma_fold_of_canonical(x, x.len());
    assert(seq![fold(x, x.len())[j]] == emit(x, j));
    assert(emit(x, j) == seq!['o']);
    assert(seq![fold(x, x.len())[j]][0] == 'o');
}

} // verus!
