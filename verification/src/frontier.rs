use crate::encoding::encode;
use crate::index::{FstNode, FstTree};
use crate::text::strings;
use vstd::prelude::*;

verus! {

/// The strings of a list of places.
pub open spec fn views(nodes: Seq<FstNode<'_>>) -> Seq<Seq<char>> {
    Seq::new(nodes.len(), |i: int| nodes[i]@)
}

/// Every place of the list lies in `tree`.
pub open spec fn all_in(nodes: Seq<FstNode<'_>>, tree: FstTree) -> bool {
    forall|i: int| 0 <= i < nodes.len() ==> (#[trigger] nodes[i]).tree() == tree
}

/// What the prefix `h` becomes with the fragment `e` behind it.
pub open spec fn joined(h: Seq<char>, e: Seq<char>) -> Seq<char> {
    h + e
}

/// The prefixes of `frontier` made longer by one fragment of `fragments`
/// each, as far as `tree` reaches them.
pub open spec fn extend(tree: FstTree, frontier: Set<Seq<char>>, fragments: Seq<Seq<char>>) -> Set<
    Seq<char>,
> {
    Set::new(
        |w: Seq<char>|
            exists|h: Seq<char>, j: int|
                frontier.contains(h) && 0 <= j < fragments.len() && w == #[trigger] joined(
                    h,
                    fragments[j],
                ) && tree.reaches(encode(w)),
    )
}

/// The prefixes of `frontier` made longer by one fragment of `fragments`
/// each, as far as `ok` lets them stand.
pub open spec fn extend_by(
    ok: spec_fn(Seq<char>) -> bool,
    frontier: Set<Seq<char>>,
    fragments: Seq<Seq<char>>,
) -> Set<Seq<char>> {
    Set::new(
        |w: Seq<char>|
            exists|h: Seq<char>, j: int|
                frontier.contains(h) && 0 <= j < fragments.len() && w == #[trigger] joined(
                    h,
                    fragments[j],
                ) && ok(w),
    )
}

/// What `tree` reaches, as a predicate on strings.
pub open spec fn reach_of(tree: FstTree) -> spec_fn(Seq<char>) -> bool {
    |w: Seq<char>| tree.reaches(encode(w))
}

/// `frontier` together with what its prefixes become with one fragment
/// behind them.
pub open spec fn widen(tree: FstTree, frontier: Set<Seq<char>>, fragments: Seq<Seq<char>>) -> Set<
    Seq<char>,
> {
    frontier.union(extend(tree, frontier, fragments))
}

/// The prefixes of `frontier` that are keys of `tree`.
pub open spec fn complete(tree: FstTree, frontier: Set<Seq<char>>) -> Set<Seq<char>> {
    Set::new(|w: Seq<char>| frontier.contains(w) && tree.contains(encode(w)))
}

/// What the first `i` places have become with each fragment, and the place
/// at `i` with the first `j` fragments.
pub open spec fn extended_upto(
    ok: spec_fn(Seq<char>) -> bool,
    nodes: Seq<Seq<char>>,
    fragments: Seq<Seq<char>>,
    i: int,
    j: int,
    w: Seq<char>,
) -> bool {
    exists|a: int, b: int|
        0 <= a < nodes.len() && 0 <= b < fragments.len() && (a < i || (a == i && b < j)) && w
            == #[trigger] joined(nodes[a], fragments[b]) && ok(w)
}

/// What all places have become with each fragment is the extension of
/// their strings.
pub proof fn lemma_extended_all(
    ok: spec_fn(Seq<char>) -> bool,
    nodes: Seq<Seq<char>>,
    fragments: Seq<Seq<char>>,
    out: Set<Seq<char>>,
)
    requires
        forall|w: Seq<char>|
            out.contains(w) <==> extended_upto(ok, nodes, fragments, nodes.len() as int, 0, w),
    ensures
        out == extend_by(ok, nodes.to_set(), fragments),
{
    let target = extend_by(ok, nodes.to_set(), fragments);
    assert forall|w: Seq<char>| out.contains(w) <==> target.contains(w) by {
        if out.contains(w) {
            let (a, b) = choose|a: int, b: int|
                0 <= a < nodes.len() && 0 <= b < fragments.len() && (a < nodes.len() || (a
                    == nodes.len() && b < 0)) && w == #[trigger] joined(nodes[a], fragments[b])
                    && ok(w);
            assert(nodes.to_set().contains(nodes[a]));
            assert(w == joined(nodes[a], fragments[b]));
        }
        if target.contains(w) {
            let (h, j) = choose|h: Seq<char>, j: int|
                nodes.to_set().contains(h) && 0 <= j < fragments.len() && w == #[trigger] joined(
                    h,
                    fragments[j],
                ) && ok(w);
            let a = choose|a: int| 0 <= a < nodes.len() && nodes[a] == h;
            assert(w == joined(nodes[a], fragments[j]));
            assert(extended_upto(ok, nodes, fragments, nodes.len() as int, 0, w));
        }
    }
    assert(out =~= target);
}

/// A candidate that stands is added: the list then holds what the next
/// pair of place and fragment asks for.
pub proof fn lemma_step_found(
    ok: spec_fn(Seq<char>) -> bool,
    hs: Seq<Seq<char>>,
    es: Seq<Seq<char>>,
    i: int,
    j: int,
    before: Seq<Seq<char>>,
    after: Seq<Seq<char>>,
)
    requires
        0 <= i < hs.len(),
        0 <= j < es.len(),
        after == before.push(joined(hs[i], es[j])),
        ok(joined(hs[i], es[j])),
        forall|w: Seq<char>| before.to_set().contains(w) <==> extended_upto(ok, hs, es, i, j, w),
    ensures
        forall|w: Seq<char>|
            after.to_set().contains(w) <==> extended_upto(ok, hs, es, i, j + 1, w),
{
    assert forall|w: Seq<char>| after.to_set().contains(w) <==> extended_upto(
        ok,
        hs,
        es,
        i,
        j + 1,
        w,
    ) by {
        if after.contains(w) {
            let k = choose|k: int| 0 <= k < after.len() && after[k] == w;
            if k < before.len() {
                assert(before[k] == w);
                assert(before.to_set().contains(w));
                lemma_upto_grows(ok, hs, es, i, j, w);
            } else {
                assert(w == joined(hs[i], es[j]));
            }
        }
        if extended_upto(ok, hs, es, i, j + 1, w) {
            let (a, b) = choose|a: int, b: int|
                0 <= a < hs.len() && 0 <= b < es.len() && (a < i || (a == i && b < j + 1)) && w
                    == #[trigger] joined(hs[a], es[b]) && ok(w);
            if a == i && b == j {
                assert(after[before.len() as int] == w);
            } else {
                assert(w == joined(hs[a], es[b]));
                assert(extended_upto(ok, hs, es, i, j, w));
                assert(before.to_set().contains(w));
                let k = choose|k: int| 0 <= k < before.len() && before[k] == w;
                assert(after[k] == w);
            }
        }
    }
}

/// What one pair of place and fragment has given, the next keeps.
pub proof fn lemma_upto_grows(
    ok: spec_fn(Seq<char>) -> bool,
    hs: Seq<Seq<char>>,
    es: Seq<Seq<char>>,
    i: int,
    j: int,
    w: Seq<char>,
)
    requires
        extended_upto(ok, hs, es, i, j, w),
    ensures
        extended_upto(ok, hs, es, i, j + 1, w),
{
    let (a, b) = choose|a: int, b: int|
        0 <= a < hs.len() && 0 <= b < es.len() && (a < i || (a == i && b < j)) && w
            == #[trigger] joined(hs[a], es[b]) && ok(w);
    assert(w == joined(hs[a], es[b]));
}

/// A candidate that does not stand is left out: the list already holds
/// what the next pair of place and fragment asks for.
pub proof fn lemma_step_missed(
    ok: spec_fn(Seq<char>) -> bool,
    hs: Seq<Seq<char>>,
    es: Seq<Seq<char>>,
    i: int,
    j: int,
    before: Seq<Seq<char>>,
)
    requires
        0 <= i < hs.len(),
        0 <= j < es.len(),
        !ok(joined(hs[i], es[j])),
        forall|w: Seq<char>| before.to_set().contains(w) <==> extended_upto(ok, hs, es, i, j, w),
    ensures
        forall|w: Seq<char>|
            before.to_set().contains(w) <==> extended_upto(ok, hs, es, i, j + 1, w),
{
    assert forall|w: Seq<char>| before.to_set().contains(w) <==> extended_upto(
        ok,
        hs,
        es,
        i,
        j + 1,
        w,
    ) by {
        if before.to_set().contains(w) {
            lemma_upto_grows(ok, hs, es, i, j, w);
        }
        if extended_upto(ok, hs, es, i, j + 1, w) {
            let (a, b) = choose|a: int, b: int|
                0 <= a < hs.len() && 0 <= b < es.len() && (a < i || (a == i && b < j + 1)) && w
                    == #[trigger] joined(hs[a], es[b]) && ok(w);
            if a == i && b == j {
                assert(false);
            } else {
                assert(w == joined(hs[a], es[b]));
                assert(extended_upto(ok, hs, es, i, j, w));
            }
        }
    }
}

/// A place that has met every fragment is done.
pub proof fn lemma_row_done(ok: spec_fn(Seq<char>) -> bool, hs: Seq<Seq<char>>, es: Seq<Seq<char>>, i: int)
    ensures
        forall|w: Seq<char>|
            extended_upto(ok, hs, es, i, es.len() as int, w) <==> extended_upto(
                ok,
                hs,
                es,
                i + 1,
                0,
                w,
            ),
{
    assert forall|w: Seq<char>|
        extended_upto(ok, hs, es, i, es.len() as int, w) <==> extended_upto(
            ok,
            hs,
            es,
            i + 1,
            0,
            w,
        ) by {
        if extended_upto(ok, hs, es, i, es.len() as int, w) {
            let (a, b) = choose|a: int, b: int|
                0 <= a < hs.len() && 0 <= b < es.len() && (a < i || (a == i && b < es.len())) && w
                    == #[trigger] joined(hs[a], es[b]) && ok(w);
            assert(w == joined(hs[a], es[b]));
        }
        if extended_upto(ok, hs, es, i + 1, 0, w) {
            let (a, b) = choose|a: int, b: int|
                0 <= a < hs.len() && 0 <= b < es.len() && (a < i + 1 || (a == i + 1 && b < 0)) && w
                    == #[trigger] joined(hs[a], es[b]) && ok(w);
            assert(w == joined(hs[a], es[b]));
        }
    }
}

/// The places that the fragments lead to from the places of `nodes`: for
/// each place and each fragment the place behind both, where the index has
/// one.
pub(crate) fn extend_nodes<'a>(
    nodes: &Vec<FstNode<'a>>,
    fragments: &Vec<String>,
    Ghost(tree): Ghost<FstTree>,
) -> (out: Vec<FstNode<'a>>)
    requires
        all_in(nodes@, tree),
    ensures
        all_in(out@, tree),
        views(out@).to_set() == extend(tree, views(nodes@).to_set(), strings(fragments@)),
{
    let mut out: Vec<FstNode<'a>> = Vec::new();
    let ghost hs = views(nodes@);
    let ghost es = strings(fragments@);
    let ghost ok = reach_of(tree);
    let mut i: usize = 0;
    while i < nodes.len()
        invariant
            i <= nodes.len(),
            ok == reach_of(tree),
            hs == views(nodes@),
            es == strings(fragments@),
            all_in(nodes@, tree),
            all_in(out@, tree),
            forall|w: Seq<char>|
                views(out@).to_set().contains(w) <==> extended_upto(ok, hs, es, i as int, 0, w),
        decreases nodes.len() - i,
    {
        let mut j: usize = 0;
        while j < fragments.len()
            invariant
                i < nodes.len(),
                j <= fragments.len(),
                ok == reach_of(tree),
                hs == views(nodes@),
                es == strings(fragments@),
                all_in(nodes@, tree),
                all_in(out@, tree),
                forall|w: Seq<char>|
                    views(out@).to_set().contains(w) <==> extended_upto(
                        ok,
                        hs,
                        es,
                        i as int,
                        j as int,
                        w,
                    ),
            decreases fragments.len() - j,
        {
            let ghost before = views(out@);
            assert(nodes@[i as int].tree() == tree);
            match nodes[i].get_matching_node(fragments[j].as_str()) {
                Some(node) => {
                    out.push(node);
                    proof {
                        assert(views(out@) == before.push(joined(hs[i as int], es[j as int])));
                        lemma_step_found(ok, hs, es, i as int, j as int, before, views(out@));
                    }
                },
                None => {
                    proof {
                        lemma_step_missed(ok, hs, es, i as int, j as int, before);
                    }
                },
            }
            j = j + 1;
        }
        proof {
            lemma_row_done(ok, hs, es, i as int);
        }
        i = i + 1;
    }
    proof {
        lemma_extended_all(ok, hs, es, views(out@).to_set());
        assert(extend_by(ok, hs.to_set(), es) =~= extend(tree, hs.to_set(), es));
    }
    out
}

/// Each scalar as a fragment of its own.
pub open spec fn singles(chars: Seq<char>) -> Seq<Seq<char>> {
    Seq::new(chars.len(), |i: int| seq![chars[i]])
}

/// The places that one more scalar leads to from the places of `nodes`:
/// for each place and each scalar of `chars` the place behind it, where the
/// index has one.
pub(crate) fn extend_by_chars<'a>(
    nodes: &Vec<FstNode<'a>>,
    chars: &[char],
    Ghost(tree): Ghost<FstTree>,
) -> (out: Vec<FstNode<'a>>)
    requires
        all_in(nodes@, tree),
    ensures
        all_in(out@, tree),
        views(out@).to_set() == extend(tree, views(nodes@).to_set(), singles(chars@)),
{
    let mut out: Vec<FstNode<'a>> = Vec::new();
    let ghost hs = views(nodes@);
    let ghost es = singles(chars@);
    let ghost ok = reach_of(tree);
    let mut i: usize = 0;
    while i < nodes.len()
        invariant
            i <= nodes.len(),
            ok == reach_of(tree),
            hs == views(nodes@),
            es == singles(chars@),
            all_in(nodes@, tree),
            all_in(out@, tree),
            forall|w: Seq<char>|
                views(out@).to_set().contains(w) <==> extended_upto(ok, hs, es, i as int, 0, w),
        decreases nodes.len() - i,
    {
        let mut j: usize = 0;
        while j < chars.len()
            invariant
                i < nodes.len(),
                j <= chars.len(),
                ok == reach_of(tree),
                hs == views(nodes@),
                es == singles(chars@),
                all_in(nodes@, tree),
                all_in(out@, tree),
                forall|w: Seq<char>|
                    views(out@).to_set().contains(w) <==> extended_upto(
                        ok,
                        hs,
                        es,
                        i as int,
                        j as int,
                        w,
                    ),
            decreases chars.len() - j,
        {
            let ghost before = views(out@);
            assert(nodes@[i as int].tree() == tree);
            assert(hs[i as int].push(chars@[j as int]) == joined(hs[i as int], es[j as int]));
            match nodes[i].get_matching_node_by_char(chars[j]) {
                Some(node) => {
                    out.push(node);
                    proof {
                        assert(views(out@) == before.push(joined(hs[i as int], es[j as int])));
                        lemma_step_found(ok, hs, es, i as int, j as int, before, views(out@));
                    }
                },
                None => {
                    proof {
                        lemma_step_missed(ok, hs, es, i as int, j as int, before);
                    }
                },
            }
            j = j + 1;
        }
        proof {
            lemma_row_done(ok, hs, es, i as int);
        }
        i = i + 1;
    }
    proof {
        lemma_extended_all(ok, hs, es, views(out@).to_set());
        assert(extend_by(ok, hs.to_set(), es) =~= extend(tree, hs.to_set(), es));
    }
    out
}

/// The fragments that `tree` reaches from its root.
pub open spec fn seeds(tree: FstTree, fragments: Seq<Seq<char>>) -> Set<Seq<char>> {
    Set::new(
        |w: Seq<char>|
            exists|j: int|
                0 <= j < fragments.len() && w == #[trigger] fragments[j] && tree.reaches(encode(w)),
    )
}

/// The places that the fragments lead to from the root of `tree`, one for
/// each fragment that the index reaches.
pub(crate) fn seed_nodes<'a>(tree: &'a FstTree, fragments: &Vec<String>) -> (out: Vec<FstNode<'a>>)
    ensures
        all_in(out@, *tree),
        views(out@).to_set() == seeds(*tree, strings(fragments@)),
{
    let mut out: Vec<FstNode<'a>> = Vec::new();
    let ghost es = strings(fragments@);
    let mut j: usize = 0;
    while j < fragments.len()
        invariant
            j <= fragments.len(),
            es == strings(fragments@),
            all_in(out@, *tree),
            views(out@).to_set() == seeds(*tree, es.take(j as int)),
        decreases fragments.len() - j,
    {
        let ghost before = views(out@);
        let found = tree.matching_node(fragments[j].as_str());
        match found {
            Some(node) => {
                out.push(node);
                assert(views(out@) == before.push(es[j as int]));
            },
            None => {},
        }
        proof {
            let after = views(out@);
            let more = es.take(j + 1);
            assert(more.drop_last() == es.take(j as int));
            assert forall|w: Seq<char>| after.to_set().contains(w) <==> seeds(*tree, more).contains(
                w,
            ) by {
                if after.contains(w) {
                    let k = choose|k: int| 0 <= k < after.len() && after[k] == w;
                    if k < before.len() {
                        assert(before[k] == w);
                        assert(before.to_set().contains(w));
                        let b = choose|b: int|
                            0 <= b < es.take(j as int).len() && w == #[trigger] es.take(j as int)[b]
                                && tree.reaches(encode(w));
                        assert(w == more[b]);
                    } else {
                        assert(w == more[j as int]);
                    }
                }
                if seeds(*tree, more).contains(w) {
                    let b = choose|b: int|
                        0 <= b < more.len() && w == #[trigger] more[b] && tree.reaches(encode(w));
                    if b == j {
                        assert(after[before.len() as int] == w);
                    } else {
                        assert(w == es.take(j as int)[b]);
                        assert(before.to_set().contains(w));
                        let k = choose|k: int| 0 <= k < before.len() && before[k] == w;
                        assert(after[k] == w);
                    }
                }
            }
            assert(after.to_set() =~= seeds(*tree, more));
        }
        j = j + 1;
    }
    assert(es.take(fragments@.len() as int) == es);
    out
}

/// Whether `list` holds a string equal to `word`.
fn holds_string(list: &Vec<String>, word: &String) -> (r: bool)
    ensures
        r == strings(list@).contains(word@),
{
    let mut i: usize = 0;
    while i < list.len()
        invariant
            i <= list.len(),
            forall|k: int| 0 <= k < i ==> strings(list@)[k] != word@,
        decreases list.len() - i,
    {
        if list[i] == *word {
            assert(strings(list@)[i as int] == word@);
            return true;
        }
        i = i + 1;
    }
    false
}

/// The strings of the places that stand at a key of `tree`, each once.
pub(crate) fn collect_words<'a>(nodes: Vec<FstNode<'a>>, Ghost(tree): Ghost<FstTree>) -> (out: Vec<
    String,
>)
    requires
        all_in(nodes@, tree),
    ensures
        strings(out@).no_duplicates(),
        strings(out@).to_set() == complete(tree, views(nodes@).to_set()),
{
    let mut out: Vec<String> = Vec::new();
    let ghost hs = views(nodes@);
    let ghost all = nodes@;
    for node in it: nodes.into_iter()
        invariant
            it.seq() == all,
            hs == views(all),
            all_in(all, tree),
            strings(out@).no_duplicates(),
            strings(out@).to_set() == complete(tree, hs.take(it.index() as int).to_set()),
    {
        let ghost before = strings(out@);
        let ghost h = node@;
        assert(node == all[it.index() as int]);
        assert(h == hs[it.index() as int]);
        assert(node.tree() == tree);
        match node.get_word() {
            Some(word) => {
                if !holds_string(&out, &word) {
                    out.push(word);
                    assert(strings(out@) == before.push(h));
                }
            },
            None => {},
        }
        proof {
            let after = strings(out@);
            let done = hs.take(it.index() as int);
            let more = hs.take(it.index() + 1);
            assert(more.drop_last() == done);
            assert forall|w: Seq<char>| after.to_set().contains(w) <==> complete(
                tree,
                more.to_set(),
            ).contains(w) by {
                if after.contains(w) {
                    let k = choose|k: int| 0 <= k < after.len() && after[k] == w;
                    if k < before.len() {
                        assert(before[k] == w);
                        assert(before.to_set().contains(w));
                        let a = choose|a: int| 0 <= a < done.len() && done[a] == w;
                        assert(more[a] == w);
                    } else {
                        assert(more[it.index() as int] == w);
                    }
                }
                if complete(tree, more.to_set()).contains(w) {
                    let a = choose|a: int| 0 <= a < more.len() && more[a] == w;
                    if a == it.index() {
                        if before.contains(w) {
                            let k = choose|k: int| 0 <= k < before.len() && before[k] == w;
                            assert(after[k] == w);
                        } else {
                            assert(after[before.len() as int] == w);
                        }
                    } else {
                        assert(done[a] == w);
                        assert(done.to_set().contains(w));
                        assert(before.to_set().contains(w));
                        let k = choose|k: int| 0 <= k < before.len() && before[k] == w;
                        assert(after[k] == w);
                    }
                }
            }
            assert(after.to_set() =~= complete(tree, more.to_set()));
        }
    }
    assert(hs.take(all.len() as int) == hs);
    out
}

/// The strings of two lists of places, one behind the other, are the
/// strings of either.
pub proof fn lemma_views_append(a: Seq<FstNode<'_>>, b: Seq<FstNode<'_>>)
    ensures
        views(a + b).to_set() == views(a).to_set().union(views(b).to_set()),
        forall|tree: FstTree| all_in(a, tree) && all_in(b, tree) ==> all_in(a + b, tree),
{
    let ab = views(a + b);
    assert forall|w: Seq<char>| ab.to_set().contains(w) <==> views(a).to_set().union(
        views(b).to_set(),
    ).contains(w) by {
        if ab.contains(w) {
            let k = choose|k: int| 0 <= k < ab.len() && ab[k] == w;
            if k < a.len() {
                assert(views(a)[k] == w);
            } else {
                assert(views(b)[k - a.len()] == w);
            }
        }
        if views(a).contains(w) {
            let k = choose|k: int| 0 <= k < views(a).len() && views(a)[k] == w;
            assert(ab[k] == w);
        }
        if views(b).contains(w) {
            let k = choose|k: int| 0 <= k < views(b).len() && views(b)[k] == w;
            assert(ab[k + a.len()] == w);
        }
    }
    assert(ab.to_set() =~= views(a).to_set().union(views(b).to_set()));
}

} // verus!
