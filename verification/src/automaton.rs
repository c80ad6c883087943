use crate::order::{ascending, lex_le};
use fst::raw::{Builder, Fst, Node};
use vstd::prelude::*;

verus! {

/// `fst::raw::Fst`: an index, opaque here. What it holds is told by
/// `fst_root`, `fst_edges` and `fst_finals`.
#[verifier::external_type_specification]
#[verifier::external_body]
#[verifier::reject_recursive_types(D)]
pub struct ExFst<D>(Fst<D>);

/// `fst::raw::Node`: a decoded state of an index, opaque here.
#[verifier::external_type_specification]
#[verifier::external_body]
pub struct ExNode<'f>(Node<'f>);

/// `fst::raw::Builder`: what writes an index, key by key, opaque here.
#[verifier::external_type_specification]
#[verifier::external_body]
#[verifier::reject_recursive_types(W)]
pub struct ExBuilder<W>(Builder<W>);

/// `fst::Error`: why a key or a byte string was refused.
#[verifier::external_type_specification]
#[verifier::external_body]
pub struct ExError(fst::Error);

/// The address of the state at which every walk through an index starts.
pub uninterp spec fn fst_root(index: Fst<Vec<u8>>) -> usize;

/// The states of an index, by address: for each one its transitions in the
/// order in which the index numbers them, each a label and the address of
/// the state it leads to.
pub uninterp spec fn fst_edges(index: Fst<Vec<u8>>) -> Map<usize, Seq<(u8, usize)>>;

/// The addresses of the states of an index at which a key ends.
pub uninterp spec fn fst_finals(index: Fst<Vec<u8>>) -> Set<usize>;

/// Whether a value is the decoding of a state of its index, and not what
/// the decoder made of an address that is no state.
pub uninterp spec fn node_valid(node: Node<'_>) -> bool;

/// The transitions of a decoded state, as `fst_edges` lists them.
pub uninterp spec fn node_edges(node: Node<'_>) -> Seq<(u8, usize)>;

/// Whether a key ends at a decoded state.
pub uninterp spec fn node_final(node: Node<'_>) -> bool;

/// The keys that a builder has taken so far, in the order of their arrival.
pub uninterp spec fn builder_keys(builder: Builder<Vec<u8>>) -> Seq<Seq<u8>>;

/// The bytes that a builder writes out once it has taken exactly these keys.
pub uninterp spec fn fst_image(keys: Seq<Seq<u8>>) -> Seq<u8>;

/// A byte automaton as plain values: what an index holds.
pub struct Graph {
    pub root: usize,
    pub edges: Map<usize, Seq<(u8, usize)>>,
    pub finals: Set<usize>,
}

/// The automaton that an index holds.
pub open spec fn graph_of(index: Fst<Vec<u8>>) -> Graph {
    Graph { root: fst_root(index), edges: fst_edges(index), finals: fst_finals(index) }
}

/// `p` is what `key` begins with.
pub open spec fn begins(key: Seq<u8>, p: Seq<u8>) -> bool {
    p.len() <= key.len() && key.take(p.len() as int) == p
}

/// `p` is what one of `keys` begins with.
pub open spec fn begun(keys: Set<Seq<u8>>, p: Seq<u8>) -> bool {
    exists|key: Seq<u8>| keys.contains(key) && #[trigger] begins(key, p)
}

/// Where the transition labelled `b` leads, if one of `edges` has that label.
pub open spec fn target(edges: Seq<(u8, usize)>, b: u8) -> Option<usize> {
    if exists|i: int| 0 <= i < edges.len() && (#[trigger] edges[i]).0 == b {
        Some(edges[choose|i: int| 0 <= i < edges.len() && (#[trigger] edges[i]).0 == b].1)
    } else {
        None
    }
}

impl Graph {
    /// Every address that can be met is a state, and no state has two
    /// transitions with one label.
    pub open spec fn sound(self) -> bool {
        &&& self.edges.dom().contains(self.root)
        &&& forall|a: usize, i: int|
            self.edges.dom().contains(a) && 0 <= i < self.edges[a].len()
                ==> self.edges.dom().contains((#[trigger] self.edges[a][i]).1)
        &&& forall|a: usize, i: int, j: int|
            self.edges.dom().contains(a) && 0 <= i < j < self.edges[a].len()
                ==> (#[trigger] self.edges[a][i]).0 != (#[trigger] self.edges[a][j]).0
    }

    /// The state that the bytes of `key` lead to from the root, one
    /// transition per byte, if each byte has its transition.
    pub open spec fn walk(self, key: Seq<u8>) -> Option<usize>
        decreases key.len(),
    {
        if key.len() == 0 {
            Some(self.root)
        } else {
            match self.walk(key.drop_last()) {
                Some(a) => target(self.edges[a], key.last()),
                None => None,
            }
        }
    }

    /// `key` can be walked to its end: it is a prefix of the automaton.
    pub open spec fn reaches(self, key: Seq<u8>) -> bool {
        self.walk(key) is Some
    }

    /// `key` can be walked to its end, and ends at a final state.
    pub open spec fn accepts(self, key: Seq<u8>) -> bool {
        match self.walk(key) {
            Some(a) => self.finals.contains(a),
            None => false,
        }
    }

    /// `node` is the decoding of the state at `addr`.
    pub open spec fn decodes(self, node: Node<'_>, addr: usize) -> bool {
        &&& node_valid(node)
        &&& self.edges.dom().contains(addr)
        &&& node_edges(node) == self.edges[addr]
        &&& node_final(node) == self.finals.contains(addr)
    }

    /// `key` can be walked to its end, and `node` is the decoding of the
    /// state that it ends at.
    pub open spec fn stands(self, node: Node<'_>, key: Seq<u8>) -> bool {
        match self.walk(key) {
            Some(a) => self.decodes(node, a),
            None => false,
        }
    }

    /// The automaton is sound, its keys are exactly `keys`, and it has no
    /// state but on the way to a key: what it reaches is what a key begins
    /// with.
    pub open spec fn holds(self, keys: Seq<Seq<u8>>) -> bool {
        &&& self.sound()
        &&& forall|key: Seq<u8>| self.accepts(key) <==> keys.contains(key)
        &&& forall|p: Seq<u8>| p.len() > 0 && #[trigger] self.reaches(p) ==> begun(keys.to_set(), p)
    }
}

/// `fst::raw::Node::is_final`: whether a key ends at this state. Like the
/// two methods below it is stated of decoded states only: what the decoder
/// makes of an address that is no state may read out of bounds.
pub assume_specification<'f>[ Node::<'f>::is_final ](node: &Node<'f>) -> (r: bool)
    requires
        node_valid(*node),
    ensures
        r == node_final(*node),
;

/// `fst::raw::Node::find_input`: the number of a transition of this state
/// that is labelled `b`, or `None` where no transition has that label.
pub assume_specification<'f>[ Node::<'f>::find_input ](node: &Node<'f>, b: u8) -> (r: Option<
    usize,
>)
    requires
        node_valid(*node),
    ensures
        match r {
            Some(i) => i < node_edges(*node).len() && node_edges(*node)[i as int].0 == b,
            None => forall|j: int|
                0 <= j < node_edges(*node).len() ==> (#[trigger] node_edges(*node)[j]).0 != b,
        },
;

/// `fst::raw::Node::transition_addr`: the address that transition number
/// `i` of this state leads to. It panics where the state has no such
/// transition.
pub assume_specification<'f>[ Node::<'f>::transition_addr ](node: &Node<'f>, i: usize) -> (r:
    usize)
    requires
        node_valid(*node),
        i < node_edges(*node).len(),
    ensures
        r == node_edges(*node)[i as int].1,
;

/// `fst::raw::Fst::root`: the decoding of the state at the root address.
/// An index whose root address is no state may panic here.
#[verifier::external_body]
pub(crate) fn index_root<'f>(index: &'f Fst<Vec<u8>>) -> (r: Node<'f>)
    requires
        fst_edges(*index).dom().contains(fst_root(*index)),
    ensures
        node_valid(r),
        node_edges(r) == fst_edges(*index)[fst_root(*index)],
        node_final(r) == fst_finals(*index).contains(fst_root(*index)),
{
    index.root()
}

/// `fst::raw::Fst::node`: the decoding of the state at `addr`. An address
/// that is no state of the index may panic here.
#[verifier::external_body]
pub(crate) fn index_node<'f>(index: &'f Fst<Vec<u8>>, addr: usize) -> (r: Node<'f>)
    requires
        fst_edges(*index).dom().contains(addr),
    ensures
        node_valid(r),
        node_edges(r) == fst_edges(*index)[addr],
        node_final(r) == fst_finals(*index).contains(addr),
{
    index.node(addr)
}

/// `fst::raw::Fst::new`: reads an index from its bytes. Of bytes that a
/// builder wrote for an ascending list of keys it gives a sound index that
/// holds those keys and has no state but on the way to one of them: a
/// builder writes states for the keys it takes and for nothing else. Of
/// other bytes nothing is stated: it may refuse them, or give an index that
/// is not sound.
#[verifier::external_body]
pub(crate) fn index_from_bytes(data: Vec<u8>) -> (r: Result<Fst<Vec<u8>>, fst::Error>)
    ensures
        forall|keys: Seq<Seq<u8>>|
            ascending(keys) && data@ == #[trigger] fst_image(keys) ==> match r {
                Ok(index) => graph_of(index).holds(keys),
                Err(_) => false,
            },
{
    Fst::new(data)
}

/// `fst::raw::Builder::memory`: a builder that writes to memory and has
/// taken no key yet.
pub assume_specification[ Builder::<Vec<u8>>::memory ]() -> (r: Builder<Vec<u8>>)
    ensures
        builder_keys(r) == Seq::<Seq<u8>>::empty(),
;

/// `fst::raw::Builder::add`: takes `key` unless it is smaller than the key
/// taken last, which is an error and leaves the builder as it was. A key
/// equal to the last one is taken again, to no effect on what is written.
#[verifier::external_body]
pub(crate) fn builder_add(builder: &mut Builder<Vec<u8>>, key: &Vec<u8>) -> (r: Result<
    (),
    fst::Error,
>)
    ensures
        r is Ok <==> (builder_keys(*old(builder)).len() == 0 || lex_le(
            builder_keys(*old(builder)).last(),
            key@,
        )),
        r is Ok ==> builder_keys(*final(builder)) == builder_keys(*old(builder)).push(key@),
        r is Err ==> builder_keys(*final(builder)) == builder_keys(*old(builder)),
{
    builder.add(key)
}

/// `fst::raw::Builder::into_inner`: ends the construction and hands out the
/// bytes written, which are the image of the keys taken. Writing to memory
/// does not fail.
#[verifier::external_body]
pub(crate) fn builder_bytes(builder: Builder<Vec<u8>>) -> (r: Result<Vec<u8>, fst::Error>)
    ensures
        match r {
            Ok(data) => data@ == fst_image(builder_keys(builder)),
            Err(_) => false,
        },
{
    builder.into_inner()
}

} // verus!
