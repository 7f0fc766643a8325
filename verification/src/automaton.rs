//! The Aho-Corasick automaton: a trie over the pattern bytes, held as an
//! arena of nodes addressed by index, plus a movable cursor (the current
//! state).  Back-references (suffix and output links) are plain indices into
//! the arena; they are written once during the breadth-first build and are
//! read-only afterwards.
use std::rc::Rc;
use vstd::prelude::*;

verus! {

/// One trie node.  `children[b]` holds the arena index of the child reached
/// on byte `b` (the vector always has 256 entries).  `suffix_link` points to
/// the node for the longest proper suffix of this node's path that is itself
/// a trie path; the root is the unique node without one.  `output_link`
/// points to the nearest suffix node that is a dictionary word, when there is
/// one.
pub struct AcAutomatonNode {
    pub depth: usize,
    pub children: Vec<Option<usize>>,
    pub suffix_link: Option<usize>,
    pub output_link: Option<usize>,
    pub is_word: bool,
    pub replacement: Option<Vec<u8>>,
}

/// The mathematical model of a node: the same fields over `nat`/`int`/`Seq`.
#[verifier::ext_equal]
pub struct SpecNode {
    pub depth: nat,
    pub children: Seq<Option<int>>,
    pub suffix_link: Option<int>,
    pub output_link: Option<int>,
    pub is_word: bool,
    pub replacement: Option<Seq<u8>>,
}

impl View for AcAutomatonNode {
    type V = SpecNode;

    open spec fn view(&self) -> SpecNode {
        SpecNode {
            depth: self.depth as nat,
            children: self.children@.map_values(
                |c: Option<usize>|
                    match c {
                        Some(j) => Some(j as int),
                        None => None,
                    },
            ),
            suffix_link: match self.suffix_link {
                Some(j) => Some(j as int),
                None => None,
            },
            output_link: match self.output_link {
                Some(j) => Some(j as int),
                None => None,
            },
            is_word: self.is_word,
            replacement: match self.replacement {
                Some(ref v) => Some(v@),
                None => None,
            },
        }
    }
}

/// Holds the trie arena and the cursor (`state`): the index of the node the
/// automaton currently stands on.  Index 0 is always the root.
pub struct AcAutomaton {
    pub nodes: Rc<Vec<AcAutomatonNode>>,
    pub state: usize,
}

/// The model of an automaton: the node arena and the cursor position.
pub struct AcView {
    pub nodes: Seq<SpecNode>,
    pub state: int,
}

/// The model of a node arena: each node as its model.
pub open spec fn arena_view(ns: Seq<AcAutomatonNode>) -> Seq<SpecNode> {
    ns.map_values(|n: AcAutomatonNode| n@)
}

impl View for AcAutomaton {
    type V = AcView;

    open spec fn view(&self) -> AcView {
        AcView { nodes: arena_view(self.nodes@), state: self.state as int }
    }
}

/// Relies on `Rc::clone`: the returned handle is the same shared trie, not
/// a copy.
#[verifier::external_body]
fn rc_share(v: &Rc<Vec<AcAutomatonNode>>) -> (r: Rc<Vec<AcAutomatonNode>>)
    ensures
        r == *v,
{
    Rc::clone(v)
}

/// Relies on `Rc`'s `Deref`: reading through the handle reads the shared
/// trie it was built from.
#[verifier::external_body]
fn rc_nodes(v: &Rc<Vec<AcAutomatonNode>>) -> (r: &Vec<AcAutomatonNode>)
    ensures
        *r == **v,
{
    &**v
}

/// Trie-shape well-formedness of one node: a full child table, depth bounded
/// by the arena index (children are always created after their parent), and
/// every child a valid non-root index one level deeper.
pub open spec fn trie_node_ok(nodes: Seq<SpecNode>, i: int) -> bool {
    &&& nodes[i].children.len() == 256
    &&& nodes[i].depth <= i
    &&& forall|b: int|
        0 <= b < 256 && #[trigger] nodes[i].children[b] is Some ==> {
            let c = nodes[i].children[b]->0;
            &&& 0 < c < nodes.len()
            &&& nodes[c].depth == nodes[i].depth + 1
        }
}

/// Every node but the root hangs off some parent's child table.
pub open spec fn has_parent(nodes: Seq<SpecNode>, j: int) -> bool {
    exists|i: int, b: int|
        0 <= i < nodes.len() && 0 <= b < 256 && #[trigger] nodes[i].children[b] == Some(j)
}

/// The arena forms a trie rooted at index 0.  This holds from the moment the
/// root exists, throughout insertion, and after the link pass.
pub open spec fn trie_wf(nodes: Seq<SpecNode>) -> bool {
    &&& 1 <= nodes.len()
    &&& nodes[0].depth == 0
    &&& forall|i: int| 0 <= i < nodes.len() ==> #[trigger] trie_node_ok(nodes, i)
    &&& forall|j: int| 1 <= j < nodes.len() ==> #[trigger] has_parent(nodes, j)
}

/// Before the breadth-first pass no suffix or output link is set.
pub open spec fn links_unset(nodes: Seq<SpecNode>) -> bool {
    forall|i: int|
        0 <= i < nodes.len() ==> (#[trigger] nodes[i].suffix_link) is None && nodes[i].output_link
            is None
}

/// Well-formedness of one node of a fully built automaton: trie shape, the
/// root is exactly the node without a suffix link, the suffix link points
/// strictly up and lands on the longest proper suffix of the node's path
/// that is itself a trie path, the suffix chain covers every matching
/// suffix, and the output link is the nearest dictionary word on that
/// chain.
pub open spec fn node_ok(nodes: Seq<SpecNode>, i: int) -> bool {
    &&& trie_node_ok(nodes, i)
    &&& (i == 0 <==> nodes[i].suffix_link is None)
    &&& (nodes[i].suffix_link is Some ==> {
        let f = nodes[i].suffix_link->0;
        &&& 0 <= f < nodes.len()
        &&& nodes[f].depth < nodes[i].depth
        &&& suffix_longest_ok(nodes, i)
        &&& chain_complete(nodes, i)
    })
    &&& output_ok(nodes, i)
    &&& (nodes[i].output_link is Some ==> {
        let o = nodes[i].output_link->0;
        &&& 0 <= o < nodes.len()
        &&& nodes[o].is_word
        &&& nodes[o].depth < nodes[i].depth
    })
}

/// Every suffix link that is set points to a valid, strictly shallower
/// node; links still unset stop a chain.
pub open spec fn links_decrease(nodes: Seq<SpecNode>) -> bool {
    forall|j: int|
        0 <= j < nodes.len() && (#[trigger] nodes[j]).suffix_link is Some ==> 0 <= nodes[j].suffix_link->0
            < nodes.len() && nodes[nodes[j].suffix_link->0].depth < nodes[j].depth
}

/// `a` lies on the suffix-link chain starting at `j` (`j` itself
/// included).
pub open spec fn on_chain(nodes: Seq<SpecNode>, j: int, a: int) -> bool
    decreases nodes[j].depth,
        when links_decrease(nodes) && 0 <= j < nodes.len()
        via on_chain_decreases
{
    j == a || (nodes[j].suffix_link is Some && on_chain(nodes, nodes[j].suffix_link->0, a))
}

#[via_fn]
proof fn on_chain_decreases(nodes: Seq<SpecNode>, j: int, a: int) {
}

/// Chain members are valid nodes at most as deep as the chain's start.
proof fn lemma_chain_depth(nodes: Seq<SpecNode>, j: int, a: int)
    requires
        links_decrease(nodes),
        0 <= j < nodes.len(),
        on_chain(nodes, j, a),
    ensures
        0 <= a < nodes.len(),
        nodes[a].depth <= nodes[j].depth,
    decreases nodes[j].depth,
{
    if j != a {
        lemma_chain_depth(nodes, nodes[j].suffix_link->0, a);
    }
}

/// A chain member's own suffix link stays on the chain.
proof fn lemma_chain_step(nodes: Seq<SpecNode>, j: int, a: int)
    requires
        links_decrease(nodes),
        0 <= j < nodes.len(),
        on_chain(nodes, j, a),
        nodes[a].suffix_link is Some,
    ensures
        on_chain(nodes, j, nodes[a].suffix_link->0),
    decreases nodes[j].depth,
{
    lemma_chain_depth(nodes, j, a);
    if j == a {
        let f = nodes[j].suffix_link->0;
        assert(on_chain(nodes, f, f));
        assert(on_chain(nodes, j, f));
    } else {
        lemma_chain_step(nodes, nodes[j].suffix_link->0, a);
    }
}

/// A chain is untouched by changes to nodes deeper than its start.
proof fn lemma_chain_frame(pre: Seq<SpecNode>, post: Seq<SpecNode>, j: int, a: int)
    requires
        links_decrease(pre),
        links_decrease(post),
        pre.len() == post.len(),
        forall|x: int| 0 <= x < pre.len() ==> (#[trigger] post[x]).depth == pre[x].depth,
        forall|x: int|
            0 <= x < pre.len() && pre[x].depth <= pre[j].depth ==> (
            #[trigger] post[x]).suffix_link == pre[x].suffix_link,
        0 <= j < pre.len(),
        on_chain(pre, j, a),
    ensures
        on_chain(post, j, a),
    decreases pre[j].depth,
{
    if j != a {
        lemma_chain_frame(pre, post, pre[j].suffix_link->0, a);
    }
}

/// A walk that resolves with one more byte resolves without it too.
proof fn lemma_resolvable_prefix(nodes: Seq<SpecNode>, i: int, w: Seq<u8>, b: u8)
    requires
        0 <= i < nodes.len(),
        node_at(nodes, i, w.push(b)) is Some,
    ensures
        node_at(nodes, i, w) is Some,
{
    lemma_node_at_snoc(nodes, i, w, b);
}

/// Every trie path that is a proper suffix of a walk reaching `i` lands on
/// `i`'s suffix-link chain: the chain enumerates exactly the matching
/// suffixes.
#[verifier::opaque]
pub open spec fn chain_complete(nodes: Seq<SpecNode>, i: int) -> bool {
    forall|w: Seq<u8>, m: int|
        #[trigger] node_at(nodes, 0, w) == Some(i) && 1 <= m <= w.len() && (#[trigger] node_at(
            nodes,
            0,
            w.skip(m),
        )) is Some ==> nodes[i].suffix_link is Some && on_chain(
            nodes,
            nodes[i].suffix_link->0,
            node_at(nodes, 0, w.skip(m))->0,
        )
}

/// The output link of `i` is the nearest word on `i`'s suffix chain: the
/// deepest chain member that is a dictionary word, or absent when the
/// chain holds none.
#[verifier::opaque]
pub open spec fn output_ok(nodes: Seq<SpecNode>, i: int) -> bool {
    match nodes[i].output_link {
        Some(o) => {
            &&& nodes[i].suffix_link is Some
            &&& 0 <= o < nodes.len()
            &&& on_chain(nodes, nodes[i].suffix_link->0, o)
            &&& nodes[o].is_word
            &&& (forall|x: int|
                0 <= x < nodes.len() && #[trigger] on_chain(nodes, nodes[i].suffix_link->0, x)
                    && nodes[x].is_word ==> nodes[x].depth <= nodes[o].depth)
        },
        None => nodes[i].suffix_link is Some ==> forall|x: int|
            0 <= x < nodes.len() && #[trigger] on_chain(nodes, nodes[i].suffix_link->0, x)
                ==> !nodes[x].is_word,
    }
}

/// The suffix link of `i` lands on the node of the longest proper suffix
/// of `i`'s path that is itself a trie path: a shorter tail of every walk
/// reaching `i` reaches the link's target, and no longer proper tail is a
/// trie path at all.
#[verifier::opaque]
pub open spec fn suffix_longest_ok(nodes: Seq<SpecNode>, i: int) -> bool {
    forall|w: Seq<u8>|
        #[trigger] node_at(nodes, 0, w) == Some(i) ==> exists|m: int|
            1 <= m <= w.len() && node_at(nodes, 0, w.skip(m)) == Some(nodes[i].suffix_link->0)
                && (forall|m2: int| 1 <= m2 < m ==> node_at(nodes, 0, w.skip(m2)) is None)
}

/// Well-formedness of a fully built automaton's arena.
pub open spec fn wf_nodes(nodes: Seq<SpecNode>) -> bool {
    &&& 1 <= nodes.len()
    &&& nodes[0].depth == 0
    &&& forall|i: int| 0 <= i < nodes.len() ==> #[trigger] node_ok(nodes, i)
}

/// The node reached from `i` by walking the bytes of `w` through child
/// tables; `None` when the walk falls off the trie.
pub open spec fn node_at(nodes: Seq<SpecNode>, i: int, w: Seq<u8>) -> Option<int>
    decreases w.len(),
{
    if !(0 <= i < nodes.len()) {
        None
    } else if w.len() == 0 {
        Some(i)
    } else {
        match nodes[i].children[w[0] as int] {
            Some(c) => node_at(nodes, c, w.skip(1)),
            None => None,
        }
    }
}

/// No two edges share a target: every node is a child of at most one
/// (parent, byte) pair, so the arena is a proper tree and each node stands
/// for exactly one byte string.
pub open spec fn edges_unique(nodes: Seq<SpecNode>) -> bool {
    forall|i1: int, b1: int, i2: int, b2: int|
        0 <= i1 < nodes.len() && 0 <= b1 < 256 && 0 <= i2 < nodes.len() && 0 <= b2 < 256 && (
        #[trigger] nodes[i1].children[b1]) is Some && nodes[i1].children[b1] == (
        #[trigger] nodes[i2].children[b2]) ==> i1 == i2 && b1 == b2
}

/// A resolved walk lands on a valid arena index.
pub proof fn lemma_node_at_range(nodes: Seq<SpecNode>, i: int, w: Seq<u8>)
    requires
        node_at(nodes, i, w) is Some,
    ensures
        0 <= node_at(nodes, i, w)->0 < nodes.len(),
    decreases w.len(),
{
    if w.len() > 0 {
        match nodes[i].children[w[0] as int] {
            Some(c) => {
                lemma_node_at_range(nodes, c, w.skip(1));
            },
            None => {
            },
        }
    }
}

/// Walking `w` from `i` lands `w.len()` levels deeper.
pub proof fn lemma_node_at_depth(nodes: Seq<SpecNode>, i: int, w: Seq<u8>)
    requires
        forall|x: int| 0 <= x < nodes.len() ==> #[trigger] trie_node_ok(nodes, x),
        node_at(nodes, i, w) is Some,
    ensures
        ({
            let j = node_at(nodes, i, w)->0;
            &&& 0 <= j < nodes.len()
            &&& nodes[j].depth == nodes[i].depth + w.len()
        }),
    decreases w.len(),
{
    if w.len() > 0 {
        assert(trie_node_ok(nodes, i));
        let c = nodes[i].children[w[0] as int]->0;
        lemma_node_at_depth(nodes, c, w.skip(1));
    }
}

/// Walking one byte more walks to that byte's child of where the shorter
/// walk landed.
pub proof fn lemma_node_at_snoc(nodes: Seq<SpecNode>, i: int, w: Seq<u8>, b: u8)
    requires
        0 <= i < nodes.len(),
    ensures
        node_at(nodes, i, w.push(b)) == (match node_at(nodes, i, w) {
            Some(p) => (match nodes[p].children[b as int] {
                Some(c) => node_at(nodes, c, Seq::<u8>::empty()),
                None => None::<int>,
            }),
            None => None::<int>,
        }),
    decreases w.len(),
{
    let wb = w.push(b);
    if w.len() == 0 {
        assert(wb[0] == b);
        assert(wb.skip(1) =~= Seq::<u8>::empty());
    } else {
        assert(wb[0] == w[0]);
        assert(wb.skip(1) =~= w.skip(1).push(b));
        match nodes[i].children[w[0] as int] {
            Some(c) => {
                if 0 <= c < nodes.len() {
                    lemma_node_at_snoc(nodes, c, w.skip(1), b);
                } else {
                    assert(node_at(nodes, c, w.skip(1).push(b)) is None);
                }
            },
            None => {},
        }
    }
}

/// In a tree, a node is reached from the root by exactly one byte string.
pub proof fn lemma_path_unique(nodes: Seq<SpecNode>, w1: Seq<u8>, w2: Seq<u8>)
    requires
        trie_wf(nodes),
        edges_unique(nodes),
        node_at(nodes, 0, w1) is Some,
        node_at(nodes, 0, w1) == node_at(nodes, 0, w2),
    ensures
        w1 == w2,
    decreases w1.len(),
{
    lemma_node_at_depth(nodes, 0, w1);
    lemma_node_at_depth(nodes, 0, w2);
    let j = node_at(nodes, 0, w1)->0;
    assert(w1.len() == w2.len());
    if w1.len() == 0 {
        assert(w1 =~= w2);
    } else {
        let v1 = w1.drop_last();
        let v2 = w2.drop_last();
        assert(w1 =~= v1.push(w1.last()));
        assert(w2 =~= v2.push(w2.last()));
        lemma_node_at_snoc(nodes, 0, v1, w1.last());
        lemma_node_at_snoc(nodes, 0, v2, w2.last());
        let p1 = node_at(nodes, 0, v1)->0;
        let p2 = node_at(nodes, 0, v2)->0;
        lemma_node_at_depth(nodes, 0, v1);
        lemma_node_at_depth(nodes, 0, v2);
        assert(nodes[p1].children[w1.last() as int] == Some(j));
        assert(nodes[p2].children[w2.last() as int] == Some(j));
        assert(p1 == p2 && w1.last() == w2.last());
        lemma_path_unique(nodes, v1, v2);
        assert(w1 =~= w2);
    }
}

/// Arenas with the same shape resolve every walk alike.
pub proof fn lemma_node_at_same_shape(a: Seq<SpecNode>, b: Seq<SpecNode>, i: int, w: Seq<u8>)
    requires
        same_shape(a, b),
    ensures
        node_at(a, i, w) == node_at(b, i, w),
    decreases w.len(),
{
    if 0 <= i < a.len() && w.len() > 0 {
        assert(b[i].children == a[i].children);
        match a[i].children[w[0] as int] {
            Some(c) => {
                lemma_node_at_same_shape(a, b, c, w.skip(1));
            },
            None => {},
        }
    }
}

/// The `k`-th word of the construction input, as bytes.
pub open spec fn word_of(words: Seq<(Vec<u8>, Option<Vec<u8>>)>, k: int) -> Seq<u8> {
    words[k].0@
}

/// The `k`-th replacement of the construction input, as bytes.
pub open spec fn repl_of(words: Seq<(Vec<u8>, Option<Vec<u8>>)>, k: int) -> Option<Seq<u8>> {
    match words[k].1 {
        Some(v) => Some(v@),
        None => None,
    }
}

/// `w` occurs among the non-empty words of the construction input.
pub open spec fn contains_word(words: Seq<(Vec<u8>, Option<Vec<u8>>)>, w: Seq<u8>) -> bool {
    exists|k: int| 0 <= k < words.len() && #[trigger] word_of(words, k) == w && w.len() > 0
}

/// The replacement of the last input entry carrying word `w`: the one
/// that wins when a word is given more than once.
pub open spec fn last_replacement(words: Seq<(Vec<u8>, Option<Vec<u8>>)>, w: Seq<u8>) -> Option<
    Seq<u8>,
>
    decreases words.len(),
{
    if words.len() == 0 {
        None
    } else if word_of(words, words.len() - 1) == w {
        repl_of(words, words.len() - 1)
    } else {
        last_replacement(words.drop_last(), w)
    }
}

/// `w` can be walked in a trie that registered exactly `words`: it is
/// empty, or a prefix of one of the registered words.
pub open spec fn registered_prefix(words: Seq<(Vec<u8>, Option<Vec<u8>>)>, w: Seq<u8>) -> bool {
    w.len() == 0 || exists|k: int|
        0 <= k < words.len() && w.is_prefix_of(#[trigger] word_of(words, k))
}

/// A prefix of a prefix is a prefix.
proof fn lemma_prefix_extend(p: Seq<u8>, a: Seq<u8>, b: Seq<u8>)
    requires
        p.is_prefix_of(a),
        a.is_prefix_of(b),
    ensures
        p.is_prefix_of(b),
{
    assert(p =~= b.subrange(0, p.len() as int));
}

/// Linking one fresh leaf opens exactly one new walk: the parent's path
/// extended by the new byte.  Every other walk the new arena resolves was
/// already resolved before.
proof fn lemma_new_paths(
    pre: Seq<SpecNode>,
    post: Seq<SpecNode>,
    cur: int,
    b: int,
    pc: Seq<u8>,
    w: Seq<u8>,
)
    requires
        trie_wf(pre),
        edges_unique(pre),
        0 <= cur < pre.len(),
        0 <= b < 256,
        pre[cur].children[b] is None,
        post.len() == pre.len() + 1,
        forall|x: int| 0 <= x < 256 ==> (#[trigger] post[pre.len() as int].children[x]) is None,
        post[cur].children == pre[cur].children.update(b, Some(pre.len() as int)),
        forall|j: int| 0 <= j < pre.len() && j != cur ==> post[j] == pre[j],
        node_at(pre, 0, pc) == Some(cur),
        node_at(post, 0, w) is Some,
        node_at(pre, 0, w) is None,
    ensures
        w == pc.push(b as u8),
    decreases w.len(),
{
    let n = pre.len() as int;
    assert(trie_node_ok(pre, cur));
    assert forall|j: int, x: int|
        0 <= j < pre.len() && 0 <= x < 256 && (#[trigger] pre[j].children[x]) is Some implies
        post[j].children[x] == pre[j].children[x] by {
        if j == cur {
            assert(x != b);
        }
    }
    if w.len() == 0 {
        assert(node_at(pre, 0, w) == Some(0int));
        assert(false);
    } else {
        let v = w.drop_last();
        let lb = w.last();
        assert(w =~= v.push(lb));
        lemma_node_at_snoc(post, 0, v, lb);
        assert(node_at(post, 0, v) is Some);
        lemma_node_at_snoc(pre, 0, v, lb);
        if node_at(pre, 0, v) is Some {
            let p0 = node_at(pre, 0, v)->0;
            lemma_node_at_preserved(pre, post, 0, v);
            lemma_node_at_depth(pre, 0, v);
            assert(trie_node_ok(pre, p0));
            if p0 == cur && lb as int == b {
                lemma_path_unique(pre, v, pc);
                assert(b as u8 == lb);
                assert(w =~= pc.push(b as u8));
            } else {
                if p0 == cur {
                    assert(post[p0].children[lb as int] == pre[p0].children[lb as int]);
                } else {
                    assert(post[p0] == pre[p0]);
                }
                assert(node_at(pre, 0, w) is Some);
                assert(false);
            }
        } else {
            lemma_new_paths(pre, post, cur, b, pc, v);
            lemma_node_at_preserved(pre, post, 0, pc);
            lemma_node_at_snoc(post, 0, pc, b as u8);
            assert(b as u8 as int == b);
            assert(post[cur].children[b] == Some(n));
            assert(node_at(post, 0, v) == Some(n));
            assert(post[n].children[lb as int] is None);
            assert(false);
        }
    }
}

/// The state reached from `i` on byte `b`: the child when there is one,
/// otherwise the result of retrying from the suffix link; the root absorbs
/// bytes for which it has no child.
pub open spec fn spec_next(nodes: Seq<SpecNode>, i: int, b: u8) -> int
    decreases nodes[i].depth,
        when wf_nodes(nodes) && 0 <= i < nodes.len()
        via spec_next_decreases
{
    if nodes[i].children[b as int] is Some {
        nodes[i].children[b as int]->0
    } else if nodes[i].suffix_link is Some {
        spec_next(nodes, nodes[i].suffix_link->0, b)
    } else {
        i
    }
}

#[via_fn]
proof fn spec_next_decreases(nodes: Seq<SpecNode>, i: int, b: u8) {
    assert(node_ok(nodes, i));
}

/// Where `spec_next` lands: a valid index, at most one level deeper than the
/// start, and at the root exactly when the landing node has no suffix link.
pub proof fn lemma_spec_next(nodes: Seq<SpecNode>, i: int, b: u8)
    requires
        wf_nodes(nodes),
        0 <= i < nodes.len(),
    ensures
        ({
            let r = spec_next(nodes, i, b);
            &&& 0 <= r < nodes.len()
            &&& nodes[r].depth <= nodes[i].depth + 1
            &&& (r == 0 || nodes[r].depth >= 1)
            &&& (r == 0 <==> nodes[r].suffix_link is None)
            &&& nodes[r].children.len() == 256
        }),
    decreases nodes[i].depth,
{
    assert(node_ok(nodes, i));
    if nodes[i].children[b as int] is Some {
        let c = nodes[i].children[b as int]->0;
        assert(node_ok(nodes, c));
    } else if nodes[i].suffix_link is Some {
        let f = nodes[i].suffix_link->0;
        assert(node_ok(nodes, f));
        lemma_spec_next(nodes, f, b);
    } else {
        assert(node_ok(nodes, 0));
    }
}

/// A well-formed arena is in particular trie-shaped at every node.
pub proof fn lemma_wf_trie_nodes(nodes: Seq<SpecNode>)
    requires
        wf_nodes(nodes),
    ensures
        forall|x: int| 0 <= x < nodes.len() ==> #[trigger] trie_node_ok(nodes, x),
{
    assert forall|x: int| 0 <= x < nodes.len() implies #[trigger] trie_node_ok(nodes, x) by {
        assert(node_ok(nodes, x));
    }
}

/// Law (goto/failure composition): from the node of path `w`, one byte
/// `b` moves the cursor to the node of the longest suffix of `w ++ [b]`
/// that is itself a trie path — the root when only the empty suffix is.
pub proof fn lemma_next_state_path(nodes: Seq<SpecNode>, w: Seq<u8>, i: int, b: u8)
    requires
        wf_nodes(nodes),
        node_at(nodes, 0, w) == Some(i),
    ensures
        exists|m: int|
            0 <= m <= w.len() + 1 && node_at(nodes, 0, w.push(b).skip(m)) == Some(
                spec_next(nodes, i, b),
            ) && (forall|m2: int|
                0 <= m2 < m ==> node_at(nodes, 0, w.push(b).skip(m2)) is None),
    decreases nodes[i].depth,
{
    lemma_node_at_range(nodes, 0, w);
    assert(node_ok(nodes, i));
    lemma_wf_trie_nodes(nodes);
    let r = spec_next(nodes, i, b);
    if nodes[i].children[b as int] is Some {
        lemma_node_at_snoc(nodes, 0, w, b);
        assert(w.push(b).skip(0) =~= w.push(b));
        assert(node_at(nodes, 0, w.push(b).skip(0)) == Some(r));
        assert(0 <= 0 <= w.len() + 1 && node_at(nodes, 0, w.push(b).skip(0)) == Some(r) && (
        forall|m2: int| 0 <= m2 < 0 ==> node_at(nodes, 0, w.push(b).skip(m2)) is None));
    } else if nodes[i].suffix_link is Some {
        let f = nodes[i].suffix_link->0;
        reveal(suffix_longest_ok);
        assert(suffix_longest_ok(nodes, i));
        let m1 = choose|m1: int|
            1 <= m1 <= w.len() && node_at(nodes, 0, w.skip(m1)) == Some(f) && (forall|m2: int|
                1 <= m2 < m1 ==> node_at(nodes, 0, w.skip(m2)) is None);
        lemma_next_state_path(nodes, w.skip(m1), f, b);
        let mr = choose|mr: int|
            0 <= mr <= w.skip(m1).len() + 1 && node_at(
                nodes,
                0,
                w.skip(m1).push(b).skip(mr),
            ) == Some(spec_next(nodes, f, b)) && (forall|m2: int|
                0 <= m2 < mr ==> node_at(nodes, 0, w.skip(m1).push(b).skip(m2)) is None);
        let m = m1 + mr;
        assert(w.skip(m1).push(b) =~= w.push(b).skip(m1));
        assert(w.skip(m1).push(b).skip(mr) =~= w.push(b).skip(m));
        assert(node_at(nodes, 0, w.push(b).skip(m)) == Some(r));
        assert forall|m2: int|
            0 <= m2 < m implies node_at(nodes, 0, w.push(b).skip(m2)) is None by {
            if m2 == 0 {
                lemma_node_at_snoc(nodes, 0, w, b);
                assert(w.push(b).skip(0) =~= w.push(b));
            } else if m2 < m1 {
                assert(node_at(nodes, 0, w.skip(m2)) is None);
                lemma_node_at_snoc(nodes, 0, w.skip(m2), b);
                assert(w.skip(m2).push(b) =~= w.push(b).skip(m2));
            } else {
                assert(node_at(nodes, 0, w.skip(m1).push(b).skip(m2 - m1)) is None);
                assert(w.skip(m1).push(b).skip(m2 - m1) =~= w.push(b).skip(m2));
            }
        }
        assert(0 <= m <= w.len() + 1 && node_at(nodes, 0, w.push(b).skip(m)) == Some(r) && (
        forall|m2: int| 0 <= m2 < m ==> node_at(nodes, 0, w.push(b).skip(m2)) is None));
    } else {
        assert(i == 0);
        lemma_node_at_depth(nodes, 0, w);
        assert(w.len() == 0);
        assert(r == 0);
        assert(w.push(b).skip(1) =~= Seq::<u8>::empty());
        assert(node_at(nodes, 0, w.push(b).skip(1)) == Some(0int));
        assert forall|m2: int|
            0 <= m2 < 1 implies node_at(nodes, 0, w.push(b).skip(m2)) is None by {
            lemma_node_at_snoc(nodes, 0, w, b);
            assert(w.push(b).skip(0) =~= w.push(b));
        }
        assert(0 <= 1 <= w.len() + 1 && node_at(nodes, 0, w.push(b).skip(1)) == Some(r) && (
        forall|m2: int| 0 <= m2 < 1 ==> node_at(nodes, 0, w.push(b).skip(m2)) is None));
    }
}

impl AcAutomaton {
    /// Builds the automaton: inserts every word into the trie, then runs
    /// the breadth-first pass that fixes every suffix and output link.
    /// Empty words are skipped: no traversal could ever match one.  When a
    /// word occurs twice, the last entry decides its replacement.
    pub fn new(words: Vec<(Vec<u8>, Option<Vec<u8>>)>) -> (r: Self)
        ensures
            r.wf(),
            r@.state == 0,
            edges_unique(r@.nodes),
            forall|w: Seq<u8>|
                (#[trigger] node_at(r@.nodes, 0, w)) is Some <==> registered_prefix(words@, w),
            forall|w: Seq<u8>|
                #[trigger] contains_word(words@, w) ==> {
                    let tgt = node_at(r@.nodes, 0, w);
                    &&& tgt is Some
                    &&& r@.nodes[tgt->0].is_word
                    &&& r@.nodes[tgt->0].replacement == last_replacement(words@, w)
                },
            forall|j: int|
                0 <= j < r@.nodes.len() && (#[trigger] r@.nodes[j]).is_word ==> exists|w: Seq<u8>|
                    contains_word(words@, w) && node_at(r@.nodes, 0, w) == Some(j),
    {
        let ch = fresh_children();
        let ghost chv = ch@;
        let root = AcAutomatonNode {
            depth: 0,
            children: ch,
            suffix_link: None,
            output_link: None,
            is_word: false,
            replacement: None,
        };
        let mut built: Vec<AcAutomatonNode> = Vec::new();
        built.push(root);
        proof {
            let nv = arena_view(built@);
            assert(nv.len() == 1);
            assert(nv[0].children.len() == 256);
            assert forall|x: int| 0 <= x < 256 implies !((#[trigger] nv[0].children[x]) is Some) by {
                assert(chv[x] is None);
            }
            assert(trie_node_ok(nv, 0));
            assert(trie_wf(nv));
            assert(links_unset(nv));
            assert forall|w: Seq<u8>|
                (#[trigger] node_at(nv, 0, w)) is Some <==> registered_prefix(
                words@.take(0),
                w,
            ) by {
                if w.len() == 0 {
                    assert(node_at(nv, 0, w) == Some(0int));
                    assert(registered_prefix(words@.take(0), w));
                } else {
                    assert(!(nv[0].children[w[0] as int] is Some));
                    assert(!(node_at(nv, 0, w) is Some));
                    assert(!registered_prefix(words@.take(0), w));
                }
            }
            assert(edges_unique(nv)) by {
                assert forall|i1: int, b1: int, i2: int, b2: int|
                    0 <= i1 < nv.len() && 0 <= b1 < 256 && 0 <= i2 < nv.len() && 0 <= b2 < 256
                        && (#[trigger] nv[i1].children[b1]) is Some && nv[i1].children[b1] == (
                    #[trigger] nv[i2].children[b2]) implies i1 == i2 && b1 == b2 by {
                    assert(!(nv[0].children[b1] is Some));
                }
            }
        }
        let mut k: usize = 0;
        while k < words.len()
            invariant
                trie_wf(arena_view(built@)),
                links_unset(arena_view(built@)),
                edges_unique(arena_view(built@)),
                k <= words@.len(),
                forall|w: Seq<u8>|
                    #[trigger] contains_word(words@.take(k as int), w) ==> {
                        let tgt = node_at(arena_view(built@), 0, w);
                        &&& tgt is Some
                        &&& arena_view(built@)[tgt->0].is_word
                        &&& arena_view(built@)[tgt->0].replacement == last_replacement(
                            words@.take(k as int),
                            w,
                        )
                    },
                forall|j: int|
                    0 <= j < arena_view(built@).len() && (#[trigger] arena_view(built@)[j]).is_word ==> exists|
                        w: Seq<u8>,
                    |
                        contains_word(words@.take(k as int), w) && node_at(arena_view(built@), 0, w)
                            == Some(j),
                forall|w: Seq<u8>|
                    (#[trigger] node_at(arena_view(built@), 0, w)) is Some <==> registered_prefix(
                        words@.take(k as int),
                        w,
                    ),
            decreases words@.len() - k,
        {
            let ghost wsk = words@.take(k as int);
            let ghost wsk1 = words@.take(k as int + 1);
            proof {
                assert(wsk1.drop_last() =~= wsk);
                assert(wsk1[k as int] == words@[k as int]);
            }
            let pair = &words[k];
            if pair.0.len() > 0 {
                let ghost pre = arena_view(built@);
                let ghost wk = words@[k as int].0@;
                let rep = clone_opt_bytes(&pair.1);
                add_word(&mut built, &pair.0, rep);
                proof {
                    let post = arena_view(built@);
                    let tgt = node_at(post, 0, wk);
                    assert(word_of(wsk1, k as int) == wk);
                    assert(contains_word(wsk1, wk));
                    assert(post[tgt->0].replacement == repl_of(words@, k as int));
                    assert(repl_of(wsk1, k as int) == repl_of(words@, k as int));
                    assert forall|w: Seq<u8>| #[trigger] contains_word(wsk1, w) implies {
                        let t2 = node_at(post, 0, w);
                        &&& t2 is Some
                        &&& post[t2->0].is_word
                        &&& post[t2->0].replacement == last_replacement(wsk1, w)
                    } by {
                        if w == wk {
                            assert(last_replacement(wsk1, wk) == repl_of(wsk1, k as int));
                        } else {
                            let k0 = choose|k0: int|
                                0 <= k0 < wsk1.len() && #[trigger] word_of(wsk1, k0) == w
                                    && w.len() > 0;
                            assert(k0 != k);
                            assert(word_of(wsk, k0) == w);
                            assert(contains_word(wsk, w));
                            let j = node_at(pre, 0, w)->0;
                            lemma_node_at_depth(pre, 0, w);
                            assert(node_at(post, 0, w) == Some(j));
                            if Some(j) == tgt {
                                lemma_path_unique(post, w, wk);
                                assert(false);
                            }
                            assert(pre.len() <= post.len());
                            assert(post[j].is_word == pre[j].is_word);
                            assert(post[j].replacement == pre[j].replacement);
                            assert(last_replacement(wsk1, w) == last_replacement(wsk, w));
                        }
                    }
                    assert forall|j: int|
                        0 <= j < post.len() && (#[trigger] post[j]).is_word implies exists|
                        w: Seq<u8>,
                    |
                        contains_word(wsk1, w) && node_at(post, 0, w) == Some(j) by {
                        if Some(j) == tgt {
                            assert(contains_word(wsk1, wk) && node_at(post, 0, wk) == Some(j));
                        } else {
                            assert(j < pre.len() && pre[j].is_word);
                            let w0 = choose|w0: Seq<u8>|
                                contains_word(wsk, w0) && node_at(pre, 0, w0) == Some(j);
                            let k0 = choose|k0: int|
                                0 <= k0 < wsk.len() && #[trigger] word_of(wsk, k0) == w0
                                    && w0.len() > 0;
                            assert(word_of(wsk1, k0) == w0);
                            assert(contains_word(wsk1, w0));
                            assert(node_at(post, 0, w0) == Some(j));
                        }
                    }
                    assert forall|w: Seq<u8>|
                        (#[trigger] node_at(post, 0, w)) is Some <==> registered_prefix(
                        wsk1,
                        w,
                    ) by {
                        if node_at(post, 0, w) is Some && w.len() > 0 {
                            if node_at(pre, 0, w) is Some {
                                assert(registered_prefix(wsk, w));
                                let k0 = choose|k0: int|
                                    0 <= k0 < wsk.len() && w.is_prefix_of(
                                        #[trigger] word_of(wsk, k0),
                                    );
                                assert(word_of(wsk1, k0) == word_of(wsk, k0));
                                assert(registered_prefix(wsk1, w));
                            } else {
                                assert(w.is_prefix_of(wk));
                                assert(word_of(wsk1, k as int) == wk);
                                assert(registered_prefix(wsk1, w));
                            }
                        }
                        if registered_prefix(wsk1, w) {
                            if w.len() == 0 {
                                assert(node_at(post, 0, w) == Some(0int));
                            } else {
                                let k0 = choose|k0: int|
                                    0 <= k0 < wsk1.len() && w.is_prefix_of(
                                        #[trigger] word_of(wsk1, k0),
                                    );
                                if k0 == k as int {
                                    assert(w.is_prefix_of(wk));
                                    assert(node_at(post, 0, w) is Some);
                                } else {
                                    assert(word_of(wsk, k0) == word_of(wsk1, k0));
                                    assert(registered_prefix(wsk, w));
                                    assert(node_at(pre, 0, w) is Some);
                                    assert(node_at(post, 0, w) == node_at(pre, 0, w));
                                }
                            }
                        }
                        if w.len() == 0 {
                            assert(node_at(post, 0, w) == Some(0int));
                            assert(registered_prefix(wsk1, w));
                        }
                    }
                }
            } else {
                proof {
                    assert(words@[k as int].0@.len() == 0);
                    assert forall|w: Seq<u8>| #[trigger] contains_word(wsk1, w) implies {
                        let t2 = node_at(arena_view(built@), 0, w);
                        &&& t2 is Some
                        &&& arena_view(built@)[t2->0].is_word
                        &&& arena_view(built@)[t2->0].replacement == last_replacement(wsk1, w)
                    } by {
                        let k0 = choose|k0: int|
                            0 <= k0 < wsk1.len() && #[trigger] word_of(wsk1, k0) == w && w.len()
                                > 0;
                        assert(k0 != k);
                        assert(word_of(wsk, k0) == w);
                        assert(contains_word(wsk, w));
                        assert(last_replacement(wsk1, w) == last_replacement(wsk, w));
                    }
                    assert forall|j: int|
                        0 <= j < arena_view(built@).len() && (#[trigger] arena_view(built@)[j]).is_word implies
                        exists|w: Seq<u8>|
                            contains_word(wsk1, w) && node_at(arena_view(built@), 0, w) == Some(j) by {
                        let w0 = choose|w0: Seq<u8>|
                            contains_word(wsk, w0) && node_at(arena_view(built@), 0, w0) == Some(j);
                        let k0 = choose|k0: int|
                            0 <= k0 < wsk.len() && #[trigger] word_of(wsk, k0) == w0 && w0.len()
                                > 0;
                        assert(word_of(wsk1, k0) == w0);
                        assert(contains_word(wsk1, w0));
                    }
                    assert forall|w: Seq<u8>|
                        (#[trigger] node_at(arena_view(built@), 0, w)) is Some
                            <==> registered_prefix(wsk1, w) by {
                        if node_at(arena_view(built@), 0, w) is Some && w.len() > 0 {
                            assert(registered_prefix(wsk, w));
                            let k0 = choose|k0: int|
                                0 <= k0 < wsk.len() && w.is_prefix_of(
                                    #[trigger] word_of(wsk, k0),
                                );
                            assert(word_of(wsk1, k0) == word_of(wsk, k0));
                            assert(registered_prefix(wsk1, w));
                        }
                        if registered_prefix(wsk1, w) && w.len() > 0 {
                            let k0 = choose|k0: int|
                                0 <= k0 < wsk1.len() && w.is_prefix_of(
                                    #[trigger] word_of(wsk1, k0),
                                );
                            if k0 == k as int {
                                assert(word_of(wsk1, k0).len() == 0);
                                assert(false);
                            }
                            assert(word_of(wsk, k0) == word_of(wsk1, k0));
                            assert(registered_prefix(wsk, w));
                            assert(node_at(arena_view(built@), 0, w) is Some);
                        }
                        if w.len() == 0 {
                            assert(node_at(arena_view(built@), 0, w) == Some(0int));
                            assert(registered_prefix(wsk1, w));
                        }
                    }
                }
            }
            k += 1;
        }
        proof {
            assert(words@.take(words@.len() as int) =~= words@);
            if arena_view(built@)[0].is_word {
                let w0 = choose|w0: Seq<u8>|
                    contains_word(words@, w0) && node_at(arena_view(built@), 0, w0) == Some(
                        0int,
                    );
                let k0 = choose|k0: int|
                    0 <= k0 < words@.len() && #[trigger] word_of(words@, k0) == w0 && w0.len()
                        > 0;
                lemma_node_at_depth(arena_view(built@), 0, w0);
                assert(false);
            }
        }
        let ghost before_links = arena_view(built@);
        breadth_first_walk(&mut built);
        proof {
            let post = arena_view(built@);
            assert forall|w: Seq<u8>| #[trigger] contains_word(words@, w) implies {
                let tgt = node_at(post, 0, w);
                &&& tgt is Some
                &&& post[tgt->0].is_word
                &&& post[tgt->0].replacement == last_replacement(words@, w)
            } by {
                lemma_node_at_same_shape(before_links, post, 0, w);
                lemma_node_at_depth(before_links, 0, w);
                let j = node_at(before_links, 0, w)->0;
                assert(post[j].is_word == before_links[j].is_word);
                assert(post[j].replacement == before_links[j].replacement);
            }
            assert forall|j: int|
                0 <= j < post.len() && (#[trigger] post[j]).is_word implies exists|w: Seq<u8>|
                contains_word(words@, w) && node_at(post, 0, w) == Some(j) by {
                assert(before_links[j].is_word);
                let w0 = choose|w0: Seq<u8>|
                    contains_word(words@, w0) && node_at(before_links, 0, w0) == Some(j);
                lemma_node_at_same_shape(before_links, post, 0, w0);
            }
            assert(words@.take(words@.len() as int) =~= words@);
            assert forall|w: Seq<u8>|
                (#[trigger] node_at(post, 0, w)) is Some <==> registered_prefix(words@, w) by {
                lemma_node_at_same_shape(before_links, post, 0, w);
            }
            lemma_edges_unique_same_shape(before_links, post);
        }
        let ghost final_arena = arena_view(built@);
        let frozen = AcAutomaton { nodes: Rc::new(built), state: 0 };
        proof {
            assert(frozen@.nodes == final_arena);
        }
        frozen
    }

    /// A valid automaton: a well-formed arena and a cursor inside it.
    pub open spec fn wf(&self) -> bool {
        &&& wf_nodes(self@.nodes)
        &&& 0 <= self@.state < self@.nodes.len()
    }

    /// The node the cursor stands on, as its model.
    pub open spec fn cur_node(&self) -> SpecNode {
        self@.nodes[self@.state]
    }

    /// Walks suffix links from `from` until a node with a child for `byte`
    /// is found, landing on that child, or stays at the root.
    fn find_next_state(&self, from: usize, byte: u8) -> (r: usize)
        requires
            wf_nodes(self@.nodes),
            from < self@.nodes.len(),
        ensures
            r < self@.nodes.len(),
            r as int == spec_next(self@.nodes, from as int, byte),
    {
        let ns = rc_nodes(&self.nodes);
        let mut cur: usize = from;
        loop
            invariant
                wf_nodes(self@.nodes),
                ns@ == self.nodes@,
                cur < self@.nodes.len(),
                spec_next(self@.nodes, cur as int, byte) == spec_next(
                    self@.nodes,
                    from as int,
                    byte,
                ),
            decreases self@.nodes[cur as int].depth,
        {
            proof {
                assert(node_ok(self@.nodes, cur as int));
                assert(self@.nodes[cur as int].children[byte as int] == ns@[
                    cur as int]@.children[byte as int]);
            }
            match ns[cur].children[byte as usize] {
                Some(c) => {
                    proof {
                        lemma_spec_next(self@.nodes, cur as int, byte);
                    }
                    return c;
                },
                None => {
                    match ns[cur].suffix_link {
                        Some(f) => {
                            cur = f;
                        },
                        None => {
                            return cur;
                        },
                    }
                },
            }
        }
    }

    /// Advances the cursor by one byte.
    pub fn next_state(&mut self, byte: &u8)
        requires
            old(self).wf(),
        ensures
            final(self).wf(),
            final(self)@.nodes == old(self)@.nodes,
            final(self)@.state == spec_next(old(self)@.nodes, old(self)@.state, *byte),
    {
        proof {
            lemma_spec_next(self@.nodes, self@.state, *byte);
        }
        let next = self.find_next_state(self.state, *byte);
        self.state = next;
    }

    /// True exactly when the cursor stands on the root (the unique node
    /// without a suffix link).
    pub fn is_state_root(&self) -> (r: bool)
        requires
            self.wf(),
        ensures
            r == (self@.state == 0),
    {
        proof {
            assert(node_ok(self@.nodes, self@.state));
        }
        rc_nodes(&self.nodes)[self.state].suffix_link.is_none()
    }

    /// True when the cursor stands on a dictionary word.
    pub fn is_state_word(&self) -> (r: bool)
        requires
            self.wf(),
        ensures
            r == self.cur_node().is_word,
    {
        rc_nodes(&self.nodes)[self.state].is_word
    }

    /// Moves the cursor back to the root.
    pub fn reset_state(&mut self)
        requires
            old(self).wf(),
        ensures
            final(self).wf(),
            final(self)@.nodes == old(self)@.nodes,
            final(self)@.state == 0,
    {
        self.state = 0;
    }

    /// The trie depth of the node the cursor stands on (the number of bytes
    /// matched so far along the current candidate).
    pub fn state_depth(&self) -> (r: usize)
        requires
            self.wf(),
        ensures
            r == self.cur_node().depth,
    {
        rc_nodes(&self.nodes)[self.state].depth
    }

    /// The replacement stored at the cursor's node, when there is one.
    pub fn state_replacement(&self) -> (r: Option<Vec<u8>>)
        requires
            self.wf(),
        ensures
            match r {
                Some(v) => self.cur_node().replacement == Some(v@),
                None => self.cur_node().replacement is None,
            },
    {
        match &rc_nodes(&self.nodes)[self.state].replacement {
            Some(v) => Some(clone_bytes(v)),
            None => None,
        }
    }
}

/// Both arenas have the same trie shape: length, depths, child tables and
/// word marks agree; only the suffix and output links may differ.
pub open spec fn same_shape(a: Seq<SpecNode>, b: Seq<SpecNode>) -> bool {
    &&& a.len() == b.len()
    &&& forall|i: int|
        0 <= i < a.len() ==> {
            &&& (#[trigger] b[i]).depth == a[i].depth
            &&& b[i].children == a[i].children
            &&& b[i].is_word == a[i].is_word
            &&& b[i].replacement == a[i].replacement
        }
}

/// A 256-entry child table with no children yet.
fn fresh_children() -> (r: Vec<Option<usize>>)
    ensures
        r@.len() == 256,
        forall|b: int| 0 <= b < 256 ==> (#[trigger] r@[b]) is None,
{
    let mut v: Vec<Option<usize>> = Vec::new();
    let mut i: usize = 0;
    while i < 256
        invariant
            i <= 256,
            v@.len() == i,
            forall|b: int| 0 <= b < i ==> (#[trigger] v@[b]) is None,
        decreases 256 - i,
    {
        v.push(None);
        i += 1;
    }
    v
}

/// Linking a fresh leaf under `cur` on byte `b` keeps the arena a trie with
/// all links still unset.
proof fn lemma_add_child(pre: Seq<SpecNode>, post: Seq<SpecNode>, cur: int, b: int)
    requires
        trie_wf(pre),
        links_unset(pre),
        0 <= cur < pre.len(),
        0 <= b < 256,
        pre[cur].children[b] is None,
        post.len() == pre.len() + 1,
        post[pre.len() as int].depth == pre[cur].depth + 1,
        post[pre.len() as int].children.len() == 256,
        forall|x: int| 0 <= x < 256 ==> (#[trigger] post[pre.len() as int].children[x]) is None,
        post[pre.len() as int].suffix_link is None,
        post[pre.len() as int].output_link is None,
        post[cur].depth == pre[cur].depth,
        post[cur].children == pre[cur].children.update(b, Some(pre.len() as int)),
        post[cur].suffix_link == pre[cur].suffix_link,
        post[cur].output_link == pre[cur].output_link,
        forall|j: int| 0 <= j < pre.len() && j != cur ==> post[j] == pre[j],
    ensures
        trie_wf(post),
        links_unset(post),
{
    let n = pre.len() as int;
    assert(trie_node_ok(pre, cur));
    assert forall|i: int| 0 <= i < post.len() implies #[trigger] trie_node_ok(post, i) by {
        if i == n {
            assert(pre[cur].depth <= cur);
        } else {
            assert(trie_node_ok(pre, i));
            assert forall|x: int|
                0 <= x < 256 && (#[trigger] post[i].children[x]) is Some implies {
                let c = post[i].children[x]->0;
                &&& 0 < c < post.len()
                &&& post[c].depth == post[i].depth + 1
            } by {
                if i == cur && x == b {
                    assert(post[i].children[x] == Some(n));
                } else {
                    assert(post[i].children[x] == pre[i].children[x]);
                    let c = pre[i].children[x]->0;
                    assert(0 < c < pre.len());
                    assert(post[c].depth == pre[c].depth);
                }
            }
        }
    }
    assert forall|j: int| 1 <= j < post.len() implies #[trigger] has_parent(post, j) by {
        if j == n {
            assert(post[cur].children[b] == Some(n));
        } else {
            assert(has_parent(pre, j));
            let (p, x): (int, int) = choose|p: int, x: int|
                0 <= p < pre.len() && 0 <= x < 256 && #[trigger] pre[p].children[x] == Some(j);
            if p == cur {
                assert(x != b);
                assert(post[p].children[x] == Some(j));
            } else {
                assert(post[p].children[x] == Some(j));
            }
        }
    }
}

/// Linking a fresh leaf where no edge was keeps edges unique: the new edge
/// is the only one aiming at the new node, and no old edge moved.
proof fn lemma_add_child_unique(pre: Seq<SpecNode>, post: Seq<SpecNode>, cur: int, b: int)
    requires
        trie_wf(pre),
        edges_unique(pre),
        0 <= cur < pre.len(),
        0 <= b < 256,
        pre[cur].children[b] is None,
        post.len() == pre.len() + 1,
        forall|x: int| 0 <= x < 256 ==> (#[trigger] post[pre.len() as int].children[x]) is None,
        post[cur].children == pre[cur].children.update(b, Some(pre.len() as int)),
        forall|j: int| 0 <= j < pre.len() && j != cur ==> post[j] == pre[j],
    ensures
        edges_unique(post),
{
    let n = pre.len() as int;
    assert forall|i1: int, b1: int, i2: int, b2: int|
        0 <= i1 < post.len() && 0 <= b1 < 256 && 0 <= i2 < post.len() && 0 <= b2 < 256 && (
        #[trigger] post[i1].children[b1]) is Some && post[i1].children[b1] == (
        #[trigger] post[i2].children[b2]) implies i1 == i2 && b1 == b2 by {
        let new1 = i1 == cur && b1 == b;
        let new2 = i2 == cur && b2 == b;
        assert(trie_node_ok(pre, cur));
        assert(pre[cur].children.len() == 256);
        assert(i1 != n && i2 != n);
        if !new1 {
            if i1 == cur {
                assert(b1 != b);
                assert(post[i1].children =~= pre[cur].children.update(b, Some(n)));
                assert(post[i1].children[b1] == pre[i1].children[b1]);
            } else {
                assert(post[i1] == pre[i1]);
            }
            assert(post[i1].children[b1] == pre[i1].children[b1]);
            assert(trie_node_ok(pre, i1));
            assert(pre[i1].children[b1]->0 < n);
        }
        if !new2 {
            if i2 == cur {
                assert(b2 != b);
                assert(post[i2].children =~= pre[cur].children.update(b, Some(n)));
                assert(post[i2].children[b2] == pre[i2].children[b2]);
            } else {
                assert(post[i2] == pre[i2]);
            }
            assert(post[i2].children[b2] == pre[i2].children[b2]);
            assert(trie_node_ok(pre, i2));
            assert(pre[i2].children[b2]->0 < n);
        }
        if new1 && new2 {
        } else if new1 || new2 {
            assert(false);
        } else {
            assert(pre[i1].children[b1] == pre[i2].children[b2]);
        }
    }
}

/// Any change that keeps every existing edge in place keeps every walk's
/// landing place.
proof fn lemma_node_at_preserved(pre: Seq<SpecNode>, post: Seq<SpecNode>, i: int, w: Seq<u8>)
    requires
        trie_wf(pre),
        pre.len() <= post.len(),
        forall|j: int, x: int|
            0 <= j < pre.len() && 0 <= x < 256 && (#[trigger] pre[j].children[x]) is Some
                ==> post[j].children[x] == pre[j].children[x],
        0 <= i < pre.len(),
        node_at(pre, i, w) is Some,
    ensures
        node_at(post, i, w) == node_at(pre, i, w),
    decreases w.len(),
{
    if w.len() > 0 {
        assert(trie_node_ok(pre, i));
        let c = pre[i].children[w[0] as int]->0;
        assert(post[i].children[w[0] as int] == pre[i].children[w[0] as int]);
        lemma_node_at_preserved(pre, post, c, w.skip(1));
    }
}

/// Marking a word (or storing its replacement) at an existing node keeps the
/// arena a trie with all links still unset.
proof fn lemma_set_word(pre: Seq<SpecNode>, post: Seq<SpecNode>, cur: int)
    requires
        trie_wf(pre),
        links_unset(pre),
        0 <= cur < pre.len(),
        post.len() == pre.len(),
        post[cur].depth == pre[cur].depth,
        post[cur].children == pre[cur].children,
        post[cur].suffix_link == pre[cur].suffix_link,
        post[cur].output_link == pre[cur].output_link,
        forall|j: int| 0 <= j < pre.len() && j != cur ==> post[j] == pre[j],
    ensures
        trie_wf(post),
        links_unset(post),
{
    assert forall|i: int| 0 <= i < post.len() implies #[trigger] trie_node_ok(post, i) by {
        assert(trie_node_ok(pre, i));
        assert forall|x: int|
            0 <= x < 256 && (#[trigger] post[i].children[x]) is Some implies {
            let c = post[i].children[x]->0;
            &&& 0 < c < post.len()
            &&& post[c].depth == post[i].depth + 1
        } by {
            assert(post[i].children[x] == pre[i].children[x]);
            let c = pre[i].children[x]->0;
            assert(0 < c < pre.len());
            assert(post[c].depth == pre[c].depth);
        }
    }
    assert forall|j: int| 1 <= j < post.len() implies #[trigger] has_parent(post, j) by {
        assert(has_parent(pre, j));
        let (p, x): (int, int) = choose|p: int, x: int|
            0 <= p < pre.len() && 0 <= x < 256 && #[trigger] pre[p].children[x] == Some(j);
        assert(post[p].children[x] == Some(j));
    }
}

/// Inserts one word into the trie, walking or creating one node per
    /// byte, and stores the word mark and replacement at the final node
    /// (overwriting both when the word was already present: the last
    /// insertion wins).  Every walk that resolved before still resolves to
    /// the same node, and no other node's word mark or replacement moves.
    /// An empty word marks the root, which no traversal ever observes as a
    /// word.
fn add_word(nodes: &mut Vec<AcAutomatonNode>, word: &Vec<u8>, replacement: Option<Vec<u8>>)
        requires
            trie_wf(arena_view(old(nodes)@)),
            links_unset(arena_view(old(nodes)@)),
            edges_unique(arena_view(old(nodes)@)),
        ensures
            trie_wf(arena_view(final(nodes)@)),
            links_unset(arena_view(final(nodes)@)),
            edges_unique(arena_view(final(nodes)@)),
            arena_view(old(nodes)@).len() <= arena_view(final(nodes)@).len(),
            ({
                let tgt = node_at(arena_view(final(nodes)@), 0, word@);
                &&& tgt is Some
                &&& arena_view(final(nodes)@)[tgt->0].is_word
                &&& arena_view(final(nodes)@)[tgt->0].replacement == (match replacement {
                    Some(v) => Some(v@),
                    None => None::<Seq<u8>>,
                })
            }),
            forall|w: Seq<u8>|
                (#[trigger] node_at(arena_view(old(nodes)@), 0, w)) is Some ==> node_at(
                    arena_view(final(nodes)@),
                    0,
                    w,
                ) == node_at(arena_view(old(nodes)@), 0, w),
            forall|j: int|
                0 <= j < arena_view(final(nodes)@).len() && Some(j) != node_at(
                    arena_view(final(nodes)@),
                    0,
                    word@,
                ) ==> {
                    &&& (j < arena_view(old(nodes)@).len() ==> (#[trigger] arena_view(final(nodes)@)[j]).is_word
                        == arena_view(old(nodes)@)[j].is_word && arena_view(final(nodes)@)[j].replacement == arena_view(old(nodes)@)[j].replacement)
                    &&& (j >= arena_view(old(nodes)@).len() ==> !arena_view(final(nodes)@)[j].is_word && arena_view(final(nodes)@)[j].replacement is None)
                },
            forall|p: Seq<u8>|
                #[trigger] p.is_prefix_of(word@) ==> node_at(arena_view(final(nodes)@), 0, p)
                    is Some,
            forall|w2: Seq<u8>|
                (#[trigger] node_at(arena_view(final(nodes)@), 0, w2)) is Some ==> node_at(
                    arena_view(old(nodes)@),
                    0,
                    w2,
                ) is Some || w2.is_prefix_of(word@),
    {
        let mut cur: usize = 0;
        let mut i: usize = 0;
        proof {
            assert(word@.take(0) =~= Seq::<u8>::empty());
        }
        while i < word.len()
            invariant
                trie_wf(arena_view(nodes@)),
                links_unset(arena_view(nodes@)),
                edges_unique(arena_view(nodes@)),
                cur < nodes.len(),
                i <= word@.len(),
                arena_view(old(nodes)@).len() <= arena_view(nodes@).len(),
                node_at(arena_view(nodes@), 0, word@.take(i as int)) == Some(cur as int),
                forall|w: Seq<u8>|
                    (#[trigger] node_at(arena_view(old(nodes)@), 0, w)) is Some ==> node_at(
                        arena_view(nodes@),
                        0,
                        w,
                    ) == node_at(arena_view(old(nodes)@), 0, w),
                forall|j: int|
                    0 <= j < arena_view(old(nodes)@).len() ==> (#[trigger] arena_view(nodes@)[j]).is_word == arena_view(old(nodes)@)[j].is_word && arena_view(nodes@)[j].replacement == arena_view(old(nodes)@)[j].replacement,
                forall|j: int|
                    arena_view(old(nodes)@).len() <= j < arena_view(nodes@).len() ==> !(
                    #[trigger] arena_view(nodes@)[j]).is_word && arena_view(nodes@)[j].replacement is None,
                forall|i2: int|
                    0 <= i2 <= i ==> (#[trigger] node_at(arena_view(nodes@), 0, word@.take(i2)))
                        is Some,
                forall|w2: Seq<u8>|
                    (#[trigger] node_at(arena_view(nodes@), 0, w2)) is Some ==> node_at(
                        arena_view(old(nodes)@),
                        0,
                        w2,
                    ) is Some || w2.is_prefix_of(word@.take(i as int)),
            decreases word@.len() - i,
        {
            proof {
                assert(trie_node_ok(arena_view(nodes@), cur as int));
            }
            let b = word[i] as usize;
            match nodes[cur].children[b] {
                Some(c) => {
                    proof {
                        assert(arena_view(nodes@)[cur as int].children[b as int] == Some(c as int));
                        lemma_node_at_snoc(arena_view(nodes@), 0, word@.take(i as int), word@[i as int]);
                        assert(word@.take(i as int).push(word@[i as int]) =~= word@.take(
                            i + 1 as int,
                        ));
                        assert(node_at(arena_view(nodes@), 0, word@.take(i + 1 as int)) == Some(
                            c as int,
                        ));
                        assert forall|i2: int|
                            0 <= i2 <= i + 1 implies (#[trigger] node_at(
                            arena_view(nodes@),
                            0,
                            word@.take(i2),
                        )) is Some by {
                        }
                        assert forall|w2: Seq<u8>|
                            (#[trigger] node_at(arena_view(nodes@), 0, w2)) is Some implies
                            node_at(arena_view(old(nodes)@), 0, w2) is Some || w2.is_prefix_of(
                            word@.take(i + 1 as int),
                        ) by {
                            if !(node_at(arena_view(old(nodes)@), 0, w2) is Some) {
                                assert(w2.is_prefix_of(word@.take(i as int)));
                                assert(word@.take(i as int).is_prefix_of(
                                    word@.take(i + 1 as int),
                                )) by {
                                    assert(word@.take(i as int) =~= word@.take(
                                        i + 1 as int,
                                    ).subrange(0, i as int));
                                }
                                lemma_prefix_extend(
                                    w2,
                                    word@.take(i as int),
                                    word@.take(i + 1 as int),
                                );
                            }
                        }
                    }
                    cur = c;
                },
                None => {
                    let ghost pre = arena_view(nodes@);
                    let idx = nodes.len();
                    let d = nodes[cur].depth;
                    proof {
                        assert(pre[cur as int].depth == d as nat);
                        assert(d < idx);
                    }
                    let child = AcAutomatonNode {
                        depth: d + 1,
                        children: fresh_children(),
                        suffix_link: None,
                        output_link: None,
                        is_word: false,
                        replacement: None,
                    };
                    proof {
                        assert forall|x: int|
                            0 <= x < 256 implies (#[trigger] child@.children[x]) is None by {
                            assert(child.children@[x] is None);
                        }
                    }
                    nodes.push(child);
                    let ghost mid = arena_view(nodes@);
                    proof {
                        assert(mid.len() == pre.len() + 1);
                        assert(forall|j: int| 0 <= j < pre.len() ==> #[trigger] mid[j] == pre[j]);
                        assert(mid[pre.len() as int] == child@);
                    }
                    let node = &mut nodes[cur];
                    node.children[b] = Some(idx);
                    let ghost post = arena_view(nodes@);
                    proof {
                        assert(post.len() == mid.len());
                        assert(forall|j: int|
                            0 <= j < post.len() && j != cur ==> #[trigger] post[j] == mid[j]);
                        assert(post[cur as int].children =~= pre[cur as int].children.update(
                            b as int,
                            Some(pre.len() as int),
                        ));
                        lemma_add_child(pre, post, cur as int, b as int);
                        lemma_add_child_unique(pre, post, cur as int, b as int);
                        assert forall|j: int, x: int|
                            0 <= j < pre.len() && 0 <= x < 256 && (#[trigger] pre[j].children[x])
                                is Some implies post[j].children[x] == pre[j].children[x] by {
                            if j == cur as int {
                                assert(x != b as int);
                            }
                        }
                        assert forall|w: Seq<u8>|
                            (#[trigger] node_at(arena_view(old(nodes)@), 0, w)) is Some implies node_at(
                            post,
                            0,
                            w,
                        ) == node_at(arena_view(old(nodes)@), 0, w) by {
                            lemma_node_at_preserved(pre, post, 0, w);
                        }
                        lemma_node_at_preserved(pre, post, 0, word@.take(i as int));
                        lemma_node_at_snoc(post, 0, word@.take(i as int), word@[i as int]);
                        assert(word@.take(i as int).push(word@[i as int]) =~= word@.take(
                            i + 1 as int,
                        ));
                        assert(post[cur as int].children[b as int] == Some(idx as int));
                        assert(node_at(post, 0, word@.take(i + 1 as int)) == Some(idx as int));
                        assert forall|i2: int|
                            0 <= i2 <= i + 1 implies (#[trigger] node_at(
                            post,
                            0,
                            word@.take(i2),
                        )) is Some by {
                            if i2 <= i {
                                lemma_node_at_preserved(pre, post, 0, word@.take(i2));
                            }
                        }
                        assert forall|w2: Seq<u8>|
                            (#[trigger] node_at(post, 0, w2)) is Some implies node_at(
                            arena_view(old(nodes)@),
                            0,
                            w2,
                        ) is Some || w2.is_prefix_of(word@.take(i + 1 as int)) by {
                            if !(node_at(arena_view(old(nodes)@), 0, w2) is Some) {
                                if node_at(pre, 0, w2) is Some {
                                    assert(w2.is_prefix_of(word@.take(i as int)));
                                    assert(word@.take(i as int).is_prefix_of(
                                        word@.take(i + 1 as int),
                                    )) by {
                                        assert(word@.take(i as int) =~= word@.take(
                                            i + 1 as int,
                                        ).subrange(0, i as int));
                                    }
                                    lemma_prefix_extend(
                                        w2,
                                        word@.take(i as int),
                                        word@.take(i + 1 as int),
                                    );
                                } else {
                                    lemma_new_paths(
                                        pre,
                                        post,
                                        cur as int,
                                        b as int,
                                        word@.take(i as int),
                                        w2,
                                    );
                                    assert(b as u8 == word@[i as int]);
                                    assert(w2 =~= word@.take(i + 1 as int));
                                    assert(w2.is_prefix_of(word@.take(i + 1 as int))) by {
                                        assert(w2 =~= word@.take(i + 1 as int).subrange(
                                            0,
                                            w2.len() as int,
                                        ));
                                    }
                                }
                            }
                        }
                    }
                    cur = idx;
                },
            }
            i += 1;
        }
        let ghost pre2 = arena_view(nodes@);
        proof {
            assert(word@.take(word@.len() as int) =~= word@);
            assert(node_at(pre2, 0, word@) == Some(cur as int));
        }
        let node = &mut nodes[cur];
        node.is_word = true;
        node.replacement = replacement;
        let ghost post2 = arena_view(nodes@);
        proof {
            assert(forall|j: int|
                0 <= j < post2.len() && j != cur ==> #[trigger] post2[j] == pre2[j]);
            assert(post2[cur as int].children == pre2[cur as int].children);
            lemma_set_word(pre2, post2, cur as int);
            assert(edges_unique(post2)) by {
                assert forall|i1: int, b1: int, i2: int, b2: int|
                    0 <= i1 < post2.len() && 0 <= b1 < 256 && 0 <= i2 < post2.len() && 0 <= b2
                        < 256 && (#[trigger] post2[i1].children[b1]) is Some
                        && post2[i1].children[b1] == (#[trigger] post2[i2].children[b2]) implies i1
                    == i2 && b1 == b2 by {
                    assert(post2[i1].children == pre2[i1].children);
                    assert(post2[i2].children == pre2[i2].children);
                }
            }
            assert forall|j: int, x: int|
                0 <= j < pre2.len() && 0 <= x < 256 && (#[trigger] pre2[j].children[x]) is Some
                implies post2[j].children[x] == pre2[j].children[x] by {
                assert(post2[j].children == pre2[j].children);
            }
            assert forall|w: Seq<u8>|
                (#[trigger] node_at(arena_view(old(nodes)@), 0, w)) is Some implies node_at(post2, 0, w)
                    == node_at(arena_view(old(nodes)@), 0, w) by {
                lemma_node_at_preserved(pre2, post2, 0, w);
            }
            lemma_node_at_preserved(pre2, post2, 0, word@);
            assert(node_at(post2, 0, word@) == Some(cur as int));
            assert forall|p: Seq<u8>|
                #[trigger] p.is_prefix_of(word@) implies node_at(post2, 0, p) is Some by {
                assert(p =~= word@.take(p.len() as int));
                assert(node_at(pre2, 0, word@.take(p.len() as int)) is Some);
                lemma_node_at_preserved(pre2, post2, 0, p);
            }
            assert forall|j: int, x: int|
                0 <= j < post2.len() && 0 <= x < 256 && (#[trigger] post2[j].children[x]) is Some
                implies pre2[j].children[x] == post2[j].children[x] by {
                assert(post2[j].children == pre2[j].children);
            }
            assert forall|w2: Seq<u8>|
                (#[trigger] node_at(post2, 0, w2)) is Some implies node_at(
                arena_view(old(nodes)@),
                0,
                w2,
            ) is Some || w2.is_prefix_of(word@) by {
                lemma_node_at_preserved(post2, pre2, 0, w2);
                assert(node_at(pre2, 0, w2) is Some);
                if !(node_at(arena_view(old(nodes)@), 0, w2) is Some) {
                    assert(w2.is_prefix_of(word@.take(word@.len() as int)));
                    assert(word@.take(word@.len() as int) =~= word@);
                }
            }
        }
    }

/// The links stored at node `j` are sound: the suffix link exists and
/// points strictly up, and the output link (when set) points strictly up to
/// a dictionary word.
pub open spec fn link_ok(nodes: Seq<SpecNode>, j: int) -> bool {
    &&& nodes[j].suffix_link is Some
    &&& 0 <= nodes[j].suffix_link->0 < nodes.len()
    &&& nodes[nodes[j].suffix_link->0].depth < nodes[j].depth
    &&& (nodes[j].output_link is Some ==> {
        let o = nodes[j].output_link->0;
        &&& 0 <= o < nodes.len()
        &&& nodes[o].is_word
        &&& nodes[o].depth < nodes[j].depth
    })
}

/// Mid-build state: the root has no links, and every node of depth at most
/// `k` has sound links.
pub open spec fn partial_links(nodes: Seq<SpecNode>, k: nat) -> bool {
    &&& nodes[0].suffix_link is None
    &&& nodes[0].output_link is None
    &&& forall|j: int|
        1 <= j < nodes.len() && (#[trigger] nodes[j]).depth <= k ==> link_ok(nodes, j)
            && suffix_longest_ok(nodes, j) && chain_complete(nodes, j) && output_ok(nodes, j)
}

/// Equal child tables make edge uniqueness carry over.
proof fn lemma_edges_unique_same_shape(a: Seq<SpecNode>, b: Seq<SpecNode>)
    requires
        same_shape(a, b),
        edges_unique(a),
    ensures
        edges_unique(b),
{
    assert forall|i1: int, b1: int, i2: int, b2: int|
        0 <= i1 < b.len() && 0 <= b1 < 256 && 0 <= i2 < b.len() && 0 <= b2 < 256 && (
        #[trigger] b[i1].children[b1]) is Some && b[i1].children[b1] == (
        #[trigger] b[i2].children[b2]) implies i1 == i2 && b1 == b2 by {
        assert(b[i1].children == a[i1].children);
        assert(b[i2].children == a[i2].children);
    }
}

/// `j` occurs in the worklist `l`.
pub open spec fn in_list(l: Seq<usize>, j: int) -> bool {
    exists|t: int| 0 <= t < l.len() && l[t] == j
}

/// Appending to a worklist keeps every listed node listed, and lists the
/// appended one.
proof fn lemma_in_list_push(l: Seq<usize>, x: usize)
    ensures
        forall|j: int| #[trigger] in_list(l, j) ==> in_list(l.push(x), j),
        in_list(l.push(x), x as int),
{
    assert(l.push(x)[l.len() as int] == x);
    assert forall|j: int| #[trigger] in_list(l, j) implies in_list(l.push(x), j) by {
        let t = choose|t: int| 0 <= t < l.len() && l[t] == j;
        assert(l.push(x)[t] == j);
    }
}

/// In a trie every node but the root sits one level below its parent, so
/// has depth at least 1.
proof fn lemma_nonroot_depth(nodes: Seq<SpecNode>)
    requires
        trie_wf(nodes),
    ensures
        forall|j: int| 1 <= j < nodes.len() ==> (#[trigger] nodes[j]).depth >= 1,
{
    assert forall|j: int| 1 <= j < nodes.len() implies (#[trigger] nodes[j]).depth >= 1 by {
        assert(has_parent(nodes, j));
        let (p, x): (int, int) = choose|p: int, x: int|
            0 <= p < nodes.len() && 0 <= x < 256 && #[trigger] nodes[p].children[x] == Some(j);
        assert(trie_node_ok(nodes, p));
    }
}

/// If a trie has no node at depth `k`, it has none at any depth `e >= k`
/// either: a node at depth `e` would need an ancestor at every level below.
proof fn lemma_no_gap(nodes: Seq<SpecNode>, k: nat, e: nat)
    requires
        trie_wf(nodes),
        1 <= k <= e,
        forall|j: int| 1 <= j < nodes.len() ==> (#[trigger] nodes[j]).depth != k,
    ensures
        forall|j: int| 1 <= j < nodes.len() ==> (#[trigger] nodes[j]).depth != e,
    decreases e - k,
{
    if e > k {
        lemma_no_gap(nodes, k, (e - 1) as nat);
        assert forall|j: int| 1 <= j < nodes.len() implies (#[trigger] nodes[j]).depth != e by {
            if nodes[j].depth == e {
                assert(has_parent(nodes, j));
                let (p, x): (int, int) = choose|p: int, x: int|
                    0 <= p < nodes.len() && 0 <= x < 256 && #[trigger] nodes[p].children[x]
                        == Some(j);
                assert(trie_node_ok(nodes, p));
                assert(nodes[p].depth + 1 == e);
                assert(p != 0 ==> nodes[p].depth != e - 1);
                assert(nodes[0].depth == 0);
            }
        }
    }
}

/// Writing the computed output link into `c` makes it the nearest word on
/// `c`'s fresh suffix chain, and moves no other node's output data.
#[verifier::spinoff_prover]
#[verifier::rlimit(30)]
proof fn lemma_set_links_output(
    pre: Seq<SpecNode>,
    post: Seq<SpecNode>,
    c: int,
    sfx: int,
    out: Option<int>,
    k: nat,
)
    requires
        trie_wf(pre),
        links_decrease(pre),
        links_decrease(post),
        1 <= c < pre.len(),
        pre[c].depth == k + 1,
        0 <= sfx < pre.len(),
        pre[sfx].depth < pre[c].depth,
        (match out {
            Some(o) => 0 <= o < pre.len() && pre[o].is_word && on_chain(pre, sfx, o) && (forall|
                x: int,
            |
                0 <= x < pre.len() && #[trigger] on_chain(pre, sfx, x) && pre[x].is_word
                    ==> pre[x].depth <= pre[o].depth),
            None => forall|x: int|
                0 <= x < pre.len() && #[trigger] on_chain(pre, sfx, x) ==> !pre[x].is_word,
        }),
        post.len() == pre.len(),
        post[c].depth == pre[c].depth,
        post[c].is_word == pre[c].is_word,
        post[c].suffix_link == Some(sfx),
        post[c].output_link == out,
        forall|j: int| 0 <= j < pre.len() && j != c ==> post[j] == pre[j],
    ensures
        output_ok(post, c),
        forall|j: int|
            1 <= j < pre.len() && j != c && pre[j].depth <= k + 1 && #[trigger] output_ok(pre, j)
                ==> output_ok(post, j),
{
    reveal(output_ok);
    assert forall|x: int|
        0 <= x < pre.len() && pre[x].depth < pre[c].depth implies {
        &&& (#[trigger] post[x]).suffix_link == pre[x].suffix_link
        &&& post[x].is_word == pre[x].is_word
        &&& post[x].depth == pre[x].depth
    } by {
        assert(x != c);
    }
    assert forall|x: int| 0 <= x < pre.len() implies (#[trigger] post[x]).depth == pre[x].depth by {
        if x != c {
            assert(post[x] == pre[x]);
        }
    }
    match out {
        Some(o) => {
            lemma_chain_frame(pre, post, sfx, o);
            assert forall|x: int|
                0 <= x < post.len() && #[trigger] on_chain(post, sfx, x) && post[x].is_word
                implies post[x].depth <= post[o].depth by {
                lemma_chain_frame(post, pre, sfx, x);
                lemma_chain_depth(pre, sfx, x);
                assert(x != c);
            }
            assert(output_ok(post, c));
        },
        None => {
            assert forall|x: int|
                0 <= x < post.len() && #[trigger] on_chain(post, sfx, x) implies !post[x].is_word by {
                lemma_chain_frame(post, pre, sfx, x);
                lemma_chain_depth(pre, sfx, x);
                assert(x != c);
            }
            assert(output_ok(post, c));
        },
    }
    assert forall|j: int|
        1 <= j < pre.len() && j != c && pre[j].depth <= k + 1 && #[trigger] output_ok(pre, j)
        implies output_ok(post, j) by {
        assert(post[j] == pre[j]);
        match pre[j].output_link {
            Some(o) => {
                let f = pre[j].suffix_link->0;
                lemma_chain_depth(pre, f, o);
                assert(pre[f].depth < pre[j].depth);
                lemma_chain_frame(pre, post, f, o);
                assert forall|x: int|
                    0 <= x < post.len() && #[trigger] on_chain(post, f, x) && post[x].is_word
                    implies post[x].depth <= post[o].depth by {
                    lemma_chain_frame(post, pre, f, x);
                    lemma_chain_depth(pre, f, x);
                    assert(x != c);
                }
                assert(output_ok(post, j));
            },
            None => {
                if pre[j].suffix_link is Some {
                    let f = pre[j].suffix_link->0;
                    assert(pre[f].depth < pre[j].depth);
                    assert forall|x: int|
                        0 <= x < post.len() && #[trigger] on_chain(post, f, x) implies !post[x].is_word by {
                        lemma_chain_frame(post, pre, f, x);
                        lemma_chain_depth(pre, f, x);
                        assert(x != c);
                    }
                }
                assert(output_ok(post, j));
            },
        }
    }
}

/// Writing sound links into node `c` (one level below `k`) preserves the
/// trie shape and every previously sound link.
proof fn lemma_set_links(
    pre: Seq<SpecNode>,
    post: Seq<SpecNode>,
    c: int,
    sfx: int,
    out: Option<int>,
    k: nat,
)
    requires
        trie_wf(pre),
        partial_links(pre, k),
        links_decrease(pre),
        1 <= c < pre.len(),
        pre[c].depth == k + 1,
        0 <= sfx < pre.len(),
        pre[sfx].depth < pre[c].depth,
        (match out {
            Some(o) => 0 <= o < pre.len() && pre[o].is_word && pre[o].depth < pre[c].depth
                && on_chain(pre, sfx, o) && (forall|x: int|
                0 <= x < pre.len() && #[trigger] on_chain(pre, sfx, x) && pre[x].is_word
                    ==> pre[x].depth <= pre[o].depth),
            None => forall|x: int|
                0 <= x < pre.len() && #[trigger] on_chain(pre, sfx, x) ==> !pre[x].is_word,
        }),
        post.len() == pre.len(),
        post[c].depth == pre[c].depth,
        post[c].children == pre[c].children,
        post[c].is_word == pre[c].is_word,
        post[c].replacement == pre[c].replacement,
        post[c].suffix_link == Some(sfx),
        post[c].output_link == out,
        forall|j: int| 0 <= j < pre.len() && j != c ==> post[j] == pre[j],
        forall|w: Seq<u8>|
            #[trigger] node_at(pre, 0, w) == Some(c) ==> exists|m: int|
                1 <= m <= w.len() && node_at(pre, 0, w.skip(m)) == Some(sfx) && (forall|m2: int|
                    1 <= m2 < m ==> node_at(pre, 0, w.skip(m2)) is None),
        forall|w: Seq<u8>, m: int|
            #[trigger] node_at(pre, 0, w) == Some(c) && 1 <= m <= w.len() && (#[trigger] node_at(
                pre,
                0,
                w.skip(m),
            )) is Some ==> on_chain(pre, sfx, node_at(pre, 0, w.skip(m))->0),
    ensures
        trie_wf(post),
        partial_links(post, k),
        links_decrease(post),
        same_shape(pre, post),
        link_ok(post, c),
        suffix_longest_ok(post, c),
        chain_complete(post, c),
        output_ok(post, c),
        forall|j: int|
            1 <= j < pre.len() && j != c && pre[j].depth <= k + 1 && #[trigger] output_ok(pre, j)
                ==> output_ok(post, j),
        forall|j: int| 0 <= j < pre.len() && j != c && link_ok(pre, j) ==> link_ok(post, j),
        forall|j: int|
            0 <= j < pre.len() && j != c && #[trigger] suffix_longest_ok(pre, j)
                ==> suffix_longest_ok(post, j),
        forall|j: int|
            1 <= j < pre.len() && j != c && pre[j].depth <= k + 1 && #[trigger] chain_complete(
                pre,
                j,
            ) ==> chain_complete(post, j),
{
    reveal(suffix_longest_ok);
    reveal(chain_complete);
    assert(same_shape(pre, post));
    assert forall|j: int|
        0 <= j < post.len() && (#[trigger] post[j]).suffix_link is Some implies 0 <= post[j].suffix_link->0
        < post.len() && post[post[j].suffix_link->0].depth < post[j].depth by {
        if j != c {
            assert(post[j] == pre[j]);
        }
    }
    assert(links_decrease(post));
    lemma_set_links_output(pre, post, c, sfx, out, k);
    // The fresh link on `c` is sound and longest.
    assert forall|w: Seq<u8>|
        #[trigger] node_at(post, 0, w) == Some(c) implies exists|m: int|
        1 <= m <= w.len() && node_at(post, 0, w.skip(m)) == Some(post[c].suffix_link->0) && (
        forall|m2: int| 1 <= m2 < m ==> node_at(post, 0, w.skip(m2)) is None) by {
        lemma_node_at_same_shape(pre, post, 0, w);
        let m = choose|m: int|
            1 <= m <= w.len() && node_at(pre, 0, w.skip(m)) == Some(sfx) && (forall|m2: int|
                1 <= m2 < m ==> node_at(pre, 0, w.skip(m2)) is None);
        lemma_node_at_same_shape(pre, post, 0, w.skip(m));
        assert forall|m2: int| 1 <= m2 < m implies node_at(post, 0, w.skip(m2)) is None by {
            lemma_node_at_same_shape(pre, post, 0, w.skip(m2));
        }
        assert(1 <= m <= w.len() && node_at(post, 0, w.skip(m)) == Some(post[c].suffix_link->0)
            && (forall|m2: int| 1 <= m2 < m ==> node_at(post, 0, w.skip(m2)) is None));
    }
    assert(suffix_longest_ok(post, c));
    // The fresh chain on `c` covers every matching proper suffix.
    assert forall|w: Seq<u8>, m: int|
        #[trigger] node_at(post, 0, w) == Some(c) && 1 <= m <= w.len() && (#[trigger] node_at(
            post,
            0,
            w.skip(m),
        )) is Some implies post[c].suffix_link is Some && on_chain(
        post,
        post[c].suffix_link->0,
        node_at(post, 0, w.skip(m))->0,
    ) by {
        lemma_node_at_same_shape(pre, post, 0, w);
        lemma_node_at_same_shape(pre, post, 0, w.skip(m));
        let s2 = node_at(pre, 0, w.skip(m))->0;
        assert(on_chain(pre, sfx, s2));
        assert forall|x: int|
            0 <= x < pre.len() && pre[x].depth <= pre[sfx].depth implies (
        #[trigger] post[x]).suffix_link == pre[x].suffix_link by {
            assert(x != c);
        }
        lemma_chain_frame(pre, post, sfx, s2);
    }
    assert(chain_complete(post, c));
    // Links already written elsewhere stay sound, longest and complete.
    assert forall|j: int|
        0 <= j < pre.len() && j != c && #[trigger] suffix_longest_ok(pre, j) implies
        suffix_longest_ok(post, j) by {
        assert forall|w: Seq<u8>|
            #[trigger] node_at(post, 0, w) == Some(j) implies exists|m: int|
            1 <= m <= w.len() && node_at(post, 0, w.skip(m)) == Some(post[j].suffix_link->0) && (
            forall|m2: int| 1 <= m2 < m ==> node_at(post, 0, w.skip(m2)) is None) by {
            lemma_node_at_same_shape(pre, post, 0, w);
            let m = choose|m: int|
                1 <= m <= w.len() && node_at(pre, 0, w.skip(m)) == Some(pre[j].suffix_link->0)
                    && (forall|m2: int| 1 <= m2 < m ==> node_at(pre, 0, w.skip(m2)) is None);
            lemma_node_at_same_shape(pre, post, 0, w.skip(m));
            assert forall|m2: int| 1 <= m2 < m implies node_at(post, 0, w.skip(m2)) is None by {
                lemma_node_at_same_shape(pre, post, 0, w.skip(m2));
            }
            assert(post[j] == pre[j]);
            assert(1 <= m <= w.len() && node_at(post, 0, w.skip(m)) == Some(
                post[j].suffix_link->0,
            ) && (forall|m2: int| 1 <= m2 < m ==> node_at(post, 0, w.skip(m2)) is None));
        }
    }
    assert forall|j: int|
        1 <= j < pre.len() && j != c && pre[j].depth <= k + 1 && #[trigger] chain_complete(
            pre,
            j,
        ) implies chain_complete(post, j) by {
        assert(post[j] == pre[j]);
        assert forall|w: Seq<u8>, m: int|
            #[trigger] node_at(post, 0, w) == Some(j) && 1 <= m <= w.len() && (#[trigger] node_at(
                post,
                0,
                w.skip(m),
            )) is Some implies post[j].suffix_link is Some && on_chain(
            post,
            post[j].suffix_link->0,
            node_at(post, 0, w.skip(m))->0,
        ) by {
            lemma_node_at_same_shape(pre, post, 0, w);
            lemma_node_at_same_shape(pre, post, 0, w.skip(m));
            let s2 = node_at(pre, 0, w.skip(m))->0;
            assert(pre[j].suffix_link is Some && on_chain(pre, pre[j].suffix_link->0, s2));
            let f = pre[j].suffix_link->0;
            assert(pre[f].depth < pre[j].depth);
            assert forall|x: int|
                0 <= x < pre.len() && pre[x].depth <= pre[f].depth implies (
            #[trigger] post[x]).suffix_link == pre[x].suffix_link by {
                assert(x != c);
            }
            lemma_chain_frame(pre, post, f, s2);
        }
    }
    assert forall|i: int| 0 <= i < post.len() implies #[trigger] trie_node_ok(post, i) by {
        assert(trie_node_ok(pre, i));
        assert forall|x: int|
            0 <= x < 256 && (#[trigger] post[i].children[x]) is Some implies {
            let cc = post[i].children[x]->0;
            &&& 0 < cc < post.len()
            &&& post[cc].depth == post[i].depth + 1
        } by {
            assert(post[i].children[x] == pre[i].children[x]);
            let cc = pre[i].children[x]->0;
            assert(0 < cc < pre.len());
            assert(post[cc].depth == pre[cc].depth);
        }
    }
    assert forall|j: int| 1 <= j < post.len() implies #[trigger] has_parent(post, j) by {
        assert(has_parent(pre, j));
        let (p, x): (int, int) = choose|p: int, x: int|
            0 <= p < pre.len() && 0 <= x < 256 && #[trigger] pre[p].children[x] == Some(j);
        assert(post[p].children[x] == Some(j));
    }
    assert forall|j: int|
        0 <= j < pre.len() && j != c && link_ok(pre, j) implies link_ok(post, j) by {
        let f = pre[j].suffix_link->0;
        assert(post[f].depth == pre[f].depth);
        if pre[j].output_link is Some {
            let o = pre[j].output_link->0;
            assert(post[o].depth == pre[o].depth && post[o].is_word == pre[o].is_word);
        }
    }
    assert forall|j: int|
        1 <= j < post.len() && (#[trigger] post[j]).depth <= k implies link_ok(post, j)
        && suffix_longest_ok(post, j) && chain_complete(post, j) && output_ok(post, j) by {
        assert(pre[j].depth == post[j].depth);
        assert(link_ok(pre, j));
        assert(suffix_longest_ok(pre, j));
        assert(chain_complete(pre, j));
        assert(output_ok(pre, j));
        assert(j != c);
    }
}

/// Facts carried along the suffix-chain walk probing byte `bidx`: `anc`
/// lies on `start`'s chain, some tail of every walk reaching `start`
/// reaches `anc`, and every chain member already passed (above `anc`) has
/// no child on `bidx`.
spec fn walk_inv(nv: Seq<SpecNode>, k: nat, start: int, anc: int, bidx: int) -> bool {
    &&& trie_wf(nv)
    &&& partial_links(nv, k)
    &&& links_decrease(nv)
    &&& 0 <= start < nv.len()
    &&& nv[start].depth <= k
    &&& 0 <= anc < nv.len()
    &&& nv[anc].depth <= nv[start].depth
    &&& 0 <= bidx < 256
    &&& on_chain(nv, start, anc)
    &&& (forall|w: Seq<u8>|
        #[trigger] node_at(nv, 0, w) == Some(start) ==> exists|m: int|
            0 <= m <= w.len() && node_at(nv, 0, w.skip(m)) == Some(anc))
    &&& (forall|x: int|
        0 <= x < nv.len() && #[trigger] on_chain(nv, start, x) && !on_chain(nv, anc, x)
            ==> nv[x].children[bidx] is None)
}

/// Stepping the walk from `anc` (no child on the probed byte) up its
/// suffix link keeps the walk facts.
#[verifier::spinoff_prover]
#[verifier::rlimit(30)]
proof fn lemma_walk_up_reach(nv: Seq<SpecNode>, start: int, anc: int, up: int)
    requires
        0 <= start < nv.len(),
        0 <= anc < nv.len(),
        nv[anc].suffix_link == Some(up),
        suffix_longest_ok(nv, anc),
        forall|w: Seq<u8>|
            #[trigger] node_at(nv, 0, w) == Some(start) ==> exists|m: int|
                0 <= m <= w.len() && node_at(nv, 0, w.skip(m)) == Some(anc),
    ensures
        forall|w: Seq<u8>|
            #[trigger] node_at(nv, 0, w) == Some(start) ==> exists|m: int|
                0 <= m <= w.len() && node_at(nv, 0, w.skip(m)) == Some(up),
{
    reveal(suffix_longest_ok);
    assert forall|w: Seq<u8>|
        #[trigger] node_at(nv, 0, w) == Some(start) implies exists|m: int|
        0 <= m <= w.len() && node_at(nv, 0, w.skip(m)) == Some(up) by {
        let m = choose|m: int| 0 <= m <= w.len() && node_at(nv, 0, w.skip(m)) == Some(anc);
        let m2 = choose|m2: int|
            1 <= m2 <= w.skip(m).len() && node_at(nv, 0, w.skip(m).skip(m2)) == Some(
                nv[anc].suffix_link->0,
            );
        assert(w.skip(m).skip(m2) =~= w.skip(m + m2));
        assert(node_at(nv, 0, w.skip(m + m2)) == Some(up));
    }
}

#[verifier::spinoff_prover]
#[verifier::rlimit(30)]
proof fn lemma_walk_up(nv: Seq<SpecNode>, k: nat, start: int, anc: int, bidx: int)
    requires
        walk_inv(nv, k, start, anc, bidx),
        nv[anc].children[bidx] is None,
        nv[anc].suffix_link is Some,
    ensures
        walk_inv(nv, k, start, nv[anc].suffix_link->0, bidx),
{
    let up = nv[anc].suffix_link->0;
    lemma_chain_step(nv, start, anc);
    assert(anc != 0);
    assert(nv[anc].depth >= 1) by {
        lemma_nonroot_depth(nv);
    }
    assert(link_ok(nv, anc));
    assert(suffix_longest_ok(nv, anc));
    lemma_walk_up_reach(nv, start, anc, up);
    assert forall|x: int|
        0 <= x < nv.len() && #[trigger] on_chain(nv, start, x) && !on_chain(nv, up, x) implies
        nv[x].children[bidx] is None by {
        if on_chain(nv, anc, x) {
            assert(x == anc);
        }
    }
}

/// When the walk finds a child on the probed byte, that child is the
/// longest match: every longer tail of a walk reaching `start`, extended
/// by the byte, is no trie path.
#[verifier::spinoff_prover]
#[verifier::rlimit(30)]
proof fn lemma_walk_found(nv: Seq<SpecNode>, k: nat, start: int, anc: int, s: int, bidx: int)
    requires
        walk_inv(nv, k, start, anc, bidx),
        nv[anc].children[bidx] == Some(s),
    ensures
        forall|w: Seq<u8>|
            #[trigger] node_at(nv, 0, w) == Some(start) ==> exists|m: int|
                0 <= m <= w.len() && node_at(nv, 0, w.skip(m).push(bidx as u8)) == Some(s) && (
                forall|m2: int|
                    0 <= m2 < m ==> node_at(nv, 0, w.skip(m2).push(bidx as u8)) is None),
{
    reveal(chain_complete);
    assert(trie_node_ok(nv, anc));
    assert(bidx as u8 as int == bidx);
    assert forall|w: Seq<u8>|
        #[trigger] node_at(nv, 0, w) == Some(start) implies exists|m: int|
        0 <= m <= w.len() && node_at(nv, 0, w.skip(m).push(bidx as u8)) == Some(s) && (forall|
            m2: int,
        |
            0 <= m2 < m ==> node_at(nv, 0, w.skip(m2).push(bidx as u8)) is None) by {
        let m = choose|m: int| 0 <= m <= w.len() && node_at(nv, 0, w.skip(m)) == Some(anc);
        lemma_node_at_snoc(nv, 0, w.skip(m), bidx as u8);
        assert(node_at(nv, 0, w.skip(m).push(bidx as u8)) == Some(s));
        lemma_node_at_depth(nv, 0, w);
        lemma_node_at_depth(nv, 0, w.skip(m));
        assert(m == w.len() - nv[anc].depth);
        assert forall|m2: int|
            0 <= m2 < m implies node_at(nv, 0, w.skip(m2).push(bidx as u8)) is None by {
            if node_at(nv, 0, w.skip(m2).push(bidx as u8)) is Some {
                lemma_resolvable_prefix(nv, 0, w.skip(m2), bidx as u8);
                let sp = node_at(nv, 0, w.skip(m2))->0;
                lemma_node_at_depth(nv, 0, w.skip(m2));
                assert(nv[sp].depth == w.len() - m2);
                assert(nv[sp].depth > nv[anc].depth);
                if m2 == 0 {
                    assert(w.skip(0) =~= w);
                    assert(sp == start);
                } else {
                    assert(nv[start].depth == w.len());
                    assert(start != 0);
                    assert(chain_complete(nv, start));
                    assert(on_chain(nv, nv[start].suffix_link->0, sp));
                }
                assert(on_chain(nv, start, sp));
                if on_chain(nv, anc, sp) {
                    lemma_chain_depth(nv, anc, sp);
                    assert(false);
                }
                assert(nv[sp].children[bidx] is None);
                lemma_node_at_snoc(nv, 0, w.skip(m2), bidx as u8);
                assert(false);
            }
        }
        assert(0 <= m <= w.len() && node_at(nv, 0, w.skip(m).push(bidx as u8)) == Some(s) && (
        forall|m2: int| 0 <= m2 < m ==> node_at(nv, 0, w.skip(m2).push(bidx as u8)) is None));
    }
}

/// When the walk ends at the root without a child on the probed byte, no
/// tail of any walk reaching `start`, extended by the byte, is a trie
/// path.
#[verifier::spinoff_prover]
#[verifier::rlimit(30)]
proof fn lemma_walk_root(nv: Seq<SpecNode>, k: nat, start: int, bidx: int)
    requires
        walk_inv(nv, k, start, 0, bidx),
        nv[0].children[bidx] is None,
    ensures
        forall|w: Seq<u8>, m2: int|
            #[trigger] node_at(nv, 0, w) == Some(start) && 0 <= m2 <= w.len() ==> (
            #[trigger] node_at(nv, 0, w.skip(m2).push(bidx as u8))) is None,
{
    reveal(chain_complete);
    assert(bidx as u8 as int == bidx);
    assert forall|w: Seq<u8>, m2: int|
        #[trigger] node_at(nv, 0, w) == Some(start) && 0 <= m2 <= w.len() implies (
    #[trigger] node_at(nv, 0, w.skip(m2).push(bidx as u8))) is None by {
        if node_at(nv, 0, w.skip(m2).push(bidx as u8)) is Some {
            lemma_resolvable_prefix(nv, 0, w.skip(m2), bidx as u8);
            let sp = node_at(nv, 0, w.skip(m2))->0;
            lemma_node_at_depth(nv, 0, w);
            lemma_node_at_depth(nv, 0, w.skip(m2));
            if m2 == 0 {
                assert(w.skip(0) =~= w);
                assert(sp == start);
                assert(on_chain(nv, start, sp));
            } else if m2 == w.len() {
                assert(w.skip(m2) =~= Seq::<u8>::empty());
                assert(sp == 0);
            } else {
                assert(nv[start].depth == w.len());
                assert(start != 0);
                assert(chain_complete(nv, start));
                assert(on_chain(nv, nv[start].suffix_link->0, sp));
                assert(on_chain(nv, start, sp));
            }
            if sp == 0 {
                assert(nv[0].children[bidx] is None);
            } else {
                assert(on_chain(nv, start, sp));
                assert(!on_chain(nv, 0, sp));
                assert(nv[sp].children[bidx] is None);
            }
            lemma_node_at_snoc(nv, 0, w.skip(m2), bidx as u8);
            assert(false);
        }
    }
}

/// Walks suffix links upward from `start`, looking for an ancestor with
/// a child on byte `bidx`; lands on that child, or on the root.  Every
/// node visited has depth at most `k`, so its links are already final.
/// The landing place is the longest match: every longer tail of a walk
/// reaching `start`, extended by `bidx`, is no trie path.
fn find_link_target(nodes: &Vec<AcAutomatonNode>, start: usize, bidx: usize, Ghost(k): Ghost<nat>) -> (r: usize)
        requires
            trie_wf(arena_view(nodes@)),
            partial_links(arena_view(nodes@), k),
            links_decrease(arena_view(nodes@)),
            start < nodes.len(),
            arena_view(nodes@)[start as int].depth <= k,
            bidx < 256,
        ensures
            r < nodes.len(),
            arena_view(nodes@)[r as int].depth <= arena_view(nodes@)[start as int].depth + 1,
            r != 0 ==> forall|w: Seq<u8>|
                #[trigger] node_at(arena_view(nodes@), 0, w) == Some(start as int)
                    ==> exists|m: int|
                    0 <= m <= w.len() && node_at(
                        arena_view(nodes@),
                        0,
                        w.skip(m).push(bidx as u8),
                    ) == Some(r as int) && (forall|m2: int|
                        0 <= m2 < m ==> node_at(
                            arena_view(nodes@),
                            0,
                            w.skip(m2).push(bidx as u8),
                        ) is None),
            r == 0 ==> forall|w: Seq<u8>, m2: int|
                #[trigger] node_at(arena_view(nodes@), 0, w) == Some(start as int) && 0 <= m2
                    <= w.len() ==> (#[trigger] node_at(
                    arena_view(nodes@),
                    0,
                    w.skip(m2).push(bidx as u8),
                )) is None,
    {
        let ghost nv = arena_view(nodes@);
        let mut anc: usize = start;
        proof {
            assert forall|w: Seq<u8>|
                #[trigger] node_at(nv, 0, w) == Some(start as int) implies exists|m: int|
                0 <= m <= w.len() && node_at(nv, 0, w.skip(m)) == Some(anc as int) by {
                assert(w.skip(0) =~= w);
                assert(node_at(nv, 0, w.skip(0)) == Some(anc as int));
            }
            assert(walk_inv(nv, k, start as int, anc as int, bidx as int));
        }
        loop
            invariant
                nv == arena_view(nodes@),
                walk_inv(nv, k, start as int, anc as int, bidx as int),
                anc < nodes.len(),
                start < nodes.len(),
                bidx < 256,
            decreases nv[anc as int].depth,
        {
            proof {
                assert(trie_node_ok(nv, anc as int));
            }
            match nodes[anc].children[bidx] {
                Some(s) => {
                    proof {
                        assert(nv[anc as int].children[bidx as int] == Some(s as int));
                        lemma_walk_found(nv, k, start as int, anc as int, s as int, bidx as int);
                    }
                    return s;
                },
                None => {
                    match nodes[anc].suffix_link {
                        Some(up) => {
                            proof {
                                assert(nv[anc as int].children[bidx as int] is None);
                                assert(nv[anc as int].suffix_link == Some(up as int));
                                lemma_walk_up(nv, k, start as int, anc as int, bidx as int);
                            }
                            anc = up;
                        },
                        None => {
                            proof {
                                assert(nv[anc as int].suffix_link is None);
                                if anc != 0 {
                                    assert(nv[anc as int].depth >= 1) by {
                                        lemma_nonroot_depth(nv);
                                    }
                                    assert(link_ok(nv, anc as int));
                                    assert(false);
                                }
                                assert(nv[0].children[bidx as int] is None);
                                lemma_walk_root(nv, k, start as int, bidx as int);
                            }
                            return anc;
                        },
                    }
                },
            }
        }
    }

    /// One walk reaching child `c`, decomposed through its unique parent
    /// edge: splicing the parent's longest witness with what the chain
    /// walk found gives `c`'s own longest witness for `sfx`.
#[verifier::spinoff_prover]
#[verifier::rlimit(30)]
proof fn lemma_child_longest_one(
    pre: Seq<SpecNode>,
    n: int,
    c: int,
    b2: int,
    parent_suffix: int,
    sfx: int,
    k: nat,
    w: Seq<u8>,
)
    requires
        trie_wf(pre),
        partial_links(pre, k),
        links_decrease(pre),
        edges_unique(pre),
        k >= 1,
        1 <= n < pre.len(),
        pre[n].depth == k,
        0 <= parent_suffix < pre.len(),
        pre[parent_suffix].depth < k,
        pre[n].suffix_link == Some(parent_suffix),
        0 <= b2 < 256,
        pre[n].children[b2] == Some(c),
        1 <= c < pre.len(),
        pre[c].depth == k + 1,
        0 <= sfx < pre.len(),
        pre[sfx].depth <= k,
        sfx != 0 ==> forall|w0: Seq<u8>|
            #[trigger] node_at(pre, 0, w0) == Some(parent_suffix) ==> exists|m: int|
                0 <= m <= w0.len() && node_at(pre, 0, w0.skip(m).push(b2 as u8)) == Some(sfx)
                    && (forall|m2: int|
                    0 <= m2 < m ==> node_at(pre, 0, w0.skip(m2).push(b2 as u8)) is None),
        sfx == 0 ==> forall|w0: Seq<u8>, m2: int|
            #[trigger] node_at(pre, 0, w0) == Some(parent_suffix) && 0 <= m2 <= w0.len() ==> (
            #[trigger] node_at(pre, 0, w0.skip(m2).push(b2 as u8))) is None,
        node_at(pre, 0, w) == Some(c),
    ensures
        exists|m: int|
            1 <= m <= w.len() && node_at(pre, 0, w.skip(m)) == Some(sfx) && (forall|m2: int|
                1 <= m2 < m ==> node_at(pre, 0, w.skip(m2)) is None),
{
    reveal(suffix_longest_ok);
    assert(suffix_longest_ok(pre, n));
    assert(b2 as u8 as int == b2);
    lemma_node_at_depth(pre, 0, w);
    let v = w.drop_last();
    let lastb = w.last();
    assert(w =~= v.push(lastb));
    lemma_node_at_snoc(pre, 0, v, lastb);
    assert(node_at(pre, 0, v) is Some);
    let p = node_at(pre, 0, v)->0;
    lemma_node_at_depth(pre, 0, v);
    assert(pre[p].children[lastb as int] == Some(c));
    assert(pre[n].children[b2] == Some(c));
    assert(p == n && lastb as int == b2);
    assert(b2 as u8 == lastb);
    assert(node_at(pre, 0, v) == Some(n));
    let m1 = choose|m1: int|
        1 <= m1 <= v.len() && node_at(pre, 0, v.skip(m1)) == Some(pre[n].suffix_link->0) && (
        forall|mm: int| 1 <= mm < m1 ==> node_at(pre, 0, v.skip(mm)) is None);
    assert(node_at(pre, 0, v.skip(m1)) == Some(parent_suffix));
    let w0 = v.skip(m1);
    if sfx == 0 {
        let mf = w.len() as int;
        assert(w.skip(mf) =~= Seq::<u8>::empty());
        assert(node_at(pre, 0, w.skip(mf)) == Some(0int));
        assert forall|mm: int| 1 <= mm < mf implies node_at(pre, 0, w.skip(mm)) is None by {
            assert(w.skip(mm) =~= v.skip(mm).push(lastb));
            if mm < m1 {
                assert(node_at(pre, 0, v.skip(mm)) is None);
                lemma_node_at_snoc(pre, 0, v.skip(mm), lastb);
            } else {
                assert(v.skip(mm) =~= w0.skip(mm - m1));
                assert(node_at(pre, 0, w0.skip(mm - m1).push(b2 as u8)) is None);
                assert(w0.skip(mm - m1).push(b2 as u8) =~= w.skip(mm));
            }
        }
        assert(1 <= mf <= w.len() && node_at(pre, 0, w.skip(mf)) == Some(sfx) && (forall|
            m2: int,
        |
            1 <= m2 < mf ==> node_at(pre, 0, w.skip(m2)) is None));
    } else {
        let m2 = choose|m2: int|
            0 <= m2 <= w0.len() && node_at(pre, 0, w0.skip(m2).push(b2 as u8)) == Some(sfx) && (
            forall|mm: int| 0 <= mm < m2 ==> node_at(pre, 0, w0.skip(mm).push(b2 as u8)) is None);
        let mf = m1 + m2;
        assert(w0.skip(m2) =~= v.skip(mf));
        assert(v.skip(mf).push(b2 as u8) =~= w.skip(mf));
        assert(node_at(pre, 0, w.skip(mf)) == Some(sfx));
        assert forall|mm: int| 1 <= mm < mf implies node_at(pre, 0, w.skip(mm)) is None by {
            assert(w.skip(mm) =~= v.skip(mm).push(lastb));
            if mm < m1 {
                assert(node_at(pre, 0, v.skip(mm)) is None);
                lemma_node_at_snoc(pre, 0, v.skip(mm), lastb);
            } else {
                assert(v.skip(mm) =~= w0.skip(mm - m1));
                assert(node_at(pre, 0, w0.skip(mm - m1).push(b2 as u8)) is None);
                assert(w0.skip(mm - m1).push(b2 as u8) =~= w.skip(mm));
            }
        }
        assert(1 <= mf <= w.len() && node_at(pre, 0, w.skip(mf)) == Some(sfx) && (forall|
            m2x: int,
        |
            1 <= m2x < mf ==> node_at(pre, 0, w.skip(m2x)) is None));
    }
}

    /// The link pass's output choice for a child whose suffix target is
    /// `sfx`: the target itself when it is a word, nothing at the root,
    /// otherwise the target's own output link — exactly the nearest word
    /// on `sfx`'s chain.
#[verifier::spinoff_prover]
#[verifier::rlimit(30)]
proof fn lemma_out_choice(nv: Seq<SpecNode>, k: nat, sfx: int, out: Option<int>)
    requires
        trie_wf(nv),
        partial_links(nv, k),
        links_decrease(nv),
        !nv[0].is_word,
        0 <= sfx < nv.len(),
        nv[sfx].depth <= k,
        out == (if nv[sfx].is_word {
            Some(sfx)
        } else if sfx == 0 {
            None::<int>
        } else {
            nv[sfx].output_link
        }),
    ensures
        match out {
            Some(o) => {
                &&& 0 <= o < nv.len()
                &&& nv[o].is_word
                &&& nv[o].depth <= nv[sfx].depth
                &&& on_chain(nv, sfx, o)
                &&& (forall|x: int|
                    0 <= x < nv.len() && #[trigger] on_chain(nv, sfx, x) && nv[x].is_word
                        ==> nv[x].depth <= nv[o].depth)
            },
            None => forall|x: int|
                0 <= x < nv.len() && #[trigger] on_chain(nv, sfx, x) ==> !nv[x].is_word,
        },
{
    reveal(output_ok);
    if nv[sfx].is_word {
        assert(on_chain(nv, sfx, sfx));
        assert forall|x: int|
            0 <= x < nv.len() && #[trigger] on_chain(nv, sfx, x) && nv[x].is_word implies
            nv[x].depth <= nv[sfx].depth by {
            lemma_chain_depth(nv, sfx, x);
        }
    } else if sfx == 0 {
        assert forall|x: int|
            0 <= x < nv.len() && #[trigger] on_chain(nv, 0, x) implies !nv[x].is_word by {
            assert(x == 0);
        }
    } else {
        assert(nv[sfx].depth >= 1) by {
            lemma_nonroot_depth(nv);
        }
        assert(link_ok(nv, sfx));
        assert(output_ok(nv, sfx));
        let f = nv[sfx].suffix_link->0;
        match nv[sfx].output_link {
            Some(o) => {
                assert(on_chain(nv, f, o));
                assert(on_chain(nv, sfx, o));
                lemma_chain_depth(nv, sfx, o);
                assert forall|x: int|
                    0 <= x < nv.len() && #[trigger] on_chain(nv, sfx, x) && nv[x].is_word
                    implies nv[x].depth <= nv[o].depth by {
                    if x != sfx {
                        assert(on_chain(nv, f, x));
                    }
                }
            },
            None => {
                assert forall|x: int|
                    0 <= x < nv.len() && #[trigger] on_chain(nv, sfx, x) implies !nv[x].is_word by {
                    if x != sfx {
                        assert(on_chain(nv, f, x));
                    }
                }
            },
        }
    }
}

    /// Everything writing child `c`'s links establishes, given what the
    /// chain walk found: `sfx` is the longest-suffix target for `c`, the
    /// written links are sound, longest and chain-complete, and nothing
    /// already final moves.
#[verifier::spinoff_prover]
#[verifier::rlimit(30)]
proof fn lemma_process_child(
    orig: Seq<SpecNode>,
    pre: Seq<SpecNode>,
    post: Seq<SpecNode>,
    n: int,
    c: int,
    b2: int,
    parent_suffix: int,
    sfx: int,
    out: Option<int>,
    k: nat,
)
    requires
        trie_wf(pre),
        partial_links(pre, k),
        links_decrease(pre),
        same_shape(orig, pre),
        edges_unique(orig),
        k >= 1,
        1 <= n < pre.len(),
        pre[n].depth == k,
        0 <= parent_suffix < pre.len(),
        pre[parent_suffix].depth < k,
        pre[n].suffix_link == Some(parent_suffix),
        0 <= b2 < 256,
        pre[n].children[b2] == Some(c),
        1 <= c < pre.len(),
        pre[c].depth == k + 1,
        0 <= sfx < pre.len(),
        pre[sfx].depth <= k,
        (match out {
            Some(o) => 0 <= o < pre.len() && pre[o].is_word && pre[o].depth < pre[c].depth
                && on_chain(pre, sfx, o) && (forall|x: int|
                0 <= x < pre.len() && #[trigger] on_chain(pre, sfx, x) && pre[x].is_word
                    ==> pre[x].depth <= pre[o].depth),
            None => forall|x: int|
                0 <= x < pre.len() && #[trigger] on_chain(pre, sfx, x) ==> !pre[x].is_word,
        }),
        sfx != 0 ==> forall|w0: Seq<u8>|
            #[trigger] node_at(pre, 0, w0) == Some(parent_suffix) ==> exists|m: int|
                0 <= m <= w0.len() && node_at(pre, 0, w0.skip(m).push(b2 as u8)) == Some(sfx)
                    && (forall|m2: int|
                    0 <= m2 < m ==> node_at(pre, 0, w0.skip(m2).push(b2 as u8)) is None),
        sfx == 0 ==> forall|w0: Seq<u8>, m2: int|
            #[trigger] node_at(pre, 0, w0) == Some(parent_suffix) && 0 <= m2 <= w0.len() ==> (
            #[trigger] node_at(pre, 0, w0.skip(m2).push(b2 as u8))) is None,
        post.len() == pre.len(),
        post[c].depth == pre[c].depth,
        post[c].children == pre[c].children,
        post[c].is_word == pre[c].is_word,
        post[c].replacement == pre[c].replacement,
        post[c].suffix_link == Some(sfx),
        post[c].output_link == out,
        forall|j: int| 0 <= j < pre.len() && j != c ==> post[j] == pre[j],
    ensures
        trie_wf(post),
        partial_links(post, k),
        links_decrease(post),
        same_shape(pre, post),
        same_shape(orig, post),
        link_ok(post, c),
        suffix_longest_ok(post, c),
        chain_complete(post, c),
        output_ok(post, c),
        forall|j: int| 0 <= j < pre.len() && j != c && link_ok(pre, j) ==> link_ok(post, j),
        forall|j: int|
            0 <= j < pre.len() && j != c && #[trigger] suffix_longest_ok(pre, j)
                ==> suffix_longest_ok(post, j),
        forall|j: int|
            1 <= j < pre.len() && j != c && pre[j].depth <= k + 1 && #[trigger] chain_complete(
                pre,
                j,
            ) ==> chain_complete(post, j),
        forall|j: int|
            1 <= j < pre.len() && j != c && pre[j].depth <= k + 1 && #[trigger] output_ok(pre, j)
                ==> output_ok(post, j),
{
    reveal(chain_complete);
    lemma_edges_unique_same_shape(orig, pre);
    assert forall|w: Seq<u8>|
        #[trigger] node_at(pre, 0, w) == Some(c) implies exists|m: int|
        1 <= m <= w.len() && node_at(pre, 0, w.skip(m)) == Some(sfx) && (forall|m2: int|
            1 <= m2 < m ==> node_at(pre, 0, w.skip(m2)) is None) by {
        lemma_child_longest_one(pre, n, c, b2, parent_suffix, sfx, k, w);
    }
    assert forall|w: Seq<u8>, m: int|
        #[trigger] node_at(pre, 0, w) == Some(c) && 1 <= m <= w.len() && (#[trigger] node_at(
            pre,
            0,
            w.skip(m),
        )) is Some implies on_chain(pre, sfx, node_at(pre, 0, w.skip(m))->0) by {
        let mf = choose|mf: int|
            1 <= mf <= w.len() && node_at(pre, 0, w.skip(mf)) == Some(sfx) && (forall|mm: int|
                1 <= mm < mf ==> node_at(pre, 0, w.skip(mm)) is None);
        let sp = node_at(pre, 0, w.skip(m))->0;
        assert(m >= mf);
        if m == mf {
            assert(sp == sfx);
        } else {
            lemma_node_at_depth(pre, 0, w.skip(mf));
            if sfx == 0 {
                assert(pre[0].depth == 0);
                assert(mf == w.len());
                assert(false);
            }
            assert(pre[sfx].depth <= k);
            assert(chain_complete(pre, sfx));
            assert((w.skip(mf)).skip(m - mf) =~= w.skip(m));
            assert(node_at(pre, 0, (w.skip(mf)).skip(m - mf)) is Some);
            assert(on_chain(pre, pre[sfx].suffix_link->0, sp));
            assert(link_ok(pre, sfx));
            assert(on_chain(pre, sfx, sp));
        }
    }
    lemma_set_links(pre, post, c, sfx, out, k);
    assert forall|i: int| 0 <= i < orig.len() implies {
        &&& (#[trigger] post[i]).depth == orig[i].depth
        &&& post[i].children == orig[i].children
        &&& post[i].is_word == orig[i].is_word
        &&& post[i].replacement == orig[i].replacement
    } by {
        assert(pre[i].depth == orig[i].depth && pre[i].children == orig[i].children
            && pre[i].is_word == orig[i].is_word && pre[i].replacement == orig[i].replacement);
    }
    assert(same_shape(orig, post));
}

    /// After the first pass every depth-1 node — necessarily a child of
    /// the root — carries final links and stands in the worklist.
#[verifier::spinoff_prover]
proof fn lemma_level_one(nv: Seq<SpecNode>, level: Seq<usize>)
    requires
        trie_wf(nv),
        forall|t: int|
            0 <= t < level.len() ==> {
                let j = #[trigger] level[t] as int;
                &&& 1 <= j < nv.len()
                &&& nv[j].depth == 1
                &&& link_ok(nv, j)
                &&& suffix_longest_ok(nv, j)
                &&& chain_complete(nv, j)
                &&& output_ok(nv, j)
            },
        forall|x: int|
            0 <= x < 256 && (#[trigger] nv[0].children[x]) is Some ==> in_list(
                level,
                nv[0].children[x]->0,
            ) && link_ok(nv, nv[0].children[x]->0) && suffix_longest_ok(
                nv,
                nv[0].children[x]->0,
            ) && chain_complete(nv, nv[0].children[x]->0) && output_ok(
                nv,
                nv[0].children[x]->0,
            ),
    ensures
        forall|j: int|
            1 <= j < nv.len() && (#[trigger] nv[j]).depth <= 1 ==> link_ok(nv, j)
                && suffix_longest_ok(nv, j) && chain_complete(nv, j) && output_ok(nv, j),
        forall|j: int| 1 <= j < nv.len() && (#[trigger] nv[j]).depth == 1 ==> in_list(level, j),
{
    assert forall|j: int|
        1 <= j < nv.len() && (#[trigger] nv[j]).depth <= 1 implies link_ok(nv, j)
        && suffix_longest_ok(nv, j) && chain_complete(nv, j) && output_ok(nv, j) by {
        lemma_nonroot_depth(nv);
        assert(nv[j].depth == 1);
        assert(has_parent(nv, j));
        let (p, x): (int, int) = choose|p: int, x: int|
            0 <= p < nv.len() && 0 <= x < 256 && #[trigger] nv[p].children[x] == Some(j);
        assert(trie_node_ok(nv, p));
        assert(nv[p].depth == 0);
        assert(p == 0) by {
            lemma_nonroot_depth(nv);
        }
    }
    assert forall|j: int|
        1 <= j < nv.len() && (#[trigger] nv[j]).depth == 1 implies in_list(level, j) by {
        assert(has_parent(nv, j));
        let (p, x): (int, int) = choose|p: int, x: int|
            0 <= p < nv.len() && 0 <= x < 256 && #[trigger] nv[p].children[x] == Some(j);
        assert(trie_node_ok(nv, p));
        assert(p == 0) by {
            lemma_nonroot_depth(nv);
        }
    }
}

    /// Once no node of depth `k` is left, none deeper exists either, so
    /// every node's links are final: the arena is well-formed.
#[verifier::spinoff_prover]
proof fn lemma_final_assembly(nv: Seq<SpecNode>, k: nat)
    requires
        trie_wf(nv),
        partial_links(nv, k),
        k >= 1,
        forall|j: int| 1 <= j < nv.len() ==> (#[trigger] nv[j]).depth != k,
    ensures
        wf_nodes(nv),
{
    assert forall|j: int| 1 <= j < nv.len() implies (#[trigger] nv[j]).depth < k by {
        lemma_nonroot_depth(nv);
        if nv[j].depth >= k {
            lemma_no_gap(nv, k, nv[j].depth);
        }
    }
    assert forall|i: int| 0 <= i < nv.len() implies #[trigger] node_ok(nv, i) by {
        assert(trie_node_ok(nv, i));
        if i != 0 {
            assert(nv[i].depth <= k);
            assert(link_ok(nv, i));
        } else {
            assert(output_ok(nv, 0)) by {
                reveal(output_ok);
            }
        }
    }
}

    /// The breadth-first link pass: level by level, every node's children
    /// receive their suffix link (found through the parent's finished
    /// suffix chain) and their output link (the suffix target itself when
    /// it is a word, otherwise the suffix target's own output link).
fn breadth_first_walk(nodes: &mut Vec<AcAutomatonNode>)
        requires
            trie_wf(arena_view(old(nodes)@)),
            links_unset(arena_view(old(nodes)@)),
            edges_unique(arena_view(old(nodes)@)),
            !arena_view(old(nodes)@)[0].is_word,
        ensures
            wf_nodes(arena_view(final(nodes)@)),
            same_shape(arena_view(old(nodes)@), arena_view(final(nodes)@)),
    {
        let ghost orig = arena_view(nodes@);
        proof {
            lemma_nonroot_depth(orig);
        }
        proof {
            assert forall|j: int|
                0 <= j < orig.len() && (#[trigger] orig[j]).suffix_link is Some implies 0 <= orig[j].suffix_link->0
                < orig.len() && orig[orig[j].suffix_link->0].depth < orig[j].depth by {
                assert(orig[j].suffix_link is None);
            }
            assert(links_decrease(orig));
        }
        // Level 1: the root's direct children; their suffix link is the root.
        let mut level: Vec<usize> = Vec::new();
        let mut b: usize = 0;
        while b < 256
            invariant
                trie_wf(arena_view(nodes@)),
                same_shape(orig, arena_view(nodes@)),
                links_decrease(arena_view(nodes@)),
                b <= 256,
                arena_view(nodes@)[0].suffix_link is None,
                arena_view(nodes@)[0].output_link is None,
                edges_unique(orig),
                !orig[0].is_word,
                forall|t: int|
                    0 <= t < level@.len() ==> {
                        let j = #[trigger] level@[t] as int;
                        &&& 1 <= j < arena_view(nodes@).len()
                        &&& arena_view(nodes@)[j].depth == 1
                        &&& link_ok(arena_view(nodes@), j)
                        &&& suffix_longest_ok(arena_view(nodes@), j)
                        &&& chain_complete(arena_view(nodes@), j)
                        &&& output_ok(arena_view(nodes@), j)
                    },
                forall|x: int|
                    0 <= x < b && (#[trigger] arena_view(nodes@)[0].children[x]) is Some ==> in_list(
                        level@,
                        arena_view(nodes@)[0].children[x]->0,
                    ) && link_ok(arena_view(nodes@), arena_view(nodes@)[0].children[x]->0)
                        && suffix_longest_ok(
                        arena_view(nodes@),
                        arena_view(nodes@)[0].children[x]->0,
                    ) && chain_complete(
                        arena_view(nodes@),
                        arena_view(nodes@)[0].children[x]->0,
                    ),
            decreases 256 - b,
        {
            proof {
                assert(trie_node_ok(arena_view(nodes@), 0));
            }
            match nodes[0].children[b] {
                Some(c) => {
                    let ghost pre = arena_view(nodes@);
                    proof {
                        assert(pre[0].children[b as int] == Some(c as int));
                        assert(1 <= c as int && (c as int) < pre.len() && pre[c as int].depth == 1);
                    }
                    let node = &mut nodes[c];
                    node.suffix_link = Some(0);
                    node.output_link = None;
                    let ghost post = arena_view(nodes@);
                    proof {
                        assert(forall|j: int|
                            0 <= j < post.len() && j != c ==> #[trigger] post[j] == pre[j]);
                        assert(partial_links(pre, 0)) by {
                            lemma_nonroot_depth(pre);
                        }
                        assert forall|w: Seq<u8>|
                            #[trigger] node_at(pre, 0, w) == Some(c as int) implies exists|m: int|
                            1 <= m <= w.len() && node_at(pre, 0, w.skip(m)) == Some(0int) && (
                            forall|m2: int| 1 <= m2 < m ==> node_at(pre, 0, w.skip(m2)) is None) by {
                            lemma_node_at_depth(pre, 0, w);
                            assert(w.len() == 1);
                            assert(w.skip(1) =~= Seq::<u8>::empty());
                            assert(node_at(pre, 0, w.skip(1)) == Some(0int));
                            assert(1 <= 1 <= w.len() && node_at(pre, 0, w.skip(1)) == Some(0int)
                                && (forall|m2: int| 1 <= m2 < 1 ==> node_at(
                                pre,
                                0,
                                w.skip(m2),
                            ) is None));
                        }
                        assert forall|w: Seq<u8>, m: int|
                            #[trigger] node_at(pre, 0, w) == Some(c as int) && 1 <= m <= w.len()
                                && (#[trigger] node_at(pre, 0, w.skip(m))) is Some implies
                            on_chain(pre, 0, node_at(pre, 0, w.skip(m))->0) by {
                            lemma_node_at_depth(pre, 0, w);
                            assert(m == 1);
                            assert(w.skip(1) =~= Seq::<u8>::empty());
                            assert(node_at(pre, 0, w.skip(m)) == Some(0int));
                        }
                        assert forall|x: int|
                            0 <= x < pre.len() && #[trigger] on_chain(pre, 0, x) implies
                            !pre[x].is_word by {
                            assert(x == 0);
                            assert(pre[0].is_word == orig[0].is_word);
                        }
                        lemma_set_links(pre, post, c as int, 0, None, 0);
                        assert(same_shape(orig, post)) by {
                            assert(same_shape(orig, pre));
                        }
                    }
                    let ghost lpre = level@;
                    level.push(c);
                    proof {
                        lemma_in_list_push(lpre, c);
                        assert forall|x: int|
                            0 <= x < b + 1 && (#[trigger] post[0].children[x]) is Some implies
                            in_list(level@, post[0].children[x]->0) && link_ok(
                            arena_view(nodes@),
                            post[0].children[x]->0,
                        ) && suffix_longest_ok(arena_view(nodes@), post[0].children[x]->0)
                            && chain_complete(arena_view(nodes@), post[0].children[x]->0)
                            && output_ok(arena_view(nodes@), post[0].children[x]->0) by {
                            if x < b {
                                assert(pre[0].children[x] is Some);
                                assert(in_list(lpre, pre[0].children[x]->0));
                                assert(suffix_longest_ok(pre, pre[0].children[x]->0));
                                assert(chain_complete(pre, pre[0].children[x]->0));
                                assert(output_ok(pre, pre[0].children[x]->0));
                                assert(pre[pre[0].children[x]->0].depth <= 0 + 1);
                            }
                        }
                    }
                },
                None => {},
            }
            b += 1;
        }
        // Deeper levels: each pass fixes the links of the next level down.
        let ghost mut k: nat = 1nat;
        proof {
            lemma_level_one(arena_view(nodes@), level@);
        }
        while level.len() > 0
            invariant
                trie_wf(arena_view(nodes@)),
                same_shape(orig, arena_view(nodes@)),
                partial_links(arena_view(nodes@), k),
                links_decrease(arena_view(nodes@)),
                edges_unique(orig),
                !orig[0].is_word,
                k >= 1,
                forall|t: int|
                    0 <= t < level@.len() ==> {
                        let j = #[trigger] level@[t] as int;
                        &&& 1 <= j < arena_view(nodes@).len()
                        &&& arena_view(nodes@)[j].depth == k
                    },
                forall|j: int|
                    1 <= j < arena_view(nodes@).len() && (#[trigger] arena_view(nodes@)[j]).depth == k
                        ==> in_list(level@, j),
            decreases arena_view(nodes@).len() - k,
        {
            proof {
                assert(arena_view(nodes@)[level@[0] as int].depth == k);
                assert(trie_node_ok(arena_view(nodes@), level@[0] as int));
                assert(k <= level@[0] as int && (level@[0] as int) < arena_view(nodes@).len());
            }
            let mut next_level: Vec<usize> = Vec::new();
            let mut t: usize = 0;
            while t < level.len()
                invariant
                    trie_wf(arena_view(nodes@)),
                    same_shape(orig, arena_view(nodes@)),
                    partial_links(arena_view(nodes@), k),
                    links_decrease(arena_view(nodes@)),
                    edges_unique(orig),
                    !orig[0].is_word,
                    k >= 1,
                    t <= level@.len(),
                    forall|tt: int|
                        0 <= tt < level@.len() ==> {
                            let j = #[trigger] level@[tt] as int;
                            &&& 1 <= j < arena_view(nodes@).len()
                            &&& arena_view(nodes@)[j].depth == k
                        },
                    forall|j: int|
                        1 <= j < arena_view(nodes@).len() && (#[trigger] arena_view(nodes@)[j]).depth == k
                            ==> in_list(level@, j),
                    forall|tt: int|
                        0 <= tt < next_level@.len() ==> {
                            let j = #[trigger] next_level@[tt] as int;
                            &&& 1 <= j < arena_view(nodes@).len()
                            &&& arena_view(nodes@)[j].depth == k + 1
                            &&& link_ok(arena_view(nodes@), j)
                            &&& suffix_longest_ok(arena_view(nodes@), j)
                            &&& chain_complete(arena_view(nodes@), j)
                            &&& output_ok(arena_view(nodes@), j)
                        },
                    forall|tt: int, x: int|
                        0 <= tt < t && 0 <= x < 256 && (#[trigger] arena_view(nodes@)[level@[tt] as int].children[x])
                            is Some ==> in_list(
                            next_level@,
                            arena_view(nodes@)[level@[tt] as int].children[x]->0,
                        ),
                decreases level@.len() - t,
            {
                let n = level[t];
                proof {
                    assert(arena_view(nodes@)[n as int].depth == k);
                    assert(link_ok(arena_view(nodes@), n as int));
                    assert(trie_node_ok(arena_view(nodes@), n as int));
                }
                let parent_suffix: usize = match nodes[n].suffix_link {
                    Some(f) => f,
                    None => {
                        proof {
                            assert(false);
                        }
                        0
                    },
                };
                let mut b2: usize = 0;
                while b2 < 256
                    invariant
                        trie_wf(arena_view(nodes@)),
                        same_shape(orig, arena_view(nodes@)),
                        partial_links(arena_view(nodes@), k),
                        links_decrease(arena_view(nodes@)),
                        edges_unique(orig),
                        !orig[0].is_word,
                        k >= 1,
                        b2 <= 256,
                        t < level@.len(),
                        n == level@[t as int],
                        1 <= n as int && (n as int) < arena_view(nodes@).len(),
                        arena_view(nodes@)[n as int].depth == k,
                        parent_suffix < nodes.len(),
                        arena_view(nodes@)[parent_suffix as int].depth < k,
                        arena_view(nodes@)[n as int].suffix_link == Some(parent_suffix as int),
                        forall|tt: int|
                            0 <= tt < level@.len() ==> {
                                let j = #[trigger] level@[tt] as int;
                                &&& 1 <= j < arena_view(nodes@).len()
                                &&& arena_view(nodes@)[j].depth == k
                            },
                        forall|j: int|
                            1 <= j < arena_view(nodes@).len() && (#[trigger] arena_view(nodes@)[j]).depth == k
                                ==> in_list(level@, j),
                        forall|tt: int|
                            0 <= tt < next_level@.len() ==> {
                                let j = #[trigger] next_level@[tt] as int;
                                &&& 1 <= j < arena_view(nodes@).len()
                                &&& arena_view(nodes@)[j].depth == k + 1
                                &&& link_ok(arena_view(nodes@), j)
                                &&& suffix_longest_ok(arena_view(nodes@), j)
                                &&& chain_complete(arena_view(nodes@), j)
                                &&& output_ok(arena_view(nodes@), j)
                            },
                        forall|tt: int, x: int|
                            0 <= tt < t && 0 <= x < 256 && (
                            #[trigger] arena_view(nodes@)[level@[tt] as int].children[x]) is Some
                                ==> in_list(
                                next_level@,
                                arena_view(nodes@)[level@[tt] as int].children[x]->0,
                            ),
                        forall|x: int|
                            0 <= x < b2 && (#[trigger] arena_view(nodes@)[n as int].children[x]) is Some
                                ==> in_list(next_level@, arena_view(nodes@)[n as int].children[x]->0),
                    decreases 256 - b2,
                {
                    proof {
                        assert(trie_node_ok(arena_view(nodes@), n as int));
                    }
                    match nodes[n].children[b2] {
                        Some(c) => {
                            proof {
                                assert(arena_view(nodes@)[n as int].children[b2 as int] == Some(
                                    c as int,
                                ));
                                assert(1 <= c as int && (c as int) < arena_view(nodes@).len());
                                assert(arena_view(nodes@)[c as int].depth == k + 1);
                            }
                            let sfx = find_link_target(nodes, parent_suffix, b2, Ghost(k));
                            proof {
                                assert(arena_view(nodes@)[sfx as int].depth <= k);
                            }
                            let out: Option<usize> = if nodes[sfx].is_word {
                                Some(sfx)
                            } else {
                                if sfx == 0 {
                                    None
                                } else {
                                    proof {
                                        lemma_nonroot_depth(arena_view(nodes@));
                                        assert(link_ok(arena_view(nodes@), sfx as int));
                                    }
                                    nodes[sfx].output_link
                                }
                            };
                            proof {
                                assert(!arena_view(nodes@)[0].is_word) by {
                                    assert(arena_view(nodes@)[0].is_word == orig[0].is_word);
                                }
                                lemma_out_choice(
                                    arena_view(nodes@),
                                    k,
                                    sfx as int,
                                    match out {
                                        Some(o) => Some(o as int),
                                        None => None,
                                    },
                                );
                            }
                            let ghost pre = arena_view(nodes@);
                            let node = &mut nodes[c];
                            node.suffix_link = Some(sfx);
                            node.output_link = out;
                            let ghost post = arena_view(nodes@);
                            proof {
                                assert(forall|j: int|
                                    0 <= j < post.len() && j != c ==> #[trigger] post[j]
                                        == pre[j]);
                                lemma_process_child(
                                    orig,
                                    pre,
                                    post,
                                    n as int,
                                    c as int,
                                    b2 as int,
                                    parent_suffix as int,
                                    sfx as int,
                                    match out {
                                        Some(o) => Some(o as int),
                                        None => None,
                                    },
                                    k,
                                );
                            }
                            let ghost npre = next_level@;
                            next_level.push(c);
                            proof {
                                lemma_in_list_push(npre, c);
                                assert forall|tt: int, x: int|
                                    0 <= tt < t && 0 <= x < 256 && (
                                    #[trigger] post[level@[tt] as int].children[x]) is Some
                                    implies in_list(
                                    next_level@,
                                    post[level@[tt] as int].children[x]->0,
                                ) by {
                                    let j = post[level@[tt] as int].children[x]->0;
                                    assert(pre[level@[tt] as int].children[x] == post[level@[tt] as int].children[x]);
                                    assert(in_list(npre, j));
                                }
                                assert forall|x: int|
                                    0 <= x < b2 + 1 && (#[trigger] post[n as int].children[x])
                                        is Some implies in_list(
                                    next_level@,
                                    post[n as int].children[x]->0,
                                ) by {
                                    let j = post[n as int].children[x]->0;
                                    if x < b2 {
                                        assert(pre[n as int].children[x] == post[n as int].children[x]);
                                        assert(in_list(npre, j));
                                    } else {
                                        assert(j == c as int);
                                        assert(in_list(next_level@, c as int));
                                    }
                                }
                            }
                        },
                        None => {},
                    }
                    b2 += 1;
                }
                t += 1;
            }
            proof {
                assert forall|j: int|
                    1 <= j < arena_view(nodes@).len() && (#[trigger] arena_view(nodes@)[j]).depth <= k + 1
                    implies link_ok(arena_view(nodes@), j) && suffix_longest_ok(
                    arena_view(nodes@),
                    j,
                ) && chain_complete(arena_view(nodes@), j) && output_ok(
                    arena_view(nodes@),
                    j,
                ) by {
                    if arena_view(nodes@)[j].depth == k + 1 {
                        assert(has_parent(arena_view(nodes@), j));
                        let (p, x): (int, int) = choose|p: int, x: int|
                            0 <= p < arena_view(nodes@).len() && 0 <= x < 256
                                && #[trigger] arena_view(nodes@)[p].children[x] == Some(j);
                        assert(trie_node_ok(arena_view(nodes@), p));
                        assert(arena_view(nodes@)[p].depth == k);
                        assert(p >= 1) by {
                            lemma_nonroot_depth(arena_view(nodes@));
                        }
                        assert(in_list(level@, p));
                        let tt = choose|tt: int| 0 <= tt < level@.len() && level@[tt] == p;
                        assert(in_list(next_level@, j));
                    }
                }
                assert forall|j: int|
                    1 <= j < arena_view(nodes@).len() && (#[trigger] arena_view(nodes@)[j]).depth == k + 1
                    implies in_list(next_level@, j) by {
                    assert(has_parent(arena_view(nodes@), j));
                    let (p, x): (int, int) = choose|p: int, x: int|
                        0 <= p < arena_view(nodes@).len() && 0 <= x < 256
                            && #[trigger] arena_view(nodes@)[p].children[x] == Some(j);
                    assert(trie_node_ok(arena_view(nodes@), p));
                    assert(p >= 1) by {
                        lemma_nonroot_depth(arena_view(nodes@));
                    }
                    assert(in_list(level@, p));
                    let tt = choose|tt: int| 0 <= tt < level@.len() && level@[tt] == p;
                }
                k = k + 1nat;
            }
            level = next_level;
        }
        proof {
            assert forall|j: int|
                1 <= j < arena_view(nodes@).len() implies (#[trigger] arena_view(nodes@)[j]).depth
                != k by {
                if arena_view(nodes@)[j].depth == k {
                    assert(in_list(level@, j));
                }
            }
            lemma_final_assembly(arena_view(nodes@), k);
        }
    }

impl Clone for AcAutomaton {
    /// Cloning shares the immutable trie — no node is duplicated — and
    /// gives the clone its own cursor, reset to the root, so it matches
    /// like a freshly built automaton over the same words.
    fn clone(&self) -> (r: Self)
        ensures
            r@.nodes == self@.nodes,
            r@.state == 0,
    {
        AcAutomaton { nodes: rc_share(&self.nodes), state: 0 }
    }
}

impl Clone for crate::AhoCorasick {
    /// Cloning keeps the pattern set and starts matching afresh: the
    /// cursor of the clone stands at the root.
    fn clone(&self) -> (r: Self)
        ensures
            r.automaton@.nodes == self.automaton@.nodes,
            r.automaton@.state == 0,
    {
        crate::AhoCorasick { automaton: self.automaton.clone() }
    }
}

/// Copy of an optional byte vector.
fn clone_opt_bytes(o: &Option<Vec<u8>>) -> (r: Option<Vec<u8>>)
    ensures
        match o {
            Some(v) => r is Some && r->0@ == v@,
            None => r is None,
        },
{
    match o {
        Some(v) => Some(clone_bytes(v)),
        None => None,
    }
}

/// Byte-for-byte copy of a byte vector.
fn clone_bytes(v: &Vec<u8>) -> (r: Vec<u8>)
    ensures
        r@ == v@,
{
    let mut r: Vec<u8> = Vec::new();
    let mut i: usize = 0;
    while i < v.len()
        invariant
            i <= v@.len(),
            r@ == v@.take(i as int),
        decreases v@.len() - i,
    {
        r.push(v[i]);
        proof {
            assert(r@ =~= v@.take(i + 1 as int));
        }
        i += 1;
    }
    proof {
        assert(v@.take(v@.len() as int) =~= v@);
    }
    r
}

} // verus!
