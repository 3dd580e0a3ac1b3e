//! The fixed-depth prefix tree that groups log messages: the first layer
//! splits messages by their number of tokens, the following layers by their
//! leading tokens, and the leaves hold the log clusters.
//!
//! The tree is kept as an arena: node 0 is the root and every node refers
//! to its children by index.
use vstd::prelude::*;
use crate::text::{law_has_digit_anywhere, chars_of, contains_digit, decimal, has_digit, is_digit_char, string_from_chars, usize_to_decimal};

verus! {

/// The wildcard token that stands for a variable part of a message.
pub open spec fn wildcard() -> Seq<char> {
    seq!['<', '*', '>']
}

/// `"<*>"` as a string.
pub fn wildcard_string() -> (r: String)
    ensures
        r@ == wildcard(),
{
    let s = String::from_str("<*>");
    proof {
        reveal_strlit("<*>");
    }
    s
}

/// A group of log messages: the line ids and the token sequence.
pub struct LogCluster {
    pub log_id_lists: String,
    pub log_event: Vec<String>,
}

/// Mathematical view of a [`LogCluster`].
pub struct ClusterView {
    pub log_id: Seq<char>,
    pub event: Seq<Seq<char>>,
}

impl View for LogCluster {
    type V = ClusterView;

    open spec fn view(&self) -> ClusterView {
        ClusterView { log_id: self.log_id_lists@, event: self.log_event.deep_view() }
    }
}

/// A copy of `v`, string by string.
pub fn copy_words(v: &Vec<String>) -> (r: Vec<String>)
    ensures
        r.deep_view() == v.deep_view(),
{
    let mut out: Vec<String> = Vec::new();
    let mut i: usize = 0;
    while i < v.len()
        invariant
            i <= v.len(),
            out@.len() == i,
            forall|k: int| 0 <= k < i ==> #[trigger] out@[k]@ == v@[k]@,
        decreases v.len() - i,
    {
        let w = v[i].clone();
        out.push(w);
        i = i + 1;
    }
    assert(out.deep_view() =~= v.deep_view());
    out
}

impl LogCluster {
    /// A cluster of the given line ids and token sequence.
    pub fn new(log_id_lists: String, log_event: Vec<String>) -> (r: Self)
        ensures
            r.log_id_lists == log_id_lists,
            r.log_event == log_event,
    {
        LogCluster { log_id_lists, log_event }
    }
}

impl Clone for LogCluster {
    fn clone(&self) -> (r: Self)
        ensures
            r@ == self@,
    {
        LogCluster { log_id_lists: self.log_id_lists.clone(), log_event: copy_words(&self.log_event) }
    }
}

/// What a node holds: child nodes, by key, or the clusters of a leaf.
pub enum ChildOrLogCluster {
    Children(Vec<(String, usize)>),
    LogClusters(Vec<LogCluster>),
}

/// Mathematical view of [`ChildOrLogCluster`].
pub enum ContentView {
    Children(Seq<(Seq<char>, nat)>),
    Clusters(Seq<ClusterView>),
}

impl View for ChildOrLogCluster {
    type V = ContentView;

    open spec fn view(&self) -> ContentView {
        match self {
            ChildOrLogCluster::Children(ch) => ContentView::Children(
                ch@.map_values(|e: (String, usize)| (e.0@, e.1 as nat)),
            ),
            ChildOrLogCluster::LogClusters(cs) => ContentView::Clusters(
                cs@.map_values(|c: LogCluster| c@),
            ),
        }
    }
}

/// A node: its depth (0 for the root), its token (the message length on the
/// first layer), and its content.
pub struct Node {
    pub depth: usize,
    pub digit_or_token: String,
    pub child_or_logcluster: ChildOrLogCluster,
}

/// Mathematical view of a [`Node`].
pub struct NodeView {
    pub depth: nat,
    pub token: Seq<char>,
    pub content: ContentView,
}

impl View for Node {
    type V = NodeView;

    open spec fn view(&self) -> NodeView {
        NodeView {
            depth: self.depth as nat,
            token: self.digit_or_token@,
            content: self.child_or_logcluster@,
        }
    }
}

impl Node {
    /// A node without children; the depth defaults to 0 and the token to
    /// the empty string.
    pub fn new(depth: Option<usize>, digit_or_token: Option<String>) -> (r: Self)
        ensures
            r.depth == (match depth {
                Some(d) => d,
                None => 0,
            }),
            r.digit_or_token@ == (match digit_or_token {
                Some(t) => t@,
                None => Seq::<char>::empty(),
            }),
            r@.content == ContentView::Children(Seq::empty()),
    {
        let depth = match depth {
            Some(dep) => dep,
            None => 0,
        };
        let digit_or_token = match digit_or_token {
            Some(digit_or_token) => digit_or_token,
            None => String::new(),
        };
        let ch: Vec<(String, usize)> = Vec::new();
        assert(ch@.map_values(|e: (String, usize)| (e.0@, e.1 as nat)) =~= Seq::<
            (Seq<char>, nat),
        >::empty());
        Node { depth, digit_or_token, child_or_logcluster: ChildOrLogCluster::Children(ch) }
    }
}

/// The children of a node, empty for a leaf.
pub open spec fn children_of(n: NodeView) -> Seq<(Seq<char>, nat)> {
    match n.content {
        ContentView::Children(ch) => ch,
        ContentView::Clusters(_) => seq![],
    }
}

/// The node that `key` leads to among `ch`, taking the first entry with it.
pub open spec fn lookup(ch: Seq<(Seq<char>, nat)>, key: Seq<char>) -> Option<nat>
    decreases ch.len(),
{
    if ch.len() == 0 {
        None
    } else if ch[0].0 == key {
        Some(ch[0].1)
    } else {
        lookup(ch.drop_first(), key)
    }
}

/// `t` with a new childless node `key` at depth `depth`, appended at index
/// `t.len()` and entered under `key` among the children of `parent`.
pub open spec fn with_child(t: Seq<NodeView>, parent: int, key: Seq<char>, depth: nat) -> Seq<
    NodeView,
> {
    let p = t[parent];
    t.update(
        parent,
        NodeView {
            depth: p.depth,
            token: p.token,
            content: ContentView::Children(children_of(p).push((key, t.len()))),
        },
    ).push(NodeView { depth, token: key, content: ContentView::Children(seq![]) })
}

/// `t` with `cl` appended to the clusters of node `cur`; a node that held
/// children becomes a leaf holding only `cl`.
pub open spec fn with_cluster(t: Seq<NodeView>, cur: int, cl: ClusterView) -> Seq<NodeView> {
    let n = t[cur];
    let cs = match n.content {
        ContentView::Clusters(v) => v.push(cl),
        ContentView::Children(_) => seq![cl],
    };
    t.update(cur, NodeView { depth: n.depth, token: n.token, content: ContentView::Clusters(cs) })
}

/// One step down from node `cur` (at depth `depth`) along token `tok`:
/// the tree afterwards and the node reached.
/// - a child keyed `tok` is followed;
/// - otherwise a token without digits gets a child of its own while the
///   node has room for it (fewer than `max_child` children, one place being
///   kept for the wildcard until the wildcard exists); when there is no more
///   room it goes to the wildcard child, created if needed;
/// - a token with a digit goes to the wildcard child, created if needed.
pub open spec fn route(t: Seq<NodeView>, cur: int, tok: Seq<char>, depth: nat, max_child: nat) -> (
    Seq<NodeView>,
    int,
) {
    let ch = children_of(t[cur]);
    match lookup(ch, tok) {
        Some(nx) => (t, nx as int),
        None => {
            if !has_digit(tok) {
                match lookup(ch, wildcard()) {
                    Some(w) => {
                        if ch.len() < max_child {
                            (with_child(t, cur, tok, depth + 1), t.len() as int)
                        } else {
                            (t, w as int)
                        }
                    },
                    None => {
                        if ch.len() + 1 < max_child {
                            (with_child(t, cur, tok, depth + 1), t.len() as int)
                        } else {
                            (with_child(t, cur, wildcard(), depth + 1), t.len() as int)
                        }
                    },
                }
            } else {
                match lookup(ch, wildcard()) {
                    Some(w) => (t, w as int),
                    None => (with_child(t, cur, wildcard(), depth + 1), t.len() as int),
                }
            }
        },
    }
}

/// Walks the tokens of `cl` from position `i`, standing at node `cur` of
/// depth `i + 1`: once the depth reaches `depth_limit` the cluster is stored
/// at the current node; a message that runs out of tokens first is not
/// stored. Gives the tree afterwards and the leaf that got the cluster.
pub open spec fn descend(
    t: Seq<NodeView>,
    cur: int,
    cl: ClusterView,
    i: nat,
    depth_limit: nat,
    max_child: nat,
) -> (Seq<NodeView>, Option<int>)
    decreases cl.event.len() - i,
{
    if i >= cl.event.len() {
        (t, None)
    } else if i + 1 >= depth_limit || i + 1 > cl.event.len() {
        (with_cluster(t, cur, cl), Some(cur))
    } else {
        let (t2, nx) = route(t, cur, cl.event[i as int], i + 1, max_child);
        descend(t2, nx, cl, i + 1, depth_limit, max_child)
    }
}

/// The first-layer node for messages of `n` tokens, created if needed.
pub open spec fn first_layer(t: Seq<NodeView>, n: nat) -> (Seq<NodeView>, int) {
    let key = decimal(n);
    match lookup(children_of(t[0]), key) {
        Some(f) => (t, f as int),
        None => (with_child(t, 0, key, 1), t.len() as int),
    }
}

/// Adding cluster `cl` to tree `t`: the tree afterwards and the leaf that
/// got the cluster, if any.
pub open spec fn insert_cluster(t: Seq<NodeView>, cl: ClusterView, depth_limit: nat, max_child: nat) -> (
    Seq<NodeView>,
    Option<int>,
) {
    let (t1, first) = first_layer(t, cl.event.len());
    descend(t1, first, cl, 0, depth_limit, max_child)
}

/// The number of children an inner node below the root can reach:
/// `max_child`, and at least one (the wildcard child).
pub open spec fn child_cap(max_child: nat) -> nat {
    if max_child == 0 {
        1
    } else {
        max_child
    }
}

/// The step from node `cur` along `tok` can be taken: it cannot when `tok`
/// is new there, has no digit, and the node has neither a wildcard child nor
/// room for one more child.
pub open spec fn route_ok(t: Seq<NodeView>, cur: int, tok: Seq<char>, max_child: nat) -> bool {
    let ch = children_of(t[cur]);
    !(lookup(ch, tok) is None && !has_digit(tok) && lookup(ch, wildcard()) is None && ch.len() + 1
        > max_child)
}

/// Every step of [`descend`] from node `cur` and position `i` can be taken.
pub open spec fn descend_ok(
    t: Seq<NodeView>,
    cur: int,
    cl: ClusterView,
    i: nat,
    depth_limit: nat,
    max_child: nat,
) -> bool
    decreases cl.event.len() - i,
{
    if i >= cl.event.len() {
        true
    } else if i + 1 >= depth_limit || i + 1 > cl.event.len() {
        true
    } else {
        &&& route_ok(t, cur, cl.event[i as int], max_child)
        &&& {
            let (t2, nx) = route(t, cur, cl.event[i as int], i + 1, max_child);
            descend_ok(t2, nx, cl, i + 1, depth_limit, max_child)
        }
    }
}

/// Adding cluster `cl` to tree `t` can be done: every step down can be
/// taken.
pub open spec fn insert_ok(t: Seq<NodeView>, cl: ClusterView, depth_limit: nat, max_child: nat) -> bool {
    let (t1, first) = first_layer(t, cl.event.len());
    descend_ok(t1, first, cl, 0, depth_limit, max_child)
}

/// Entry `e` of the children of `parent` leads to a node one level deeper
/// whose token is the entry's key.
pub open spec fn child_ok(t: Seq<NodeView>, parent: NodeView, e: (Seq<char>, nat)) -> bool {
    &&& (e.1 as int) < t.len()
    &&& t[e.1 as int].depth == parent.depth + 1
    &&& t[e.1 as int].token == e.0
}

/// The depth of the leaves: the depth limit, but at least 1.
pub open spec fn leaf_depth(depth_limit: nat) -> nat {
    if depth_limit >= 1 {
        depth_limit
    } else {
        1
    }
}

/// No two children share a key.
pub open spec fn keys_distinct(ch: Seq<(Seq<char>, nat)>) -> bool {
    forall|j: int, k: int| 0 <= j < k < ch.len() ==> (#[trigger] ch[j]).0 != (#[trigger] ch[k]).0
}

/// Node `i` of `t` is well formed.
pub open spec fn node_ok(t: Seq<NodeView>, i: int, depth_limit: nat, max_child: nat) -> bool {
    let nv = t[i];
    &&& (i > 0 ==> nv.depth >= 1)
    &&& nv.depth <= i
    &&& nv.depth <= leaf_depth(depth_limit)
    &&& (nv.depth >= 2 ==> !has_digit(nv.token))
    &&& match nv.content {
        ContentView::Clusters(_) => nv.depth >= 1 && nv.depth >= depth_limit,
        ContentView::Children(ch) => {
            &&& forall|j: int| 0 <= j < ch.len() ==> child_ok(t, nv, #[trigger] ch[j])
            &&& keys_distinct(ch)
            &&& (nv.depth >= 1 ==> ch.len() <= max_child)
            &&& (nv.depth >= 1 && lookup(ch, wildcard()) is None ==> ch.len() < max_child)
            &&& (nv.depth >= 1 && ch.len() > 0 ==> nv.depth < depth_limit)
        },
    }
}

/// Well-formedness of a prefix tree built with depth limit `depth_limit`
/// and at most `max_child` children per inner node.
pub open spec fn wf_tree(t: Seq<NodeView>, depth_limit: nat, max_child: nat) -> bool {
    &&& t.len() >= 1
    &&& t[0].depth == 0
    &&& t[0].content is Children
    &&& forall|i: int| 0 <= i < t.len() ==> #[trigger] node_ok(t, i, depth_limit, max_child)
}

/// The prefix tree; node 0 is the root.
pub struct PrefixTree {
    nodes: Vec<Node>,
}

impl View for PrefixTree {
    type V = Seq<NodeView>;

    closed spec fn view(&self) -> Seq<NodeView> {
        self.nodes@.map_values(|n: Node| n@)
    }
}


/// Looking a key up after appending an entry: earlier entries win.
pub proof fn lemma_lookup_push(ch: Seq<(Seq<char>, nat)>, e: (Seq<char>, nat), key: Seq<char>)
    ensures
        lookup(ch.push(e), key) == (match lookup(ch, key) {
            Some(x) => Some(x),
            None => if e.0 == key {
                Some(e.1)
            } else {
                None
            },
        }),
    decreases ch.len(),
{
    if ch.len() > 0 {
        assert(ch.push(e).drop_first() =~= ch.drop_first().push(e));
        assert(ch.push(e)[0] == ch[0]);
        lemma_lookup_push(ch.drop_first(), e, key);
    } else {
        assert(ch.push(e).drop_first() =~= ch);
        assert(ch.push(e)[0] == e);
    }
}

/// A key that is found leads to the node of one of the entries with that key.
/// A key that is not found is no child's key.
pub proof fn lemma_lookup_none(ch: Seq<(Seq<char>, nat)>, key: Seq<char>)
    requires
        lookup(ch, key) is None,
    ensures
        forall|j: int| 0 <= j < ch.len() ==> (#[trigger] ch[j]).0 != key,
    decreases ch.len(),
{
    if ch.len() > 0 {
        lemma_lookup_none(ch.drop_first(), key);
        assert forall|j: int| 0 <= j < ch.len() implies (#[trigger] ch[j]).0 != key by {
            if j > 0 {
                assert(ch[j] == ch.drop_first()[j - 1]);
            }
        }
    }
}

pub proof fn lemma_lookup_found(ch: Seq<(Seq<char>, nat)>, key: Seq<char>)
    requires
        lookup(ch, key) is Some,
    ensures
        exists|j: int|
            0 <= j < ch.len() && #[trigger] ch[j] == (key, lookup(ch, key)->0),
    decreases ch.len(),
{
    if ch[0].0 != key {
        lemma_lookup_found(ch.drop_first(), key);
        let j = choose|j: int|
            0 <= j < ch.drop_first().len() && #[trigger] ch.drop_first()[j] == (
                key,
                lookup(ch.drop_first(), key)->0,
            );
        assert(ch[j + 1] == ch.drop_first()[j]);
    } else {
        assert(ch[0] == (key, lookup(ch, key)->0));
    }
}

/// Following a found key leads one level deeper, in a well-formed tree.
pub proof fn lemma_lookup_child(t: Seq<NodeView>, cur: int, key: Seq<char>, depth_limit: nat, max_child: nat)
    requires
        wf_tree(t, depth_limit, max_child),
        0 <= cur < t.len(),
        lookup(children_of(t[cur]), key) is Some,
    ensures
        ({
            let nx = lookup(children_of(t[cur]), key)->0;
            &&& nx < t.len()
            &&& t[nx as int].depth == t[cur].depth + 1
            &&& t[nx as int].token == key
        }),
{
    let ch = children_of(t[cur]);
    lemma_lookup_found(ch, key);
    let j = choose|j: int| 0 <= j < ch.len() && #[trigger] ch[j] == (key, lookup(ch, key)->0);
    assert(node_ok(t, cur, depth_limit, max_child));
    assert(t[cur].content is Children);
    assert(child_ok(t, t[cur], ch[j]));
}

/// Adding a child keeps the tree well formed when the parent has room for it.
pub proof fn lemma_with_child_wf(
    t: Seq<NodeView>,
    parent: int,
    key: Seq<char>,
    depth: nat,
    depth_limit: nat,
    max_child: nat,
)
    requires
        wf_tree(t, depth_limit, max_child),
        0 <= parent < t.len(),
        t[parent].content is Children,
        depth == t[parent].depth + 1,
        depth >= 2 ==> !has_digit(key),
        lookup(children_of(t[parent]), key) is None,
        max_child >= 1,
        t[parent].depth >= 1 ==> {
            let ch = children_of(t[parent]);
            &&& ch.len() + 1 <= max_child
            &&& (lookup(ch.push((key, t.len())), wildcard()) is None ==> ch.len() + 1 < max_child)
            &&& t[parent].depth < depth_limit
        },
    ensures
        wf_tree(with_child(t, parent, key, depth), depth_limit, max_child),
        with_child(t, parent, key, depth).len() == t.len() + 1,
        with_child(t, parent, key, depth)[t.len() as int].depth == depth,
        forall|i: int|
            0 <= i < t.len() ==> #[trigger] with_child(t, parent, key, depth)[i].depth == t[i].depth
                && with_child(t, parent, key, depth)[i].token == t[i].token,
{
    let t2 = with_child(t, parent, key, depth);
    let ch = children_of(t[parent]);
    assert(t2[0].depth == 0);
    assert(node_ok(t, parent, depth_limit, max_child));
    lemma_lookup_none(ch, key);
    assert(keys_distinct(ch.push((key, t.len())))) by {
        assert forall|j: int, k: int| 0 <= j < k < ch.len() + 1 implies (#[trigger] ch.push((key, t.len()))[j]).0
            != (#[trigger] ch.push((key, t.len()))[k]).0 by {
            if k == ch.len() {
                assert(ch.push((key, t.len()))[j] == ch[j]);
            } else {
                assert(ch.push((key, t.len()))[j] == ch[j]);
                assert(ch.push((key, t.len()))[k] == ch[k]);
            }
        }
    }
    assert forall|i: int| 0 <= i < t2.len() implies #[trigger] node_ok(t2, i, depth_limit, max_child) by {
        if i == t.len() {
            assert(lookup(Seq::<(Seq<char>, nat)>::empty(), wildcard()) is None);
        } else {
            assert(node_ok(t, i, depth_limit, max_child));
            let nv = t2[i];
            match nv.content {
                ContentView::Children(c2) => {
                    assert forall|j: int| 0 <= j < c2.len() implies child_ok(t2, nv, #[trigger] c2[j]) by {
                        if i == parent && j == ch.len() {
                        } else {
                            assert(c2[j] == children_of(t[i])[j]);
                            assert(child_ok(t, t[i], children_of(t[i])[j]));
                        }
                    }
                },
                ContentView::Clusters(_) => {},
            }
        }
    }
}

/// Storing a cluster at a node deep enough keeps the tree well formed.
pub proof fn lemma_with_cluster_wf(t: Seq<NodeView>, cur: int, cl: ClusterView, depth_limit: nat, max_child: nat)
    requires
        wf_tree(t, depth_limit, max_child),
        0 < cur < t.len(),
        t[cur].depth >= depth_limit,
    ensures
        wf_tree(with_cluster(t, cur, cl), depth_limit, max_child),
        with_cluster(t, cur, cl).len() == t.len(),
        forall|i: int|
            0 <= i < t.len() ==> #[trigger] with_cluster(t, cur, cl)[i].depth == t[i].depth
                && with_cluster(t, cur, cl)[i].token == t[i].token,
{
    let t2 = with_cluster(t, cur, cl);
    assert(node_ok(t, cur, depth_limit, max_child));
    assert forall|i: int| 0 <= i < t2.len() implies #[trigger] node_ok(t2, i, depth_limit, max_child) by {
        assert(node_ok(t, i, depth_limit, max_child));
        if i != cur {
            let nv = t2[i];
            match nv.content {
                ContentView::Children(c2) => {
                    assert forall|j: int| 0 <= j < c2.len() implies child_ok(t2, nv, #[trigger] c2[j]) by {
                        assert(child_ok(t, t[i], c2[j]));
                    }
                },
                ContentView::Clusters(_) => {},
            }
        }
    }
}

/// One routing step keeps the tree well formed and moves one level down.
pub proof fn lemma_route_wf(t: Seq<NodeView>, cur: int, tok: Seq<char>, depth: nat, depth_limit: nat, max_child: nat)
    requires
        wf_tree(t, depth_limit, max_child),
        0 <= cur < t.len(),
        t[cur].depth == depth,
        1 <= depth < depth_limit,
        max_child >= 1,
    ensures
        ({
            let (t2, nx) = route(t, cur, tok, depth, max_child);
            &&& wf_tree(t2, depth_limit, max_child)
            &&& 0 < nx < t2.len()
            &&& t2[nx].depth == depth + 1
            &&& t.len() <= t2.len()
        }),
{
    let ch = children_of(t[cur]);
    assert(node_ok(t, cur, depth_limit, max_child));
    assert(t[cur].content is Children);
    match lookup(ch, tok) {
        Some(nx) => {
            lemma_lookup_child(t, cur, tok, depth_limit, max_child);
        },
        None => {
            lemma_lookup_push(ch, (tok, t.len()), wildcard());
            lemma_lookup_push(ch, (wildcard(), t.len()), wildcard());
            assert(!has_digit(wildcard())) by {
                assert forall|i: int| 0 <= i < wildcard().len() implies !is_digit_char(
                    #[trigger] wildcard()[i],
                ) by {}
            }
            if !has_digit(tok) {
                match lookup(ch, wildcard()) {
                    Some(w) => {
                        if ch.len() < max_child {
                            lemma_with_child_wf(t, cur, tok, depth + 1, depth_limit, max_child);
                        } else {
                            lemma_lookup_child(t, cur, wildcard(), depth_limit, max_child);
                        }
                    },
                    None => {
                        if ch.len() + 1 < max_child {
                            lemma_with_child_wf(t, cur, tok, depth + 1, depth_limit, max_child);
                        } else {
                            lemma_with_child_wf(t, cur, wildcard(), depth + 1, depth_limit, max_child);
                        }
                    },
                }
            } else {
                match lookup(ch, wildcard()) {
                    Some(w) => {
                        lemma_lookup_child(t, cur, wildcard(), depth_limit, max_child);
                    },
                    None => {
                        lemma_with_child_wf(t, cur, wildcard(), depth + 1, depth_limit, max_child);
                    },
                }
            }
        },
    }
}


/// The clusters held by a node, empty for an inner node.
pub open spec fn clusters_of(n: NodeView) -> Seq<ClusterView> {
    match n.content {
        ContentView::Clusters(cs) => cs,
        ContentView::Children(_) => seq![],
    }
}

/// Number of clusters held by the first `t.len()` nodes.
pub open spec fn cluster_total(t: Seq<NodeView>) -> nat
    decreases t.len(),
{
    if t.len() == 0 {
        0
    } else {
        cluster_total(t.drop_last()) + clusters_of(t.last()).len()
    }
}

proof fn lemma_total_push(t: Seq<NodeView>, x: NodeView)
    ensures
        cluster_total(t.push(x)) == cluster_total(t) + clusters_of(x).len(),
{
    assert(t.push(x).drop_last() =~= t);
}

proof fn lemma_total_update(t: Seq<NodeView>, i: int, x: NodeView)
    requires
        0 <= i < t.len(),
    ensures
        cluster_total(t.update(i, x)) + clusters_of(t[i]).len() == cluster_total(t) + clusters_of(
            x,
        ).len(),
    decreases t.len(),
{
    if i == t.len() - 1 {
        assert(t.update(i, x).drop_last() =~= t.drop_last());
    } else {
        assert(t.update(i, x).drop_last() =~= t.drop_last().update(i, x));
        lemma_total_update(t.drop_last(), i, x);
    }
}

/// A routing step changes only node `cur`, whose depth and token stay, and
/// appends at most one node.
proof fn lemma_route_frame(t: Seq<NodeView>, cur: int, tok: Seq<char>, depth: nat, max_child: nat)
    requires
        0 <= cur < t.len(),
        t[cur].content is Children,
    ensures
        ({
            let (t2, nx) = route(t, cur, tok, depth, max_child);
            &&& t.len() <= t2.len() <= t.len() + 1
            &&& forall|j: int| 0 <= j < t.len() && j != cur ==> #[trigger] t2[j] == t[j]
            &&& t2[cur].depth == t[cur].depth
            &&& t2[cur].token == t[cur].token
            &&& clusters_of(t2[cur]) == clusters_of(t[cur])
            &&& (t2.len() > t.len() ==> clusters_of(t2[t.len() as int]).len() == 0)
        }),
{
}

/// What descending from node `cur` (of depth `i + 1`) does, in a
/// well-formed tree: the tree stays well formed, nodes are only appended,
/// depths and tokens never change, nodes shallower than `cur` are left
/// alone, no cluster is lost, and exactly the message's cluster is added
/// when the message is long enough.
proof fn lemma_descend(t: Seq<NodeView>, cur: int, cl: ClusterView, i: nat, depth_limit: nat, max_child: nat)
    requires
        wf_tree(t, depth_limit, max_child),
        max_child >= 1,
        0 < cur < t.len(),
        t[cur].depth == i + 1,
    ensures
        ({
            let (t2, leaf) = descend(t, cur, cl, i, depth_limit, max_child);
            &&& wf_tree(t2, depth_limit, max_child)
            &&& t.len() <= t2.len()
            &&& forall|j: int|
                0 <= j < t.len() ==> #[trigger] t2[j].depth == t[j].depth && t2[j].token
                    == t[j].token
            &&& forall|j: int| 0 <= j < t.len() && t[j].depth < i + 1 ==> #[trigger] t2[j] == t[j]
            &&& forall|j: int|
                0 <= j < t.len() ==> clusters_of(t[j]).is_prefix_of(
                    #[trigger] clusters_of(t2[j]),
                )
            &&& (leaf is Some <==> (i < cl.event.len() && cl.event.len() >= depth_limit))
            &&& cluster_total(t2) == cluster_total(t) + if leaf is Some {
                1nat
            } else {
                0nat
            }
            &&& (leaf matches Some(l) ==> 0 < l < t2.len() && clusters_of(t2[l]).len() > 0
                && clusters_of(t2[l]).last() == cl)
        }),
    decreases cl.event.len() - i,
{
    let (t2, leaf) = descend(t, cur, cl, i, depth_limit, max_child);
    if i >= cl.event.len() {
        assert forall|j: int| 0 <= j < t.len() implies clusters_of(t[j]).is_prefix_of(
            #[trigger] clusters_of(t2[j]),
        ) by {
            assert(clusters_of(t[j]).subrange(0, clusters_of(t[j]).len() as int) =~= clusters_of(
                t[j],
            ));
        }
    } else if i + 1 >= depth_limit || i + 1 > cl.event.len() {
        lemma_with_cluster_wf(t, cur, cl, depth_limit, max_child);
        let n = t[cur];
        let x = t2[cur];
        lemma_total_update(t, cur, x);
        assert forall|j: int| 0 <= j < t.len() implies clusters_of(t[j]).is_prefix_of(
            #[trigger] clusters_of(t2[j]),
        ) by {
            if j == cur {
                match n.content {
                    ContentView::Clusters(v) => {
                        assert(clusters_of(t2[j]).subrange(0, v.len() as int) =~= v);
                    },
                    ContentView::Children(_) => {},
                }
            } else {
                assert(clusters_of(t[j]).subrange(0, clusters_of(t[j]).len() as int) =~= clusters_of(
                    t[j],
                ));
            }
        }
    } else {
        let (tm, nx) = route(t, cur, cl.event[i as int], i + 1, max_child);
        assert(node_ok(t, cur, depth_limit, max_child));
        lemma_route_wf(t, cur, cl.event[i as int], i + 1, depth_limit, max_child);
        lemma_route_frame(t, cur, cl.event[i as int], i + 1, max_child);
        lemma_descend(tm, nx, cl, i + 1, depth_limit, max_child);
        if tm.len() > t.len() {
            assert(tm =~= t.update(cur, tm[cur]).push(tm[t.len() as int]));
            lemma_total_update(t, cur, tm[cur]);
            lemma_total_push(t.update(cur, tm[cur]), tm[t.len() as int]);
        } else {
            assert(tm =~= t.update(cur, tm[cur]));
            lemma_total_update(t, cur, tm[cur]);
        }
        assert forall|j: int| 0 <= j < t.len() implies clusters_of(t[j]).is_prefix_of(
            #[trigger] clusters_of(t2[j]),
        ) by {
            assert(clusters_of(tm[j]) == clusters_of(t[j]));
            assert(clusters_of(tm[j]).is_prefix_of(clusters_of(t2[j])));
        }
        assert forall|j: int| 0 <= j < t.len() && t[j].depth < i + 1 implies #[trigger] t2[j]
            == t[j] by {
            assert(tm[j] == t[j]);
            assert(tm[j].depth < i + 2);
        }
    }
}

/// The first layer step keeps the tree well formed and reaches a node of
/// depth 1 without touching any cluster.
proof fn lemma_first_layer(t: Seq<NodeView>, n: nat, depth_limit: nat, max_child: nat)
    requires
        wf_tree(t, depth_limit, max_child),
        max_child >= 1,
    ensures
        ({
            let (t1, first) = first_layer(t, n);
            &&& wf_tree(t1, depth_limit, max_child)
            &&& 0 < first < t1.len()
            &&& t1[first].depth == 1
            &&& t.len() <= t1.len()
            &&& forall|j: int|
                0 <= j < t.len() ==> #[trigger] t1[j].depth == t[j].depth && t1[j].token
                    == t[j].token && clusters_of(t1[j]) == clusters_of(t[j])
            &&& cluster_total(t1) == cluster_total(t)
        }),
{
    let key = decimal(n);
    assert(node_ok(t, 0, depth_limit, max_child));
    match lookup(children_of(t[0]), key) {
        Some(f) => {
            lemma_lookup_child(t, 0, key, depth_limit, max_child);
        },
        None => {
            lemma_with_child_wf(t, 0, key, 1, depth_limit, max_child);
            let t1 = with_child(t, 0, key, 1);
            lemma_total_update(t, 0, t1[0]);
            lemma_total_push(t.update(0, t1[0]), t1[t.len() as int]);
            assert(t1 =~= t.update(0, t1[0]).push(t1[t.len() as int]));
        },
    }
}

/// A step that can be taken with no room for children is the step taken
/// with room for one.
proof fn lemma_route_zero(t: Seq<NodeView>, cur: int, tok: Seq<char>, depth: nat)
    requires
        route_ok(t, cur, tok, 0),
    ensures
        route(t, cur, tok, depth, 0) == route(t, cur, tok, depth, 1),
{
}

/// Descending with no room for children, where every step can be taken, is
/// descending with room for one.
proof fn lemma_descend_zero(t: Seq<NodeView>, cur: int, cl: ClusterView, i: nat, depth_limit: nat)
    requires
        descend_ok(t, cur, cl, i, depth_limit, 0),
    ensures
        descend(t, cur, cl, i, depth_limit, 0) == descend(t, cur, cl, i, depth_limit, 1),
        descend_ok(t, cur, cl, i, depth_limit, 1),
    decreases cl.event.len() - i,
{
    if i >= cl.event.len() {
    } else if i + 1 >= depth_limit || i + 1 > cl.event.len() {
    } else {
        lemma_route_zero(t, cur, cl.event[i as int], i + 1);
        let (t2, nx) = route(t, cur, cl.event[i as int], i + 1, 0);
        lemma_descend_zero(t2, nx, cl, i + 1, depth_limit);
    }
}

/// In a well-formed tree with room for children, every step of a descent
/// can be taken.
proof fn lemma_descend_ok(t: Seq<NodeView>, cur: int, cl: ClusterView, i: nat, depth_limit: nat, max_child: nat)
    requires
        wf_tree(t, depth_limit, max_child),
        max_child >= 1,
        0 < cur < t.len(),
        t[cur].depth == i + 1,
    ensures
        descend_ok(t, cur, cl, i, depth_limit, max_child),
    decreases cl.event.len() - i,
{
    if i >= cl.event.len() {
    } else if i + 1 >= depth_limit || i + 1 > cl.event.len() {
    } else {
        assert(node_ok(t, cur, depth_limit, max_child));
        lemma_route_wf(t, cur, cl.event[i as int], i + 1, depth_limit, max_child);
        let (t2, nx) = route(t, cur, cl.event[i as int], i + 1, max_child);
        lemma_descend_ok(t2, nx, cl, i + 1, depth_limit, max_child);
    }
}

/// Law: where adding a cluster with `max_child` 0 succeeds, it does what
/// adding it with `max_child` 1 does.
pub proof fn law_zero_children_acts_as_one(t: Seq<NodeView>, cl: ClusterView, depth_limit: nat)
    requires
        insert_ok(t, cl, depth_limit, 0),
    ensures
        insert_cluster(t, cl, depth_limit, 0) == insert_cluster(t, cl, depth_limit, 1),
        insert_ok(t, cl, depth_limit, 1),
{
    let (t1, first) = first_layer(t, cl.event.len());
    lemma_descend_zero(t1, first, cl, 0, depth_limit);
}

/// Law: in a well-formed tree where a node may have a child, adding a
/// cluster never fails: the case of a new token with no room and no
/// wildcard child does not arise.
pub proof fn law_insert_never_fails_with_room(t: Seq<NodeView>, cl: ClusterView, depth_limit: nat, max_child: nat)
    requires
        wf_tree(t, depth_limit, max_child),
        max_child >= 1,
    ensures
        insert_ok(t, cl, depth_limit, max_child),
{
    lemma_first_layer(t, cl.event.len(), depth_limit, max_child);
    let (t1, first) = first_layer(t, cl.event.len());
    lemma_descend_ok(t1, first, cl, 0, depth_limit, max_child);
}

/// Law: adding a cluster keeps a prefix tree well formed: every inner node
/// below the root has at most `max_child` children (at least one, the
/// wildcard, allowed), one place kept for the wildcard until it exists;
/// no two children of a node share a key; children sit one level deeper and
/// carry their key as token; no node is deeper than the leaf depth, and
/// leaves sit exactly there (see [`lemma_leaves_at_leaf_depth`]); and no
/// node below the first layer has a token with a digit. With `max_child` 0
/// this holds where the adding succeeds.
pub proof fn law_insert_keeps_wf(t: Seq<NodeView>, cl: ClusterView, depth_limit: nat, max_child: nat)
    requires
        wf_tree(t, depth_limit, child_cap(max_child)),
        max_child >= 1 || insert_ok(t, cl, depth_limit, 0),
    ensures
        wf_tree(insert_cluster(t, cl, depth_limit, max_child).0, depth_limit, child_cap(max_child)),
{
    if max_child == 0 {
        law_zero_children_acts_as_one(t, cl, depth_limit);
    }
    let c = child_cap(max_child);
    lemma_first_layer(t, cl.event.len(), depth_limit, c);
    let (t1, first) = first_layer(t, cl.event.len());
    lemma_descend(t1, first, cl, 0, depth_limit, c);
}

/// Law: adding a cluster loses nothing and adds exactly that cluster when
/// the message is long enough to reach the depth limit: every cluster list
/// of the tree before is a prefix of the same node's list after; the message
/// is stored (as the last cluster of its leaf) if and only if it has at
/// least one token and at least `depth_limit` tokens; and the number of
/// stored clusters grows by one exactly then, by none otherwise. With
/// `max_child` 0 this holds where the adding succeeds.
pub proof fn law_insert_adds_one_cluster(t: Seq<NodeView>, cl: ClusterView, depth_limit: nat, max_child: nat)
    requires
        wf_tree(t, depth_limit, child_cap(max_child)),
        max_child >= 1 || insert_ok(t, cl, depth_limit, 0),
    ensures
        ({
            let (t2, leaf) = insert_cluster(t, cl, depth_limit, max_child);
            &&& t.len() <= t2.len()
            &&& forall|j: int|
                0 <= j < t.len() ==> clusters_of(t[j]).is_prefix_of(#[trigger] clusters_of(t2[j]))
            &&& (leaf is Some <==> (cl.event.len() >= 1 && cl.event.len() >= depth_limit))
            &&& (leaf matches Some(l) ==> 0 < l < t2.len() && clusters_of(t2[l]).len() > 0
                && clusters_of(t2[l]).last() == cl)
            &&& cluster_total(t2) == cluster_total(t) + if leaf is Some {
                1nat
            } else {
                0nat
            }
        }),
{
    if max_child == 0 {
        law_zero_children_acts_as_one(t, cl, depth_limit);
    }
    let c = child_cap(max_child);
    lemma_first_layer(t, cl.event.len(), depth_limit, c);
    let (t1, first) = first_layer(t, cl.event.len());
    lemma_descend(t1, first, cl, 0, depth_limit, c);
}

/// The node reached from node `cur` by the tokens of `cl` from position `i`
/// on: each step takes the child keyed by the token, or else the wildcard
/// child, until the depth limit is reached; `None` when a step finds neither
/// or the message runs out of tokens first.
pub open spec fn walk(t: Seq<NodeView>, cur: int, cl: ClusterView, i: nat, depth_limit: nat) -> Option<int>
    decreases cl.event.len() - i,
{
    if i >= cl.event.len() {
        None
    } else if i + 1 >= depth_limit {
        Some(cur)
    } else {
        let ch = children_of(t[cur]);
        match lookup(ch, cl.event[i as int]) {
            Some(nx) => walk(t, nx as int, cl, i + 1, depth_limit),
            None => match lookup(ch, wildcard()) {
                Some(w) => walk(t, w as int, cl, i + 1, depth_limit),
                None => None,
            },
        }
    }
}

/// The node where the cluster `cl` belongs in `t`: from the root's child
/// keyed by its number of tokens, the [`walk`] by its tokens.
pub open spec fn find_leaf(t: Seq<NodeView>, cl: ClusterView, depth_limit: nat) -> Option<int> {
    match lookup(children_of(t[0]), decimal(cl.event.len())) {
        Some(f) => walk(t, f as int, cl, 0, depth_limit),
        None => None,
    }
}

/// Descending leaves behind the path that the walk follows.
proof fn lemma_walk_descend(t: Seq<NodeView>, cur: int, cl: ClusterView, i: nat, depth_limit: nat, max_child: nat)
    requires
        wf_tree(t, depth_limit, max_child),
        max_child >= 1,
        0 < cur < t.len(),
        t[cur].depth == i + 1,
    ensures
        walk(descend(t, cur, cl, i, depth_limit, max_child).0, cur, cl, i, depth_limit) == descend(
            t,
            cur,
            cl,
            i,
            depth_limit,
            max_child,
        ).1,
    decreases cl.event.len() - i,
{
    if i >= cl.event.len() {
    } else if i + 1 >= depth_limit || i + 1 > cl.event.len() {
    } else {
        let tok = cl.event[i as int];
        let (tm, nx) = route(t, cur, tok, i + 1, max_child);
        assert(node_ok(t, cur, depth_limit, max_child));
        lemma_route_wf(t, cur, tok, i + 1, depth_limit, max_child);
        lemma_route_frame(t, cur, tok, i + 1, max_child);
        lemma_descend(tm, nx, cl, i + 1, depth_limit, max_child);
        lemma_walk_descend(tm, nx, cl, i + 1, depth_limit, max_child);
        let t2 = descend(tm, nx, cl, i + 1, depth_limit, max_child).0;
        assert(t2[cur] == tm[cur]);
        let ch = children_of(t[cur]);
        lemma_wildcard_no_digit();
        lemma_lookup_push(ch, (tok, t.len()), tok);
        lemma_lookup_push(ch, (tok, t.len()), wildcard());
        lemma_lookup_push(ch, (wildcard(), t.len()), tok);
        lemma_lookup_push(ch, (wildcard(), t.len()), wildcard());
    }
}

/// Law: the walk by tokens finds what was added: after adding cluster `cl`,
/// starting at the root's child keyed by its number of tokens and taking at
/// each step the child keyed by the next token, or else the wildcard child,
/// reaches the leaf that got `cl` (whose clusters end with `cl`, see
/// [`law_insert_adds_one_cluster`]), and nothing when `cl` was not stored.
/// With `max_child` 0 this holds where the adding succeeds.
pub proof fn law_walk_finds_inserted(t: Seq<NodeView>, cl: ClusterView, depth_limit: nat, max_child: nat)
    requires
        wf_tree(t, depth_limit, child_cap(max_child)),
        max_child >= 1 || insert_ok(t, cl, depth_limit, 0),
    ensures
        find_leaf(insert_cluster(t, cl, depth_limit, max_child).0, cl, depth_limit) == insert_cluster(
            t,
            cl,
            depth_limit,
            max_child,
        ).1,
{
    if max_child == 0 {
        law_zero_children_acts_as_one(t, cl, depth_limit);
    }
    let c = child_cap(max_child);
    let n = cl.event.len();
    let key = decimal(n);
    lemma_first_layer(t, n, depth_limit, c);
    let (t1, first) = first_layer(t, n);
    lemma_descend(t1, first, cl, 0, depth_limit, c);
    lemma_walk_descend(t1, first, cl, 0, depth_limit, c);
    let t2 = descend(t1, first, cl, 0, depth_limit, c).0;
    assert(t2[0] == t1[0]);
    lemma_lookup_push(children_of(t[0]), (key, t.len()), key);
}

/// Along the walk of `cl` from node `cur` (position `i`), every step that
/// takes the wildcard for a token that is no key there is forced: the token
/// has a digit or the node has no room for another child.
pub open spec fn walk_forced(
    t: Seq<NodeView>,
    cur: int,
    cl: ClusterView,
    i: nat,
    depth_limit: nat,
    max_child: nat,
) -> bool
    decreases cl.event.len() - i,
{
    if i >= cl.event.len() || i + 1 >= depth_limit {
        true
    } else {
        let ch = children_of(t[cur]);
        let x = cl.event[i as int];
        match lookup(ch, x) {
            Some(nx) => walk_forced(t, nx as int, cl, i + 1, depth_limit, max_child),
            None => {
                &&& (has_digit(x) || ch.len() >= max_child)
                &&& match lookup(ch, wildcard()) {
                    Some(w) => walk_forced(t, w as int, cl, i + 1, depth_limit, max_child),
                    None => true,
                }
            },
        }
    }
}

/// Cluster `c` sits at node `j` of `t`: the walk by its tokens from the
/// root's child keyed by its number of tokens leads to `j`, taking the
/// wildcard only where forced (see [`walk_forced`]).
pub open spec fn sits(t: Seq<NodeView>, c: ClusterView, j: int, depth_limit: nat, max_child: nat) -> bool {
    &&& find_leaf(t, c, depth_limit) == Some(j)
    &&& match lookup(children_of(t[0]), decimal(c.event.len())) {
        Some(f) => walk_forced(t, f as int, c, 0, depth_limit, max_child),
        None => false,
    }
}

/// Every cluster stored in `t` sits where the walk by its tokens leads.
pub open spec fn clusters_placed(t: Seq<NodeView>, depth_limit: nat, max_child: nat) -> bool {
    forall|j: int, k: int|
        0 <= j < t.len() && 0 <= k < clusters_of(t[j]).len() ==> sits(
            t,
            #[trigger] clusters_of(t[j])[k],
            j,
            depth_limit,
            max_child,
        )
}

/// The keys of the root's children are numbers of tokens, in decimal.
pub open spec fn root_keys_are_lengths(t: Seq<NodeView>) -> bool {
    forall|j: int|
        0 <= j < children_of(t[0]).len() ==> exists|n: nat| #[trigger] children_of(t[0])[j].0 == decimal(n)
}

/// A walk reads only the children of the nodes it passes: a tree with the
/// same children at every node of `t` gives the same walk.
proof fn lemma_walk_same_children(
    t: Seq<NodeView>,
    t2: Seq<NodeView>,
    cur: int,
    c: ClusterView,
    i: nat,
    depth_limit: nat,
    max_child: nat,
)
    requires
        wf_tree(t, depth_limit, max_child),
        t.len() <= t2.len(),
        forall|x: int| 0 <= x < t.len() ==> #[trigger] children_of(t2[x]) == children_of(t[x]),
        0 <= cur < t.len(),
    ensures
        walk(t2, cur, c, i, depth_limit) == walk(t, cur, c, i, depth_limit),
        walk_forced(t2, cur, c, i, depth_limit, max_child) == walk_forced(t, cur, c, i, depth_limit, max_child),
    decreases c.event.len() - i,
{
    if i >= c.event.len() || i + 1 >= depth_limit {
    } else {
        let ch = children_of(t[cur]);
        assert(children_of(t2[cur]) == ch);
        let x = c.event[i as int];
        match lookup(ch, x) {
            Some(nx) => {
                lemma_lookup_child(t, cur, x, depth_limit, max_child);
                lemma_walk_same_children(t, t2, nx as int, c, i + 1, depth_limit, max_child);
            },
            None => {
                match lookup(ch, wildcard()) {
                    Some(w) => {
                        lemma_lookup_child(t, cur, wildcard(), depth_limit, max_child);
                        lemma_walk_same_children(t, t2, w as int, c, i + 1, depth_limit, max_child);
                    },
                    None => {},
                }
            },
        }
    }
}

/// Adding a child at node `p` leaves every found, forced walk as it was,
/// when the new key is no token that such a walk passes by: the root's
/// child, the wildcard, or a token without digit at a node with room.
proof fn lemma_walk_with_child(
    t: Seq<NodeView>,
    p: int,
    key: Seq<char>,
    depth: nat,
    cur: int,
    c: ClusterView,
    i: nat,
    depth_limit: nat,
    max_child: nat,
)
    requires
        wf_tree(t, depth_limit, max_child),
        0 <= p < t.len(),
        t[p].content is Children,
        lookup(children_of(t[p]), key) is None,
        p == 0 || key == wildcard() || (!has_digit(key) && children_of(t[p]).len() < max_child),
        0 < cur < t.len(),
        walk(t, cur, c, i, depth_limit) is Some,
        walk_forced(t, cur, c, i, depth_limit, max_child),
    ensures
        walk(with_child(t, p, key, depth), cur, c, i, depth_limit) == walk(t, cur, c, i, depth_limit),
        walk_forced(with_child(t, p, key, depth), cur, c, i, depth_limit, max_child),
    decreases c.event.len() - i,
{
    let t2 = with_child(t, p, key, depth);
    if i >= c.event.len() || i + 1 >= depth_limit {
    } else {
        let ch = children_of(t[cur]);
        let x = c.event[i as int];
        assert(node_ok(t, cur, depth_limit, max_child));
        if cur != p {
            assert(t2[cur] == t[cur]);
        } else {
            lemma_lookup_push(ch, (key, t.len()), x);
            lemma_lookup_push(ch, (key, t.len()), wildcard());
        }
        match lookup(ch, x) {
            Some(nx) => {
                lemma_lookup_child(t, cur, x, depth_limit, max_child);
                assert(node_ok(t, nx as int, depth_limit, max_child));
                lemma_walk_with_child(t, p, key, depth, nx as int, c, i + 1, depth_limit, max_child);
            },
            None => {
                match lookup(ch, wildcard()) {
                    Some(w) => {
                        lemma_lookup_child(t, cur, wildcard(), depth_limit, max_child);
                        assert(node_ok(t, w as int, depth_limit, max_child));
                        lemma_walk_with_child(t, p, key, depth, w as int, c, i + 1, depth_limit, max_child);
                    },
                    None => {},
                }
            },
        }
    }
}

/// Adding a child keeps each cluster where it sits, under the conditions of
/// [`lemma_walk_with_child`].
proof fn lemma_sits_with_child(
    t: Seq<NodeView>,
    p: int,
    key: Seq<char>,
    depth: nat,
    c: ClusterView,
    j: int,
    depth_limit: nat,
    max_child: nat,
)
    requires
        wf_tree(t, depth_limit, max_child),
        0 <= p < t.len(),
        t[p].content is Children,
        lookup(children_of(t[p]), key) is None,
        p == 0 || key == wildcard() || (!has_digit(key) && children_of(t[p]).len() < max_child),
        sits(t, c, j, depth_limit, max_child),
    ensures
        sits(with_child(t, p, key, depth), c, j, depth_limit, max_child),
{
    let t2 = with_child(t, p, key, depth);
    let dk = decimal(c.event.len());
    let ch0 = children_of(t[0]);
    let f = lookup(ch0, dk)->0;
    if p == 0 {
        lemma_lookup_push(ch0, (key, t.len()), dk);
    } else {
        assert(t2[0] == t[0]);
    }
    lemma_lookup_child(t, 0, dk, depth_limit, max_child);
    assert(node_ok(t, f as int, depth_limit, max_child));
    lemma_walk_with_child(t, p, key, depth, f as int, c, 0, depth_limit, max_child);
}

/// Storing a cluster at a node without children keeps each cluster where it
/// sits.
proof fn lemma_sits_with_cluster(
    t: Seq<NodeView>,
    q: int,
    cl: ClusterView,
    c: ClusterView,
    j: int,
    depth_limit: nat,
    max_child: nat,
)
    requires
        wf_tree(t, depth_limit, max_child),
        0 < q < t.len(),
        children_of(t[q]) =~= Seq::<(Seq<char>, nat)>::empty(),
        sits(t, c, j, depth_limit, max_child),
    ensures
        sits(with_cluster(t, q, cl), c, j, depth_limit, max_child),
{
    let t2 = with_cluster(t, q, cl);
    assert forall|x: int| 0 <= x < t.len() implies #[trigger] children_of(t2[x]) == children_of(t[x]) by {
        if x == q {
            assert(children_of(t2[x]) =~= Seq::<(Seq<char>, nat)>::empty());
        }
    }
    let dk = decimal(c.event.len());
    let f = lookup(children_of(t[0]), dk)->0;
    lemma_lookup_child(t, 0, dk, depth_limit, max_child);
    lemma_walk_same_children(t, t2, f as int, c, 0, depth_limit, max_child);
}

/// Descending with one cluster keeps every other cluster where it sits.
proof fn lemma_sits_descend(
    t: Seq<NodeView>,
    cur: int,
    cl: ClusterView,
    i: nat,
    depth_limit: nat,
    max_child: nat,
    c: ClusterView,
    j: int,
)
    requires
        wf_tree(t, depth_limit, max_child),
        max_child >= 1,
        0 < cur < t.len(),
        t[cur].depth == i + 1,
        sits(t, c, j, depth_limit, max_child),
    ensures
        sits(descend(t, cur, cl, i, depth_limit, max_child).0, c, j, depth_limit, max_child),
    decreases cl.event.len() - i,
{
    if i >= cl.event.len() {
    } else if i + 1 >= depth_limit || i + 1 > cl.event.len() {
        assert(node_ok(t, cur, depth_limit, max_child));
        assert(children_of(t[cur]) =~= Seq::<(Seq<char>, nat)>::empty());
        lemma_sits_with_cluster(t, cur, cl, c, j, depth_limit, max_child);
    } else {
        let tok = cl.event[i as int];
        let ch = children_of(t[cur]);
        assert(node_ok(t, cur, depth_limit, max_child));
        lemma_route_wf(t, cur, tok, i + 1, depth_limit, max_child);
        let (tm, nx) = route(t, cur, tok, i + 1, max_child);
        match lookup(ch, tok) {
            Some(_) => {},
            None => {
                if !has_digit(tok) {
                    match lookup(ch, wildcard()) {
                        Some(_) => {
                            if ch.len() < max_child {
                                lemma_sits_with_child(t, cur, tok, i + 2, c, j, depth_limit, max_child);
                            }
                        },
                        None => {
                            if ch.len() + 1 < max_child {
                                lemma_sits_with_child(t, cur, tok, i + 2, c, j, depth_limit, max_child);
                            } else {
                                lemma_sits_with_child(t, cur, wildcard(), i + 2, c, j, depth_limit, max_child);
                            }
                        },
                    }
                } else {
                    match lookup(ch, wildcard()) {
                        Some(_) => {},
                        None => {
                            lemma_sits_with_child(t, cur, wildcard(), i + 2, c, j, depth_limit, max_child);
                        },
                    }
                }
            },
        }
        assert(sits(tm, c, j, depth_limit, max_child));
        lemma_sits_descend(tm, nx, cl, i + 1, depth_limit, max_child, c, j);
    }
}

/// The walk of the cluster being added takes the wildcard only where
/// forced.
proof fn lemma_forced_descend(t: Seq<NodeView>, cur: int, cl: ClusterView, i: nat, depth_limit: nat, max_child: nat)
    requires
        wf_tree(t, depth_limit, max_child),
        max_child >= 1,
        0 < cur < t.len(),
        t[cur].depth == i + 1,
    ensures
        walk_forced(descend(t, cur, cl, i, depth_limit, max_child).0, cur, cl, i, depth_limit, max_child),
    decreases cl.event.len() - i,
{
    if i >= cl.event.len() {
    } else if i + 1 >= depth_limit || i + 1 > cl.event.len() {
    } else {
        let tok = cl.event[i as int];
        let (tm, nx) = route(t, cur, tok, i + 1, max_child);
        assert(node_ok(t, cur, depth_limit, max_child));
        lemma_route_wf(t, cur, tok, i + 1, depth_limit, max_child);
        lemma_route_frame(t, cur, tok, i + 1, max_child);
        lemma_descend(tm, nx, cl, i + 1, depth_limit, max_child);
        lemma_forced_descend(tm, nx, cl, i + 1, depth_limit, max_child);
        let t2 = descend(tm, nx, cl, i + 1, depth_limit, max_child).0;
        assert(t2[cur] == tm[cur]);
        let ch = children_of(t[cur]);
        lemma_wildcard_no_digit();
        lemma_lookup_push(ch, (tok, t.len()), tok);
        lemma_lookup_push(ch, (tok, t.len()), wildcard());
        lemma_lookup_push(ch, (wildcard(), t.len()), tok);
        lemma_lookup_push(ch, (wildcard(), t.len()), wildcard());
    }
}

/// The clusters of node `j` of `t`, none for a node beyond `t`.
pub open spec fn clusters_before(t: Seq<NodeView>, j: int) -> Seq<ClusterView> {
    if j < t.len() {
        clusters_of(t[j])
    } else {
        seq![]
    }
}

/// Descending changes the clusters of the leaf only, by appending the
/// cluster.
proof fn lemma_descend_clusters(t: Seq<NodeView>, cur: int, cl: ClusterView, i: nat, depth_limit: nat, max_child: nat)
    requires
        wf_tree(t, depth_limit, max_child),
        max_child >= 1,
        0 < cur < t.len(),
        t[cur].depth == i + 1,
    ensures
        ({
            let (t2, leaf) = descend(t, cur, cl, i, depth_limit, max_child);
            forall|j: int|
                0 <= j < t2.len() ==> #[trigger] clusters_of(t2[j]) == if leaf == Some(j) {
                    clusters_before(t, j).push(cl)
                } else {
                    clusters_before(t, j)
                }
        }),
    decreases cl.event.len() - i,
{
    if i >= cl.event.len() {
    } else if i + 1 >= depth_limit || i + 1 > cl.event.len() {
    } else {
        let tok = cl.event[i as int];
        let (tm, nx) = route(t, cur, tok, i + 1, max_child);
        assert(node_ok(t, cur, depth_limit, max_child));
        lemma_route_wf(t, cur, tok, i + 1, depth_limit, max_child);
        lemma_route_frame(t, cur, tok, i + 1, max_child);
        lemma_descend_clusters(tm, nx, cl, i + 1, depth_limit, max_child);
        lemma_descend(tm, nx, cl, i + 1, depth_limit, max_child);
        let (t2, leaf) = descend(tm, nx, cl, i + 1, depth_limit, max_child);
        assert forall|j: int| 0 <= j < t2.len() implies #[trigger] clusters_before(tm, j) == clusters_before(
            t,
            j,
        ) by {
            if j < t.len() && j != cur {
                assert(tm[j] == t[j]);
            }
        }
    }
}

/// The tree holding only the root has every cluster in place and only
/// lengths as root keys, having neither.
pub proof fn lemma_empty_tree_placed(depth_limit: nat, max_child: nat)
    ensures
        clusters_placed(empty_tree(), depth_limit, max_child),
        root_keys_are_lengths(empty_tree()),
{
}

/// Law: the shape of a prefix tree is kept by adding a cluster: the root's
/// keys are numbers of tokens in decimal, and every stored cluster sits
/// where the walk by its tokens leads, from the root's child keyed by its
/// number of tokens, taking the wildcard only where its token has a digit
/// or the node is full (so a cluster sits under the first-layer node of its
/// length). Together with [`law_insert_keeps_wf`] (children one level
/// deeper carrying their key, distinct keys, at most `max_child` children,
/// digit-free keys below the first layer) and [`lemma_leaves_at_leaf_depth`]
/// this is the invariant of the trees that Drain builds from the empty tree.
/// With `max_child` 0 this holds where the adding succeeds.
pub proof fn law_insert_keeps_clusters_placed(t: Seq<NodeView>, cl: ClusterView, depth_limit: nat, max_child: nat)
    requires
        wf_tree(t, depth_limit, child_cap(max_child)),
        max_child >= 1 || insert_ok(t, cl, depth_limit, 0),
        clusters_placed(t, depth_limit, child_cap(max_child)),
        root_keys_are_lengths(t),
    ensures
        clusters_placed(insert_cluster(t, cl, depth_limit, max_child).0, depth_limit, child_cap(max_child)),
        root_keys_are_lengths(insert_cluster(t, cl, depth_limit, max_child).0),
{
    if max_child == 0 {
        law_zero_children_acts_as_one(t, cl, depth_limit);
    }
    let m = child_cap(max_child);
    let n = cl.event.len();
    let key = decimal(n);
    let ch0 = children_of(t[0]);
    lemma_first_layer(t, n, depth_limit, m);
    let (t1, first) = first_layer(t, n);
    lemma_descend(t1, first, cl, 0, depth_limit, m);
    lemma_descend_clusters(t1, first, cl, 0, depth_limit, m);
    lemma_forced_descend(t1, first, cl, 0, depth_limit, m);
    law_walk_finds_inserted(t, cl, depth_limit, max_child);
    let (t2, leaf) = descend(t1, first, cl, 0, depth_limit, m);
    assert(t2[0] == t1[0]);
    lemma_lookup_push(ch0, (key, t.len()), key);
    assert(node_ok(t, 0, depth_limit, m));
    assert forall|x: int| 0 <= x < t1.len() implies #[trigger] clusters_before(t1, x) == clusters_before(t, x) by {
        if x >= t.len() {
            assert(x == t.len());
            assert(t1 == with_child(t, 0, key, 1));
        }
    }
    assert forall|j: int, k: int|
        0 <= j < t2.len() && 0 <= k < clusters_of(t2[j]).len() implies sits(
        t2,
        #[trigger] clusters_of(t2[j])[k],
        j,
        depth_limit,
        m,
    ) by {
        let b = clusters_before(t, j);
        assert(clusters_before(t1, j) == b);
        if leaf == Some(j) && k == b.len() {
            assert(clusters_of(t2[j])[k] == cl);
        } else {
            assert(clusters_of(t2[j])[k] == b[k]);
            assert(j < t.len());
            assert(b[k] == clusters_of(t[j])[k]);
            assert(sits(t, clusters_of(t[j])[k], j, depth_limit, m));
            if lookup(ch0, key) is None {
                lemma_sits_with_child(t, 0, key, 1, b[k], j, depth_limit, m);
            }
            lemma_sits_descend(t1, first, cl, 0, depth_limit, m, b[k], j);
        }
    }
    assert forall|j: int| 0 <= j < children_of(t2[0]).len() implies exists|nn: nat| #[trigger] children_of(t2[0])[j].0 == decimal(nn) by {
        if j < ch0.len() {
            assert(children_of(t2[0])[j] == ch0[j]);
        } else {
            assert(children_of(t2[0])[j].0 == decimal(n));
        }
    }
}

/// In a well-formed tree every leaf sits at the leaf depth: the depth
/// limit, but at least 1.
pub proof fn lemma_leaves_at_leaf_depth(t: Seq<NodeView>, depth_limit: nat, max_child: nat)
    requires
        wf_tree(t, depth_limit, max_child),
    ensures
        forall|j: int| 0 <= j < t.len() && #[trigger] t[j].content is Clusters ==> t[j].depth == leaf_depth(depth_limit),
{
    assert forall|j: int| 0 <= j < t.len() && #[trigger] t[j].content is Clusters implies t[j].depth == leaf_depth(
        depth_limit,
    ) by {
        assert(node_ok(t, j, depth_limit, max_child));
    }
}

/// Law: at a node of a well-formed tree, a token that is not a key there
/// and has a digit anywhere (one of `0` to `9`) leads to the wildcard
/// child `<*>`, whatever the room.
pub proof fn law_digit_token_goes_to_wildcard(
    t: Seq<NodeView>,
    cur: int,
    tok: Seq<char>,
    depth_limit: nat,
    max_child: nat,
)
    requires
        wf_tree(t, depth_limit, max_child),
        max_child >= 1,
        0 <= cur < t.len(),
        1 <= t[cur].depth < depth_limit,
        lookup(children_of(t[cur]), tok) is None,
        exists|i: int| 0 <= i < tok.len() && '0' <= #[trigger] tok[i] && tok[i] <= '9',
    ensures
        ({
            let (t2, nx) = route(t, cur, tok, t[cur].depth, max_child);
            &&& 0 <= nx < t2.len()
            &&& t2[nx].token == wildcard()
        }),
{
    law_has_digit_anywhere(tok);
    let ch = children_of(t[cur]);
    assert(node_ok(t, cur, depth_limit, max_child));
    match lookup(ch, wildcard()) {
        Some(w) => {
            lemma_lookup_child(t, cur, wildcard(), depth_limit, max_child);
        },
        None => {},
    }
}

/// A token with a digit is never the wildcard.
proof fn lemma_wildcard_no_digit()
    ensures
        !has_digit(wildcard()),
{
    assert forall|i: int| 0 <= i < wildcard().len() implies !is_digit_char(
        #[trigger] wildcard()[i],
    ) by {}
}

/// Replaying a step: when node `p` of `big` holds the children that the
/// step of one message along `tok` left at `p`, a second message with the
/// same token takes the same step and changes nothing.
proof fn lemma_route_replay(
    t: Seq<NodeView>,
    p: int,
    tok: Seq<char>,
    depth: nat,
    max_child: nat,
    big: Seq<NodeView>,
)
    requires
        0 <= p < t.len(),
        0 <= p < big.len(),
        t[p].content is Children,
        children_of(big[p]) == children_of(route(t, p, tok, depth, max_child).0[p]),
    ensures
        route(big, p, tok, depth, max_child) == (big, route(t, p, tok, depth, max_child).1),
{
    let ch = children_of(t[p]);
    lemma_wildcard_no_digit();
    lemma_lookup_push(ch, (tok, t.len()), tok);
    lemma_lookup_push(ch, (tok, t.len()), wildcard());
    lemma_lookup_push(ch, (wildcard(), t.len()), tok);
    lemma_lookup_push(ch, (wildcard(), t.len()), wildcard());
}

/// Two messages of the same length that agree on the tokens used for
/// routing, walked from the same node: the second, walked in the tree the
/// first left, reaches the first one's leaf.
proof fn lemma_descend_replay(
    t: Seq<NodeView>,
    p: int,
    a: ClusterView,
    b: ClusterView,
    i: nat,
    depth_limit: nat,
    max_child: nat,
)
    requires
        wf_tree(t, depth_limit, max_child),
        max_child >= 1,
        0 < p < t.len(),
        t[p].depth == i + 1,
        a.event.len() == b.event.len(),
        forall|k: int| i <= k < a.event.len() && k + 1 < depth_limit ==> a.event[k] == b.event[k],
    ensures
        descend(descend(t, p, a, i, depth_limit, max_child).0, p, b, i, depth_limit, max_child).1
            == descend(t, p, a, i, depth_limit, max_child).1,
    decreases a.event.len() - i,
{
    if i >= a.event.len() {
    } else if i + 1 >= depth_limit || i + 1 > a.event.len() {
    } else {
        let (tm, nx) = route(t, p, a.event[i as int], i + 1, max_child);
        assert(node_ok(t, p, depth_limit, max_child));
        lemma_route_wf(t, p, a.event[i as int], i + 1, depth_limit, max_child);
        lemma_descend(tm, nx, a, i + 1, depth_limit, max_child);
        let ta = descend(tm, nx, a, i + 1, depth_limit, max_child).0;
        assert(ta[p] == tm[p]);
        lemma_route_replay(t, p, a.event[i as int], i + 1, max_child, ta);
        assert(b.event[i as int] == a.event[i as int]);
        lemma_descend_replay(tm, nx, a, b, i + 1, depth_limit, max_child);
    }
}

/// Law: messages are grouped by length and leading tokens: two messages
/// with the same number of tokens that agree on every token used for
/// routing (the first `depth_limit - 1`) end in the same leaf, the second
/// one added after the first. With `max_child` 0 this holds where both
/// addings succeed.
pub proof fn law_same_prefix_same_leaf(
    t: Seq<NodeView>,
    a: ClusterView,
    b: ClusterView,
    depth_limit: nat,
    max_child: nat,
)
    requires
        wf_tree(t, depth_limit, child_cap(max_child)),
        max_child >= 1 || (insert_ok(t, a, depth_limit, 0) && insert_ok(
            insert_cluster(t, a, depth_limit, 0).0,
            b,
            depth_limit,
            0,
        )),
        a.event.len() == b.event.len(),
        forall|k: int| 0 <= k < a.event.len() && k + 1 < depth_limit ==> a.event[k] == b.event[k],
    ensures
        insert_cluster(insert_cluster(t, a, depth_limit, max_child).0, b, depth_limit, max_child).1
            == insert_cluster(t, a, depth_limit, max_child).1,
{
    if max_child == 0 {
        law_zero_children_acts_as_one(t, a, depth_limit);
        law_zero_children_acts_as_one(insert_cluster(t, a, depth_limit, 0).0, b, depth_limit);
    }
    let c = child_cap(max_child);
    let n = a.event.len();
    let key = decimal(n);
    lemma_first_layer(t, n, depth_limit, c);
    let (t1, first) = first_layer(t, n);
    lemma_descend(t1, first, a, 0, depth_limit, c);
    let ta = descend(t1, first, a, 0, depth_limit, c).0;
    assert(ta[0] == t1[0]);
    lemma_lookup_push(children_of(t[0]), (key, t.len()), key);
    assert(first_layer(ta, n) == (ta, first));
    lemma_descend_replay(t1, first, a, b, 0, depth_limit, c);
}

/// `n` tab characters.
pub open spec fn tabs(n: nat) -> Seq<char> {
    Seq::new(n, |i: int| '\t')
}

/// The line shown for node `n` indented by `dep` tabs: `Root` for the root,
/// `<token>` on the first layer, the token below.
pub open spec fn node_line(n: NodeView, dep: nat) -> Seq<char> {
    tabs(dep) + if n.depth == 0 {
        seq!['R', 'o', 'o', 't']
    } else if n.depth == 1 {
        seq!['<'] + n.token + seq!['>']
    } else {
        n.token
    }
}

/// The lines shown for the subtree at `node`, depth first, each child one
/// tab further in; the walk stops at the depth limit.
pub open spec fn subtree_lines(t: Seq<NodeView>, node: int, dep: nat, depth_limit: nat) -> Seq<
    Seq<char>,
>
    decreases depth_limit - t[node].depth, 1int, 0int,
{
    let line = node_line(t[node], dep);
    if t[node].depth >= depth_limit {
        seq![line]
    } else {
        seq![line] + children_lines(t, children_of(t[node]), dep + 1, depth_limit, t[node].depth)
    }
}

/// The lines of the subtrees of the children `ch` of a node of depth `pd`,
/// in the order of `ch`.
pub open spec fn children_lines(
    t: Seq<NodeView>,
    ch: Seq<(Seq<char>, nat)>,
    dep: nat,
    depth_limit: nat,
    pd: nat,
) -> Seq<Seq<char>>
    decreases depth_limit - pd, 0int, ch.len(),
{
    if ch.len() == 0 {
        seq![]
    } else {
        let c = ch.last().1 as int;
        let rest = children_lines(t, ch.drop_last(), dep, depth_limit, pd);
        if 0 <= c < t.len() && pd < t[c].depth <= depth_limit {
            rest + subtree_lines(t, c, dep, depth_limit)
        } else {
            rest
        }
    }
}

/// The tree holding only the root.
pub open spec fn empty_tree() -> Seq<NodeView> {
    seq![NodeView { depth: 0, token: seq![], content: ContentView::Children(seq![]) }]
}

/// The tree that holds only the root is well formed.
pub proof fn lemma_empty_tree_wf(depth_limit: nat, max_child: nat)
    ensures
        wf_tree(empty_tree(), depth_limit, max_child),
{
    let t = empty_tree();
    assert(node_ok(t, 0, depth_limit, max_child));
}

impl PrefixTree {
    /// The tree that holds only the root.
    pub fn new() -> (r: Self)
        ensures
            r@ == empty_tree(),
    {
        let root = Node::new(None, None);
        let mut nodes: Vec<Node> = Vec::new();
        nodes.push(root);
        let r = PrefixTree { nodes };
        assert(r@ =~= empty_tree());
        r
    }

    /// The number of nodes fits in a `usize`.
    pub proof fn lemma_size_fits(&self)
        ensures
            self@.len() <= usize::MAX,
    {
        assert(self@.len() == self.nodes@.len());
        assert(self.nodes@.len() == self.nodes.len());
    }

    /// Number of nodes, the root included.
    pub fn len(&self) -> (r: usize)
        ensures
            r == self@.len(),
    {
        self.nodes.len()
    }

    /// The node that `key` leads to among the children of `node`.
    pub fn find_child(&self, node: usize, key: &String) -> (r: Option<usize>)
        requires
            node < self@.len(),
        ensures
            match r {
                Some(x) => lookup(children_of(self@[node as int]), key@) == Some(x as nat),
                None => lookup(children_of(self@[node as int]), key@) is None,
            },
    {
        match &self.nodes[node].child_or_logcluster {
            ChildOrLogCluster::Children(ch) => {
                let ghost cv = ch@.map_values(|e: (String, usize)| (e.0@, e.1 as nat));
                assert(children_of(self@[node as int]) == cv);
                let mut i: usize = 0;
                assert(cv.skip(0) =~= cv);
                while i < ch.len()
                    invariant
                        cv == ch@.map_values(|e: (String, usize)| (e.0@, e.1 as nat)),
                        children_of(self@[node as int]) == cv,
                        i <= ch.len(),
                        lookup(cv, key@) == lookup(cv.skip(i as int), key@),
                    decreases ch.len() - i,
                {
                    assert(cv.skip(i as int)[0] == cv[i as int]);
                    assert(cv[i as int] == (ch@[i as int].0@, ch@[i as int].1 as nat));
                    if ch[i].0 == *key {
                        assert(cv[i as int].0 == key@);
                        assert(lookup(cv.skip(i as int), key@) == Some(cv[i as int].1));
                        return Some(ch[i].1);
                    }
                    assert(cv.skip(i as int).drop_first() =~= cv.skip(i + 1));
                    i = i + 1;
                }
                assert(cv.skip(i as int) =~= Seq::<(Seq<char>, nat)>::empty());
                None
            },
            ChildOrLogCluster::LogClusters(_) => None,
        }
    }

    /// Number of children of `node` (0 for a leaf).
    pub fn child_count(&self, node: usize) -> (r: usize)
        requires
            node < self@.len(),
        ensures
            r == children_of(self@[node as int]).len(),
    {
        match &self.nodes[node].child_or_logcluster {
            ChildOrLogCluster::Children(ch) => ch.len(),
            ChildOrLogCluster::LogClusters(_) => 0,
        }
    }

    /// Number of clusters stored at `node` (0 for an inner node).
    pub fn cluster_count(&self, node: usize) -> (r: usize)
        requires
            node < self@.len(),
        ensures
            r == clusters_of(self@[node as int]).len(),
    {
        match &self.nodes[node].child_or_logcluster {
            ChildOrLogCluster::Children(_) => 0,
            ChildOrLogCluster::LogClusters(cs) => cs.len(),
        }
    }

    fn add_child(&mut self, parent: usize, key: String, depth: usize) -> (idx: usize)
        requires
            parent < old(self)@.len(),
            old(self)@[parent as int].content is Children,
        ensures
            idx == old(self)@.len(),
            final(self)@ == with_child(old(self)@, parent as int, key@, depth as nat),
    {
        let ghost t = self@;
        let idx = self.nodes.len();
        let k2 = key.clone();
        let node = Node::new(Some(depth), Some(k2));
        let ghost nv = node@;
        self.nodes.push(node);
        assert(self@ =~= t.push(nv));
        let ghost kv = key@;
        match &mut self.nodes[parent].child_or_logcluster {
            ChildOrLogCluster::Children(ch) => {
                let ghost before = ch@;
                ch.push((key, idx));
                assert(ch@.map_values(|e: (String, usize)| (e.0@, e.1 as nat)) =~= before.map_values(
                    |e: (String, usize)| (e.0@, e.1 as nat),
                ).push((kv, idx as nat)));
            },
            ChildOrLogCluster::LogClusters(_) => {},
        }
        assert(self@[parent as int] == with_child(t, parent as int, kv, depth as nat)[parent as int]);
        assert(self@ =~= with_child(t, parent as int, kv, depth as nat));
        idx
    }

    fn add_cluster(&mut self, node: usize, cl: LogCluster)
        requires
            node < old(self)@.len(),
        ensures
            final(self)@ == with_cluster(old(self)@, node as int, cl@),
    {
        let ghost t = self@;
        let ghost cv = cl@;
        if let ChildOrLogCluster::LogClusters(v) = &mut self.nodes[node].child_or_logcluster {
            let ghost before = v@;
            v.push(cl);
            assert(v@.map_values(|c: LogCluster| c@) =~= before.map_values(|c: LogCluster| c@).push(cv));
        } else {
            let mut v: Vec<LogCluster> = Vec::new();
            v.push(cl);
            assert(v@.map_values(|c: LogCluster| c@) =~= seq![cv]);
            self.nodes[node].child_or_logcluster = ChildOrLogCluster::LogClusters(v);
        }
        assert(self@[node as int] == with_cluster(t, node as int, cv)[node as int]);
        assert(self@ =~= with_cluster(t, node as int, cv));
    }

    /// The line shown for `node` indented by `dep` tabs.
    fn node_text(&self, node: usize, dep: usize) -> (r: String)
        requires
            node < self@.len(),
        ensures
            r@ == node_line(self@[node as int], dep as nat),
    {
        let n = &self.nodes[node];
        let mut cs: Vec<char> = Vec::new();
        let mut k: usize = 0;
        while k < dep
            invariant
                k <= dep,
                cs@ =~= tabs(k as nat),
            decreases dep - k,
        {
            cs.push('\t');
            k = k + 1;
        }
        let tok = chars_of(n.digit_or_token.as_str());
        let mut rest: Vec<char> = Vec::new();
        if n.depth == 0 {
            let root = chars_of("Root");
            proof {
                reveal_strlit("Root");
            }
            rest = root;
        } else if n.depth == 1 {
            rest.push('<');
            let mut j: usize = 0;
            while j < tok.len()
                invariant
                    j <= tok.len(),
                    rest@ =~= seq!['<'] + tok@.take(j as int),
                decreases tok.len() - j,
            {
                rest.push(tok[j]);
                j = j + 1;
            }
            rest.push('>');
            assert(tok@.take(tok@.len() as int) =~= tok@);
        } else {
            rest = tok;
        }
        cs.append(&mut rest);
        let r = string_from_chars(cs.as_slice());
        assert(r@ =~= node_line(self@[node as int], dep as nat));
        r
    }

    /// The lines shown for the subtree at `node`, its own line indented by
    /// `dep` tabs (see [`subtree_lines`]).
    pub fn subtree_text(&self, node: usize, dep: usize, depth_limit: usize, max_child: usize) -> (r: Vec<String>)
        requires
            wf_tree(self@, depth_limit as nat, max_child as nat),
            node < self@.len(),
            dep + (self@.len() - self@[node as int].depth) <= usize::MAX + 1,
        ensures
            r.deep_view() == subtree_lines(self@, node as int, dep as nat, depth_limit as nat),
        decreases depth_limit - self@[node as int].depth,
    {
        let ghost t = self@;
        proof {
            assert(node_ok(t, node as int, depth_limit as nat, max_child as nat));
        }
        let line = self.node_text(node, dep);
        let mut out: Vec<String> = Vec::new();
        out.push(line);
        assert(out.deep_view() =~= seq![node_line(t[node as int], dep as nat)]);
        let n = &self.nodes[node];
        if n.depth == depth_limit {
            return out;
        }
        match &n.child_or_logcluster {
            ChildOrLogCluster::Children(ch) => {
                let ghost cv = ch@.map_values(|e: (String, usize)| (e.0@, e.1 as nat));
                assert(children_of(t[node as int]) == cv);
                let ghost d = t[node as int].depth;
                assert(cv.len() > 0 ==> d < depth_limit);
                assert(cv.take(0) =~= Seq::<(Seq<char>, nat)>::empty());
                let nlen = self.nodes.len();
                let mut k: usize = 0;
                while k < ch.len()
                    invariant
                        t == self@,
                        t.len() == nlen,
                        wf_tree(t, depth_limit as nat, max_child as nat),
                        node < t.len(),
                        cv == children_of(t[node as int]),
                        cv == ch@.map_values(|e: (String, usize)| (e.0@, e.1 as nat)),
                        d == t[node as int].depth,
                        dep + (t.len() - d) <= usize::MAX + 1,
                        cv.len() > 0 ==> d < depth_limit,
                        k <= ch.len(),
                        out.deep_view() =~= seq![node_line(t[node as int], dep as nat)]
                            + children_lines(t, cv.take(k as int), (dep + 1) as nat, depth_limit as nat, d),
                    decreases ch.len() - k,
                {
                    let c = ch[k].1;
                    proof {
                        assert(node_ok(t, node as int, depth_limit as nat, max_child as nat));
                        assert(child_ok(t, t[node as int], cv[k as int]));
                        assert(node_ok(t, c as int, depth_limit as nat, max_child as nat));
                        assert(cv.take(k + 1).drop_last() =~= cv.take(k as int));
                        assert(cv.take(k + 1).last() == cv[k as int]);
                    }
                    let mut sub = self.subtree_text(c, dep + 1, depth_limit, max_child);
                    let ghost before = out.deep_view();
                    out.append(&mut sub);
                    assert(out.deep_view() =~= before + subtree_lines(t, c as int, (dep + 1) as nat, depth_limit as nat));
                    k = k + 1;
                }
                assert(cv.take(ch.len() as int) =~= cv);
            },
            ChildOrLogCluster::LogClusters(_) => {},
        }
        out
    }

    /// One step down from node `cur` along token `tok` (see [`route`]).
    fn route_step(
        &mut self,
        cur: usize,
        tok: &String,
        depth: usize,
        depth_limit: usize,
        max_child: usize,
    ) -> (nx: usize)
        requires
            wf_tree(old(self)@, depth_limit as nat, max_child as nat),
            cur < old(self)@.len(),
            old(self)@[cur as int].depth == depth,
            1 <= depth < depth_limit as nat,
            max_child >= 1,
        ensures
            (final(self)@, nx as int) == route(old(self)@, cur as int, tok@, depth as nat, max_child as nat),
            wf_tree(final(self)@, depth_limit as nat, max_child as nat),
            0 < nx < final(self)@.len(),
            final(self)@[nx as int].depth == depth + 1,
    {
        proof {
            lemma_route_wf(self@, cur as int, tok@, depth as nat, depth_limit as nat, max_child as nat);
            assert(node_ok(self@, cur as int, depth_limit as nat, max_child as nat));
        }
        match self.find_child(cur, tok) {
            Some(nx) => nx,
            None => {
                let star = wildcard_string();
                let n_children = self.child_count(cur);
                if !contains_digit(tok.as_str()) {
                    match self.find_child(cur, &star) {
                        Some(w) => {
                            if n_children < max_child {
                                self.add_child(cur, tok.clone(), depth + 1)
                            } else {
                                w
                            }
                        },
                        None => {
                            if n_children + 1 < max_child {
                                self.add_child(cur, tok.clone(), depth + 1)
                            } else {
                                self.add_child(cur, star, depth + 1)
                            }
                        },
                    }
                } else {
                    match self.find_child(cur, &star) {
                        Some(w) => w,
                        None => self.add_child(cur, star, depth + 1),
                    }
                }
            },
        }
    }

    /// Adds `log_clust` to the tree (see [`insert_cluster`]): by its length to
    /// a first-layer node, then down one level per leading token until the
    /// depth reaches `depth_limit`, where the cluster is stored. With
    /// `max_child` 0 the adding must be one that succeeds (see
    /// [`insert_ok`]); it then does what it does with `max_child` 1.
    pub fn insert(&mut self, log_clust: &LogCluster, depth_limit: usize, max_child: usize)
        requires
            wf_tree(old(self)@, depth_limit as nat, child_cap(max_child as nat)),
            max_child >= 1 || insert_ok(old(self)@, log_clust@, depth_limit as nat, 0),
        ensures
            final(self)@ == insert_cluster(old(self)@, log_clust@, depth_limit as nat, max_child as nat).0,
            wf_tree(final(self)@, depth_limit as nat, child_cap(max_child as nat)),
    {
        proof {
            if max_child == 0 {
                law_zero_children_acts_as_one(self@, log_clust@, depth_limit as nat);
            }
        }
        let room = if max_child == 0 {
            1
        } else {
            max_child
        };
        self.insert_with_room(log_clust, depth_limit, room);
    }

    /// [`PrefixTree::insert`] where it succeeds (see [`insert_ok`]), telling
    /// whether it does; where it does not, the tree is left well formed with
    /// the part of the walk that was done.
    pub fn try_insert(&mut self, log_clust: &LogCluster, depth_limit: usize, max_child: usize) -> (ok: bool)
        requires
            wf_tree(old(self)@, depth_limit as nat, child_cap(max_child as nat)),
        ensures
            ok == insert_ok(old(self)@, log_clust@, depth_limit as nat, max_child as nat),
            ok ==> final(self)@ == insert_cluster(
                old(self)@,
                log_clust@,
                depth_limit as nat,
                max_child as nat,
            ).0,
            wf_tree(final(self)@, depth_limit as nat, child_cap(max_child as nat)),
    {
        if max_child >= 1 {
            proof {
                law_insert_never_fails_with_room(self@, log_clust@, depth_limit as nat, max_child as nat);
            }
            self.insert(log_clust, depth_limit, max_child);
            return true;
        }
        let ghost t0 = self@;
        let ghost cl = log_clust@;
        let ghost dl = depth_limit as nat;
        let seq_len = log_clust.log_event.len();
        let seq_len_str = usize_to_decimal(seq_len);
        assert(cl.event.len() == seq_len);
        proof {
            assert(node_ok(t0, 0, dl, 1));
        }
        let first_layer_node = match self.find_child(0, &seq_len_str) {
            Some(f) => {
                proof {
                    lemma_lookup_child(t0, 0, seq_len_str@, dl, 1);
                }
                f
            },
            None => {
                proof {
                    lemma_with_child_wf(t0, 0, seq_len_str@, 1, dl, 1);
                }
                self.add_child(0, seq_len_str, 1)
            },
        };
        assert((self@, first_layer_node as int) == first_layer(t0, seq_len as nat));
        let mut parent_node = first_layer_node;
        let mut currrent_depth: usize = 1;
        let mut i: usize = 0;
        while i < seq_len
            invariant
                t0 == old(self)@,
                max_child == 0,
                descend(self@, parent_node as int, cl, i as nat, dl, 0).0 == insert_cluster(t0, cl, dl, 0).0,
                descend_ok(self@, parent_node as int, cl, i as nat, dl, 0) == insert_ok(t0, cl, dl, 0),
                i <= seq_len,
                seq_len == cl.event.len(),
                cl == log_clust@,
                dl == depth_limit as nat,
                currrent_depth == i + 1,
                wf_tree(self@, dl, 1),
                0 < parent_node < self@.len(),
                self@[parent_node as int].depth == i + 1,
            decreases seq_len - i,
        {
            if currrent_depth >= depth_limit || currrent_depth > seq_len {
                proof {
                    lemma_with_cluster_wf(self@, parent_node as int, cl, dl, 1);
                }
                self.add_cluster(parent_node, log_clust.clone());
                return true;
            }
            let token = &log_clust.log_event[i];
            assert(token@ == cl.event[i as int]);
            if self.find_child(parent_node, token).is_none() && !contains_digit(token.as_str()) {
                let star = wildcard_string();
                if self.find_child(parent_node, &star).is_none() {
                    return false;
                }
            }
            proof {
                lemma_route_zero(self@, parent_node as int, cl.event[i as int], (i + 1) as nat);
            }
            parent_node = self.route_step(parent_node, token, currrent_depth, depth_limit, 1);
            currrent_depth = currrent_depth + 1;
            i = i + 1;
        }
        true
    }

    fn insert_with_room(&mut self, log_clust: &LogCluster, depth_limit: usize, max_child: usize)
        requires
            wf_tree(old(self)@, depth_limit as nat, max_child as nat),
            max_child >= 1,
        ensures
            final(self)@ == insert_cluster(old(self)@, log_clust@, depth_limit as nat, max_child as nat).0,
            wf_tree(final(self)@, depth_limit as nat, max_child as nat),
    {
        let ghost t0 = self@;
        let ghost cl = log_clust@;
        let ghost dl = depth_limit as nat;
        let ghost mc = max_child as nat;
        let seq_len = log_clust.log_event.len();
        let seq_len_str = usize_to_decimal(seq_len);
        assert(cl.event.len() == seq_len);
        proof {
            assert(node_ok(t0, 0, dl, mc));
        }
        let first_layer_node = match self.find_child(0, &seq_len_str) {
            Some(f) => {
                proof {
                    lemma_lookup_child(t0, 0, seq_len_str@, dl, mc);
                }
                f
            },
            None => {
                proof {
                    lemma_with_child_wf(t0, 0, seq_len_str@, 1, dl, mc);
                }
                self.add_child(0, seq_len_str, 1)
            },
        };
        assert((self@, first_layer_node as int) == first_layer(t0, seq_len as nat));
        let mut parent_node = first_layer_node;
        let mut currrent_depth: usize = 1;
        let mut i: usize = 0;
        while i < seq_len
            invariant_except_break
                descend(self@, parent_node as int, cl, i as nat, dl, mc).0 == insert_cluster(
                    t0,
                    cl,
                    dl,
                    mc,
                ).0,
            invariant
                i <= seq_len,
                seq_len == cl.event.len(),
                cl == log_clust@,
                dl == depth_limit as nat,
                mc == max_child as nat,
                max_child >= 1,
                currrent_depth == i + 1,
                wf_tree(self@, dl, mc),
                0 < parent_node < self@.len(),
                self@[parent_node as int].depth == i + 1,
            ensures
                self@ == insert_cluster(t0, cl, dl, mc).0,
            decreases seq_len - i,
        {
            if currrent_depth >= depth_limit || currrent_depth > seq_len {
                proof {
                    lemma_with_cluster_wf(self@, parent_node as int, cl, dl, mc);
                }
                self.add_cluster(parent_node, log_clust.clone());
                break;
            }
            let token = &log_clust.log_event[i];
            assert(token@ == cl.event[i as int]);
            parent_node = self.route_step(parent_node, token, currrent_depth, depth_limit, max_child);
            currrent_depth = currrent_depth + 1;
            i = i + 1;
        }
    }
}

} // verus!
