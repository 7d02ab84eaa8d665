//! The document model and the reduction of a parse tree into it.
use vstd::prelude::*;
use crate::grammar::{
    file_of, strs, trees_view, CollectionPair, GameTreePair, NodePair, PropView, PropertyPair,
    SgfParser, TreeView,
};

verus! {

/// An identifier with its values in source order, e.g. `AW[aa][bb]`.
#[derive(Clone, Debug)]
pub struct Property {
    pub ident: String,
    pub values: Vec<String>,
}

impl View for Property {
    type V = PropView;

    open spec fn view(&self) -> PropView {
        PropView { ident: self.ident@, values: strs(self.values@) }
    }
}

/// Reading properties in order into a mapping: a later one with the same
/// identifier replaces the earlier.
pub open spec fn node_map(ps: Seq<PropView>) -> Map<Seq<char>, Seq<Seq<char>>>
    decreases ps.len(),
{
    if ps.len() == 0 {
        Map::empty()
    } else {
        node_map(ps.drop_last()).insert(ps.last().ident, ps.last().values)
    }
}

pub open spec fn distinct_idents(ps: Seq<PropView>) -> bool {
    forall|i: int, j: int| 0 <= i < j < ps.len() ==> ps[i].ident != ps[j].ident
}

pub open spec fn props_view(ps: Seq<Property>) -> Seq<PropView> {
    ps.map_values(|p: Property| p@)
}

proof fn lemma_node_map_distinct(ps: Seq<PropView>)
    requires
        distinct_idents(ps),
    ensures
        forall|i: int|
            0 <= i < ps.len() ==> #[trigger] node_map(ps).contains_key(ps[i].ident)
                && node_map(ps)[ps[i].ident] == ps[i].values,
        forall|k: Seq<char>|
            #[trigger] node_map(ps).contains_key(k) ==> exists|i: int|
                0 <= i < ps.len() && ps[i].ident == k,
    decreases ps.len(),
{
    if ps.len() > 0 {
        let q = ps.drop_last();
        assert(distinct_idents(q));
        lemma_node_map_distinct(q);
        assert(node_map(ps) == node_map(q).insert(ps.last().ident, ps.last().values));
        assert forall|i: int| 0 <= i < ps.len() implies #[trigger] node_map(ps).contains_key(
            ps[i].ident,
        ) && node_map(ps)[ps[i].ident] == ps[i].values by {
            if i == ps.len() - 1 {
                assert(ps[i] == ps.last());
            } else {
                assert(q[i] == ps[i]);
                assert(node_map(q).contains_key(q[i].ident));
                assert(ps[i].ident != ps[ps.len() - 1].ident);
            }
        }
        assert forall|k: Seq<char>| #[trigger] node_map(ps).contains_key(k) implies exists|i: int|
            0 <= i < ps.len() && ps[i].ident == k by {
            if k != ps.last().ident {
                assert(node_map(q).contains_key(k));
                let j = choose|j: int| 0 <= j < q.len() && q[j].ident == k;
                assert(ps[j] == q[j]);
            } else {
                assert(ps[ps.len() - 1].ident == k);
            }
        }
    }
}

/// Adds `p` to a list of properties with distinct identifiers, replacing the
/// one with the same identifier if there is one.
fn insert_property(props: &mut Vec<Property>, p: Property)
    requires
        distinct_idents(props_view(old(props)@)),
    ensures
        distinct_idents(props_view(final(props)@)),
        node_map(props_view(final(props)@)) == node_map(props_view(old(props)@)).insert(
            p.ident@,
            strs(p.values@),
        ),
{
    let ghost ps = props_view(props@);
    let mut i: usize = 0;
    while i < props.len()
        invariant
            i <= props.len(),
            props_view(props@) == ps,
            ps == props_view(old(props)@),
            distinct_idents(ps),
            forall|j: int| 0 <= j < i ==> props@[j].ident@ != p.ident@,
        decreases props.len() - i,
    {
        if props[i].ident == p.ident {
            let ghost pv = p@;
            assert(ps[i as int] == props@[i as int]@);
            assert(ps[i as int].ident == pv.ident);
            props.set(i, p);
            proof {
                let ps2 = props_view(props@);
                assert(ps2 =~= ps.update(i as int, pv));
                assert(distinct_idents(ps2));
                lemma_node_map_distinct(ps);
                lemma_node_map_distinct(ps2);
                let m1 = node_map(ps2);
                let m2 = node_map(ps).insert(pv.ident, pv.values);
                assert forall|k: Seq<char>| m1.contains_key(k) implies m2.contains_key(k)
                    && m1[k] == m2[k] by {
                    let j = choose|j: int| 0 <= j < ps2.len() && ps2[j].ident == k;
                    assert(node_map(ps2).contains_key(ps2[j].ident));
                    if j != i {
                        assert(ps2[j] == ps[j]);
                        assert(node_map(ps).contains_key(ps[j].ident));
                        assert(ps[j].ident != ps[i as int].ident);
                    }
                }
                assert forall|k: Seq<char>| m2.contains_key(k) implies m1.contains_key(k) by {
                    if k != pv.ident {
                        let j = choose|j: int| 0 <= j < ps.len() && ps[j].ident == k;
                        assert(ps2[j] == ps[j]);
                    } else {
                        assert(ps2[i as int].ident == k);
                    }
                }
                assert(m1 =~= m2);
            }
            return;
        }
        i = i + 1;
    }
    let ghost pv = p@;
    props.push(p);
    proof {
        let ps2 = props_view(props@);
        assert(ps2 =~= ps.push(pv));
        assert(ps2.drop_last() =~= ps);
    }
}

/// A group of properties keyed by identifier; identifiers are unique.
#[derive(Debug)]
pub struct Node {
    props: Vec<Property>,
}

impl Node {
    #[verifier::type_invariant]
    closed spec fn inv(&self) -> bool {
        distinct_idents(props_view(self.props@))
    }
}

impl View for Node {
    type V = Map<Seq<char>, Seq<Seq<char>>>;

    /// Each identifier mapped to its values.
    closed spec fn view(&self) -> Map<Seq<char>, Seq<Seq<char>>> {
        node_map(props_view(self.props@))
    }
}

/// The main line of play after a game tree's root node.
pub type NodeSeq = Vec<Node>;

/// The game trees of a document, in source order.
pub type Collection = Vec<GameTree>;

/// A game tree's main line: its root node and the nodes that follow it.
#[derive(Debug)]
pub struct GameTree {
    /// The information of the game.
    pub root: Node,
    /// The plays of the game.
    pub seq: NodeSeq,
}

pub struct GameTreeView {
    pub root: Map<Seq<char>, Seq<Seq<char>>>,
    pub seq: Seq<Map<Seq<char>, Seq<Seq<char>>>>,
}

pub open spec fn nodes_view(ns: Seq<Node>) -> Seq<Map<Seq<char>, Seq<Seq<char>>>> {
    ns.map_values(|n: Node| n@)
}

impl View for GameTree {
    type V = GameTreeView;

    open spec fn view(&self) -> GameTreeView {
        GameTreeView { root: self.root@, seq: nodes_view(self.seq@) }
    }
}

pub open spec fn collection_view(c: Seq<GameTree>) -> Seq<GameTreeView> {
    c.map_values(|t: GameTree| t@)
}

/// A whole document.
#[derive(Debug)]
pub struct Sgf {
    pub collection: Collection,
}

impl View for Sgf {
    type V = Seq<GameTreeView>;

    open spec fn view(&self) -> Seq<GameTreeView> {
        collection_view(self.collection@)
    }
}

/// The nodes of a parsed sequence, each reduced to its mapping.
pub open spec fn node_maps(ns: Seq<Seq<PropView>>) -> Seq<Map<Seq<char>, Seq<Seq<char>>>> {
    ns.map_values(|n: Seq<PropView>| node_map(n))
}

/// A parsed game tree reduced to the model: its first node is the root, the
/// others follow it in order.
pub open spec fn tree_model(t: TreeView) -> GameTreeView {
    if t.nodes.len() == 0 {
        GameTreeView { root: Map::empty(), seq: seq![] }
    } else {
        GameTreeView {
            root: node_map(t.nodes[0]),
            seq: node_maps(t.nodes.subrange(1, t.nodes.len() as int)),
        }
    }
}

pub open spec fn has_variation(t: TreeView) -> bool {
    t.tail.len() > 0
}

/// A parsed collection reduced to the model, or `None` when one of its game
/// trees holds a variation.
pub open spec fn collection_model(ts: Seq<TreeView>) -> Option<Seq<GameTreeView>> {
    if exists|i: int| 0 <= i < ts.len() && has_variation(#[trigger] ts[i]) {
        None
    } else {
        Some(ts.map_values(|t: TreeView| tree_model(t)))
    }
}

/// The document that a text denotes, or `None` when it is not in the grammar
/// or holds a variation.
pub open spec fn sgf_of(text: Seq<char>) -> Option<Seq<GameTreeView>> {
    match file_of(text) {
        Some(ts) => collection_model(ts),
        None => None,
    }
}

impl Property {
    fn from_pair_pest(pair: PropertyPair) -> (r: Property)
        ensures
            r@ == pair@,
    {
        Property { ident: pair.ident, values: pair.values }
    }
}

/// Reduces a parsed node to its mapping; of two properties with one
/// identifier, the later is kept.
pub fn parse_node(pair: NodePair) -> (r: Node)
    ensures
        r@ == node_map(pair@),
{
    let ghost src = pair@;
    let mut props: Vec<Property> = Vec::new();
    for pp in it: pair.properties
        invariant
            src == it.seq().map_values(|p: PropertyPair| p@),
            distinct_idents(props_view(props@)),
            node_map(props_view(props@)) == node_map(src.take(it.index() as int)),
    {
        let ghost k = it.index() as int;
        let prop = Property::from_pair_pest(pp);
        insert_property(&mut props, prop);
        proof {
            assert(src.take(k + 1).drop_last() =~= src.take(k));
        }
    }
    proof {
        assert(src.take(src.len() as int) =~= src);
    }
    Node { props }
}

/// Reduces each parsed node of a sequence, keeping their order.
fn parse_nodeseq(pair: Vec<NodePair>) -> (r: NodeSeq)
    ensures
        nodes_view(r@) == node_maps(pair@.map_values(|n: NodePair| n@)),
{
    let ghost src = pair@.map_values(|n: NodePair| n@);
    let mut seq: NodeSeq = Vec::new();
    for np in it: pair
        invariant
            src == it.seq().map_values(|n: NodePair| n@),
            nodes_view(seq@) == node_maps(src.take(it.index() as int)),
    {
        let ghost k = it.index() as int;
        assert(np@ == src[k]);
        let node = parse_node(np);
        let ghost before = seq@;
        seq.push(node);
        proof {
            assert(src.take(k + 1) =~= src.take(k).push(src[k]));
            assert(node_maps(src.take(k + 1)) =~= node_maps(src.take(k)).push(node_map(src[k])));
            assert(nodes_view(seq@) =~= nodes_view(before).push(node@));
        }
    }
    proof {
        assert(src.take(src.len() as int) =~= src);
    }
    seq
}

impl GameTree {
    /// Reduces a parsed game tree: its first node becomes the root and the
    /// others the sequence. A game tree that holds a variation is refused.
    pub fn from_pair(pair: GameTreePair) -> (r: Result<GameTree, String>)
        ensures
            r is Ok <==> !has_variation(pair@),
            r matches Ok(t) ==> t@ == tree_model(pair@),
            r matches Err(e) ==> e@ == "Variations are not supported"@,
    {
        if pair.tail.len() > 0 {
            return Err("Variations are not supported".to_string());
        }
        let ghost src = pair@;
        let mut nodes = pair.nodes;
        if nodes.len() == 0 {
            let root = Node { props: Vec::new() };
            let seq: NodeSeq = Vec::new();
            proof {
                assert(root@ =~= Map::empty());
                assert(nodes_view(seq@) =~= seq![]);
            }
            return Ok(GameTree { root, seq });
        }
        let first = nodes.remove(0);
        let root = parse_node(first);
        let ghost rest = nodes@;
        let seq = parse_nodeseq(nodes);
        proof {
            assert(rest.map_values(|n: NodePair| n@) =~= src.nodes.subrange(1, src.nodes.len() as int));
        }
        Ok(GameTree { root, seq })
    }
}

/// Reduces each parsed game tree of a collection, keeping their order. A
/// collection in which some game tree holds a variation is refused.
pub fn parse_collection(pair: CollectionPair) -> (r: Result<Collection, String>)
    ensures
        collection_model(trees_view(pair@)) == (match r {
            Ok(c) => Some(collection_view(c@)),
            Err(_) => None,
        }),
        r matches Err(e) ==> e@ == "Variations are not supported"@,
{
    let ghost src = trees_view(pair@);
    let mut out: Collection = Vec::new();
    for tp in it: pair
        invariant
            src == trees_view(it.seq()),
            forall|i: int| 0 <= i < it.index() ==> !has_variation(#[trigger] src[i]),
            collection_view(out@) == src.take(it.index() as int).map_values(
                |t: TreeView| tree_model(t),
            ),
    {
        let ghost k = it.index() as int;
        assert(tp@ == src[k]);
        match GameTree::from_pair(tp) {
            Ok(t) => {
                let ghost before = out@;
                out.push(t);
                proof {
                    assert(src.take(k + 1) =~= src.take(k).push(src[k]));
                    assert(collection_view(out@) =~= collection_view(before).push(t@));
                    assert(collection_view(out@) =~= src.take(k + 1).map_values(
                        |t: TreeView| tree_model(t),
                    ));
                }
            },
            Err(e) => {
                proof {
                    assert(has_variation(src[k]));
                }
                return Err(e);
            },
        }
    }
    proof {
        assert(src.take(src.len() as int) =~= src);
    }
    Ok(out)
}

impl Sgf {
    /// Reads a document from its text. The error is `"Parsing error"` when
    /// the text is not in the grammar, and `"Variations are not supported"`
    /// when a game tree in it holds a variation.
    pub fn from_str(lines: &str) -> (r: Result<Sgf, String>)
        ensures
            sgf_of(lines@) == (match r {
                Ok(s) => Some(s@),
                Err(_) => None,
            }),
            r matches Err(e) ==> e@ == (if file_of(lines@) is None {
                "Parsing error"@
            } else {
                "Variations are not supported"@
            }),
    {
        match SgfParser::parse(lines) {
            Some(pair) => Sgf::from_pair(pair),
            None => Err("Parsing error".to_string()),
        }
    }

    /// Builds a document from the parse tree of a whole text.
    pub fn from_pair(pair: CollectionPair) -> (r: Result<Sgf, String>)
        ensures
            collection_model(trees_view(pair@)) == (match r {
                Ok(s) => Some(s@),
                Err(_) => None,
            }),
            r matches Err(e) ==> e@ == "Variations are not supported"@,
    {
        match parse_collection(pair) {
            Ok(collection) => Ok(Sgf { collection }),
            Err(e) => Err(e),
        }
    }
}

impl Node {
    /// The property stored under `ident`, if any.
    pub fn get(&self, ident: &str) -> (r: Option<&Property>)
        ensures
            r is Some <==> self@.contains_key(ident@),
            r matches Some(p) ==> p.ident@ == ident@ && strs(p.values@) == self@[ident@],
    {
        proof {
            use_type_invariant(self);
            lemma_node_map_distinct(props_view(self.props@));
        }
        let key = ident.to_owned();
        let mut i: usize = 0;
        while i < self.props.len()
            invariant
                i <= self.props.len(),
                key@ == ident@,
                forall|j: int| 0 <= j < i ==> (#[trigger] self.props@[j]).ident@ != key@,
            decreases self.props.len() - i,
        {
            if self.props[i].ident == key {
                proof {
                    use_type_invariant(self);
                    let ps = props_view(self.props@);
                    lemma_node_map_distinct(ps);
                    assert(ps[i as int] == self.props@[i as int]@);
                    assert(node_map(ps).contains_key(ps[i as int].ident));
                }
                return Some(&self.props[i]);
            }
            i = i + 1;
        }
        proof {
            if self@.contains_key(ident@) {
                let ps = props_view(self.props@);
                let j = choose|j: int| 0 <= j < ps.len() && ps[j].ident == ident@;
                assert(self.props@[j]@ == ps[j]);
            }
        }
        None
    }

    /// Whether a property is stored under `ident`.
    pub fn contains_key(&self, ident: &str) -> (r: bool)
        ensures
            r == self@.contains_key(ident@),
    {
        self.get(ident).is_some()
    }

    /// Whether the node holds no property.
    pub fn is_empty(&self) -> (r: bool)
        ensures
            r <==> self@.dom().len() == 0,
    {
        proof {
            use_type_invariant(self);
            let ps = props_view(self.props@);
            lemma_node_map_distinct(ps);
            lemma_node_map_finite(ps);
            if ps.len() > 0 {
                assert(self@.contains_key(ps[0].ident));
                assert(self@.dom().contains(ps[0].ident));
            } else {
                assert(self@.dom() =~= Set::empty());
            }
        }
        self.props.len() == 0
    }
}

proof fn lemma_node_map_finite(ps: Seq<PropView>)
    ensures
        node_map(ps).dom().finite(),
    decreases ps.len(),
{
    if ps.len() > 0 {
        lemma_node_map_finite(ps.drop_last());
    }
}

fn values_eq(a: &Vec<String>, b: &Vec<String>) -> (r: bool)
    ensures
        r == (strs(a@) == strs(b@)),
{
    if a.len() != b.len() {
        return false;
    }
    let mut i: usize = 0;
    while i < a.len()
        invariant
            i <= a.len() == b.len(),
            forall|j: int| 0 <= j < i ==> a@[j]@ == b@[j]@,
        decreases a.len() - i,
    {
        if a[i] != b[i] {
            proof {
                assert(strs(a@)[i as int] != strs(b@)[i as int]);
            }
            return false;
        }
        i = i + 1;
    }
    proof {
        assert(strs(a@) =~= strs(b@));
    }
    true
}

impl PartialEq for Property {
    fn eq(&self, other: &Property) -> (r: bool) {
        self.ident == other.ident && values_eq(&self.values, &other.values)
    }
}

impl vstd::std_specs::cmp::PartialEqSpecImpl for Property {
    open spec fn obeys_eq_spec() -> bool {
        true
    }

    open spec fn eq_spec(&self, other: &Property) -> bool {
        self@ == other@
    }
}

impl Node {
    /// Whether every property of `self` is stored in `other` with the same
    /// values.
    fn included_in(&self, other: &Node) -> (r: bool)
        ensures
            r == (forall|k: Seq<char>|
                #[trigger] self@.contains_key(k) ==> other@.contains_key(k) && other@[k]
                    == self@[k]),
    {
        let mut i: usize = 0;
        while i < self.props.len()
            invariant
                i <= self.props.len(),
                forall|j: int|
                    0 <= j < i ==> other@.contains_key((#[trigger] self.props@[j]).ident@)
                        && other@[self.props@[j].ident@] == strs(self.props@[j].values@),
            decreases self.props.len() - i,
        {
            let found = match other.get(self.props[i].ident.as_str()) {
                Some(p) => values_eq(&p.values, &self.props[i].values),
                None => false,
            };
            if !found {
                proof {
                    use_type_invariant(self);
                    let ps = props_view(self.props@);
                    lemma_node_map_distinct(ps);
                    assert(ps[i as int] == self.props@[i as int]@);
                    assert(self@.contains_key(ps[i as int].ident));
                }
                return false;
            }
            i = i + 1;
        }
        proof {
            use_type_invariant(self);
            let ps = props_view(self.props@);
            lemma_node_map_distinct(ps);
            assert forall|k: Seq<char>| #[trigger] self@.contains_key(k) implies other@.contains_key(
                k,
            ) && other@[k] == self@[k] by {
                let j = choose|j: int| 0 <= j < ps.len() && ps[j].ident == k;
                assert(ps[j] == self.props@[j]@);
                assert(node_map(ps).contains_key(ps[j].ident));
            }
        }
        true
    }
}

impl PartialEq for Node {
    fn eq(&self, other: &Node) -> (r: bool) {
        let r = self.included_in(other) && other.included_in(self);
        proof {
            if r {
                assert(self@ =~= other@);
            }
        }
        r
    }
}

impl vstd::std_specs::cmp::PartialEqSpecImpl for Node {
    open spec fn obeys_eq_spec() -> bool {
        true
    }

    open spec fn eq_spec(&self, other: &Node) -> bool {
        self@ == other@
    }
}

fn node_seq_eq(a: &NodeSeq, b: &NodeSeq) -> (r: bool)
    ensures
        r == (nodes_view(a@) == nodes_view(b@)),
{
    if a.len() != b.len() {
        return false;
    }
    let mut i: usize = 0;
    while i < a.len()
        invariant
            i <= a.len() == b.len(),
            forall|j: int| 0 <= j < i ==> a@[j]@ == b@[j]@,
        decreases a.len() - i,
    {
        if a[i] != b[i] {
            proof {
                assert(nodes_view(a@)[i as int] != nodes_view(b@)[i as int]);
            }
            return false;
        }
        i = i + 1;
    }
    proof {
        assert(nodes_view(a@) =~= nodes_view(b@));
    }
    true
}

impl PartialEq for GameTree {
    fn eq(&self, other: &GameTree) -> (r: bool) {
        self.root == other.root && node_seq_eq(&self.seq, &other.seq)
    }
}

impl vstd::std_specs::cmp::PartialEqSpecImpl for GameTree {
    open spec fn obeys_eq_spec() -> bool {
        true
    }

    open spec fn eq_spec(&self, other: &GameTree) -> bool {
        self@ == other@
    }
}

impl PartialEq for Sgf {
    fn eq(&self, other: &Sgf) -> (r: bool) {
        let a = &self.collection;
        let b = &other.collection;
        if a.len() != b.len() {
            proof {
                assert(collection_view(a@).len() != collection_view(b@).len());
            }
            return false;
        }
        let mut i: usize = 0;
        while i < a.len()
            invariant
                i <= a.len() == b.len(),
                a == self.collection,
                b == other.collection,
                forall|j: int| 0 <= j < i ==> a@[j]@ == b@[j]@,
            decreases a.len() - i,
        {
            if a[i] != b[i] {
                proof {
                    assert(collection_view(a@)[i as int] != collection_view(b@)[i as int]);
                }
                return false;
            }
            i = i + 1;
        }
        proof {
            assert(collection_view(a@) =~= collection_view(b@));
        }
        true
    }
}

impl vstd::std_specs::cmp::PartialEqSpecImpl for Sgf {
    open spec fn obeys_eq_spec() -> bool {
        true
    }

    open spec fn eq_spec(&self, other: &Sgf) -> bool {
        self@ == other@
    }
}

} // verus!
