//! The grammar of the notation, as spec functions over the characters of the
//! text, and a parser that produces the rule-tagged parse tree.
//!
//! Each `*_from` / `*_at` spec function reads one rule starting at a position
//! and yields what it read together with the position just past it, or `None`
//! when the text does not match. Whitespace may stand before every node, every
//! property, every game tree and every closing parenthesis; it may not stand
//! inside a property.
//!
//! Where a rule reads a sub-rule and goes on from the position it returned,
//! the definition checks that this position lies ahead of where the rule
//! began: every rule that succeeds consumes input, so the check never fails,
//! and it makes the termination of the definitions evident.
use vstd::prelude::*;

verus! {

broadcast use vstd::string::group_string_axioms;

pub open spec fn is_ws(c: char) -> bool {
    c == ' ' || c == '\t' || c == '\n' || c == '\r'
}

pub open spec fn is_upper(c: char) -> bool {
    'A' <= c && c <= 'Z'
}

/// A property as the grammar reads it: its identifier and its value bodies.
pub struct PropView {
    pub ident: Seq<char>,
    pub values: Seq<Seq<char>>,
}

/// A game tree as the grammar reads it: its nodes in order (each a list of
/// properties, duplicates kept), and the source text of each nested variation.
pub struct TreeView {
    pub nodes: Seq<Seq<PropView>>,
    pub tail: Seq<Seq<char>>,
}

/// Prefixes `acc` to the items of a successful read.
pub open spec fn after<T>(acc: Seq<T>, r: Option<(Seq<T>, nat)>) -> Option<(Seq<T>, nat)> {
    match r {
        Some((xs, k)) => Some((acc + xs, k)),
        None => None,
    }
}

/// First position at or after `i` that does not hold whitespace.
pub open spec fn skip_ws(s: Seq<char>, i: nat) -> nat
    decreases s.len() - i,
{
    if i < s.len() && is_ws(s[i as int]) {
        skip_ws(s, i + 1)
    } else {
        i
    }
}

/// End of the run of uppercase letters that starts at `i`.
pub open spec fn ident_end(s: Seq<char>, i: nat) -> nat
    decreases s.len() - i,
{
    if i < s.len() && is_upper(s[i as int]) {
        ident_end(s, i + 1)
    } else {
        i
    }
}

/// Position of the `]` that closes a value body starting at `i`. A backslash
/// keeps the character after it inside the body.
pub open spec fn value_close(s: Seq<char>, i: nat) -> Option<nat>
    decreases s.len() - i,
{
    if i >= s.len() {
        None
    } else if s[i as int] == ']' {
        Some(i)
    } else if s[i as int] == '\\' {
        if i + 1 < s.len() {
            value_close(s, i + 2)
        } else {
            None
        }
    } else {
        value_close(s, i + 1)
    }
}

/// Zero or more bracketed values, read from `i` on.
pub open spec fn values_from(s: Seq<char>, i: nat) -> Option<(Seq<Seq<char>>, nat)>
    decreases s.len() - i,
{
    if i < s.len() && s[i as int] == '[' {
        match value_close(s, i + 1) {
            Some(c) => if i < c < s.len() {
                after(seq![s.subrange((i + 1) as int, c as int)], values_from(s, c + 1))
            } else {
                None
            },
            None => None,
        }
    } else {
        Some((seq![], i))
    }
}

/// Zero or more properties, read from `i` on.
pub open spec fn props_from(s: Seq<char>, i: nat) -> Option<(Seq<PropView>, nat)>
    decreases s.len() - i,
{
    let p = skip_ws(s, i);
    if i <= p < s.len() && is_upper(s[p as int]) {
        let k = ident_end(s, p);
        match values_from(s, k) {
            Some((vs, m)) => if vs.len() > 0 && p < m <= s.len() {
                after(seq![PropView { ident: s.subrange(p as int, k as int), values: vs }], props_from(s, m))
            } else {
                None
            },
            None => None,
        }
    } else {
        Some((seq![], p))
    }
}

/// Zero or more nodes, read from `i` on.
pub open spec fn nodes_from(s: Seq<char>, i: nat) -> Option<(Seq<Seq<PropView>>, nat)>
    decreases s.len() - i,
{
    let p = skip_ws(s, i);
    if i <= p < s.len() && s[p as int] == ';' {
        match props_from(s, p + 1) {
            Some((n, k)) => if p < k <= s.len() {
                after(seq![n], nodes_from(s, k))
            } else {
                None
            },
            None => None,
        }
    } else {
        Some((seq![], p))
    }
}

/// One game tree, whose `(` stands at `i`.
pub open spec fn gametree_at(s: Seq<char>, i: nat) -> Option<(TreeView, nat)>
    decreases s.len() - i, 0nat,
{
    if i < s.len() && s[i as int] == '(' {
        match nodes_from(s, i + 1) {
            Some((ns, k)) => if ns.len() > 0 && i < k <= s.len() {
                match tail_from(s, k) {
                    Some((ts, m)) => if m < s.len() && s[m as int] == ')' {
                        Some((TreeView { nodes: ns, tail: ts }, m + 1))
                    } else {
                        None
                    },
                    None => None,
                }
            } else {
                None
            },
            None => None,
        }
    } else {
        None
    }
}

/// Zero or more game trees nested after a main sequence, read from `i` on;
/// each is given by its source text.
pub open spec fn tail_from(s: Seq<char>, i: nat) -> Option<(Seq<Seq<char>>, nat)>
    decreases s.len() - i, 1nat,
{
    let p = skip_ws(s, i);
    if i <= p < s.len() && s[p as int] == '(' {
        match gametree_at(s, p) {
            Some((_t, k)) => if p < k <= s.len() {
                after(seq![s.subrange(p as int, k as int)], tail_from(s, k))
            } else {
                None
            },
            None => None,
        }
    } else {
        Some((seq![], p))
    }
}

/// Zero or more game trees at the top level, read from `i` on.
pub open spec fn trees_from(s: Seq<char>, i: nat) -> Option<(Seq<TreeView>, nat)>
    decreases s.len() - i,
{
    let p = skip_ws(s, i);
    if i <= p < s.len() && s[p as int] == '(' {
        match gametree_at(s, p) {
            Some((t, k)) => if p < k <= s.len() {
                after(seq![t], trees_from(s, k))
            } else {
                None
            },
            None => None,
        }
    } else {
        Some((seq![], p))
    }
}

/// The whole text as a collection of game trees, or `None` when it is not in
/// the grammar.
pub open spec fn file_of(s: Seq<char>) -> Option<Seq<TreeView>> {
    match trees_from(s, 0) {
        Some((ts, k)) => if k == s.len() {
            Some(ts)
        } else {
            None
        },
        None => None,
    }
}

/// A property as the parser found it.
#[derive(Clone, Debug)]
pub struct PropertyPair {
    pub ident: String,
    pub values: Vec<String>,
}

/// A node as the parser found it: its properties in source order.
#[derive(Clone, Debug)]
pub struct NodePair {
    pub properties: Vec<PropertyPair>,
}

/// A game tree as the parser found it: its nodes in source order, and the
/// source text of each variation nested after them.
#[derive(Clone, Debug)]
pub struct GameTreePair {
    pub nodes: Vec<NodePair>,
    pub tail: Vec<String>,
}

/// The parse tree of a whole text: its top-level game trees in source order.
pub type CollectionPair = Vec<GameTreePair>;

pub open spec fn strs(v: Seq<String>) -> Seq<Seq<char>> {
    v.map_values(|x: String| x@)
}

impl View for PropertyPair {
    type V = PropView;

    open spec fn view(&self) -> PropView {
        PropView { ident: self.ident@, values: strs(self.values@) }
    }
}

impl View for NodePair {
    type V = Seq<PropView>;

    open spec fn view(&self) -> Seq<PropView> {
        self.properties@.map_values(|p: PropertyPair| p@)
    }
}

impl View for GameTreePair {
    type V = TreeView;

    open spec fn view(&self) -> TreeView {
        TreeView { nodes: self.nodes@.map_values(|n: NodePair| n@), tail: strs(self.tail@) }
    }
}

pub open spec fn trees_view(v: Seq<GameTreePair>) -> Seq<TreeView> {
    v.map_values(|t: GameTreePair| t@)
}

proof fn lemma_after_push<T>(acc: Seq<T>, x: T, r: Option<(Seq<T>, nat)>)
    ensures
        after(acc, after(seq![x], r)) == after(acc.push(x), r),
{
    match r {
        Some((xs, k)) => {
            assert(acc + (seq![x] + xs) =~= acc.push(x) + xs);
        },
        None => {},
    }
}

proof fn lemma_after_empty<T>(acc: Seq<T>, k: nat)
    ensures
        after(acc, Some((Seq::<T>::empty(), k))) == Some((acc, k)),
{
    assert(acc + Seq::<T>::empty() =~= acc);
}

fn is_ws_char(c: char) -> (r: bool)
    ensures
        r == is_ws(c),
{
    c == ' ' || c == '\t' || c == '\n' || c == '\r'
}

fn is_upper_char(c: char) -> (r: bool)
    ensures
        r == is_upper(c),
{
    'A' <= c && c <= 'Z'
}

fn skip_ws_at(s: &Vec<char>, i: usize) -> (r: usize)
    requires
        i <= s.len(),
    ensures
        r as nat == skip_ws(s@, i as nat),
        i <= r <= s.len(),
{
    let mut j = i;
    while j < s.len() && is_ws_char(s[j])
        invariant
            i <= j <= s.len(),
            skip_ws(s@, i as nat) == skip_ws(s@, j as nat),
        decreases s.len() - j,
    {
        j = j + 1;
    }
    j
}

fn ident_end_at(s: &Vec<char>, i: usize) -> (r: usize)
    requires
        i <= s.len(),
    ensures
        r as nat == ident_end(s@, i as nat),
        i <= r <= s.len(),
{
    let mut j = i;
    while j < s.len() && is_upper_char(s[j])
        invariant
            i <= j <= s.len(),
            ident_end(s@, i as nat) == ident_end(s@, j as nat),
        decreases s.len() - j,
    {
        j = j + 1;
    }
    j
}

fn value_close_at(s: &Vec<char>, i: usize) -> (r: Option<usize>)
    requires
        i <= s.len(),
    ensures
        value_close(s@, i as nat) == (match r {
            Some(c) => Some(c as nat),
            None => None,
        }),
{
    let mut j = i;
    loop
        invariant
            j <= s.len(),
            value_close(s@, i as nat) == value_close(s@, j as nat),
        decreases s.len() - j,
    {
        if j >= s.len() {
            return None;
        }
        if s[j] == ']' {
            return Some(j);
        }
        if s[j] == '\\' {
            if j + 1 < s.len() {
                j = j + 2;
            } else {
                return None;
            }
        } else {
            j = j + 1;
        }
    }
}

/// The characters of `text` from `a` up to `b`, as a new string.
fn slice_string(text: &str, a: usize, b: usize) -> (r: String)
    requires
        a <= b <= text@.len(),
    ensures
        r@ == text@.subrange(a as int, b as int),
{
    text.substring_char(a, b).to_owned()
}

fn read_values(text: &str, s: &Vec<char>, i: usize) -> (r: Option<(Vec<String>, usize)>)
    requires
        s@ == text@,
        i <= s.len(),
    ensures
        values_from(s@, i as nat) == (match r {
            Some((vs, k)) => Some((strs(vs@), k as nat)),
            None => None,
        }),
{
    let mut vals: Vec<String> = Vec::new();
    let mut j = i;
    loop
        invariant
            s@ == text@,
            j <= s.len(),
            values_from(s@, i as nat) == after(strs(vals@), values_from(s@, j as nat)),
        decreases s.len() - j,
    {
        if j < s.len() && s[j] == '[' {
            match value_close_at(s, j + 1) {
                Some(c) => {
                    if j < c && c < s.len() {
                        let v = slice_string(text, j + 1, c);
                        proof {
                            lemma_after_push(strs(vals@), v@, values_from(s@, (c + 1) as nat));
                            assert(strs(vals@.push(v)) =~= strs(vals@).push(v@));
                        }
                        vals.push(v);
                        j = c + 1;
                    } else {
                        return None;
                    }
                },
                None => {
                    return None;
                },
            }
        } else {
            proof {
                lemma_after_empty(strs(vals@), j as nat);
            }
            return Some((vals, j));
        }
    }
}

fn read_props(text: &str, s: &Vec<char>, i: usize) -> (r: Option<(NodePair, usize)>)
    requires
        s@ == text@,
        i <= s.len(),
    ensures
        props_from(s@, i as nat) == (match r {
            Some((n, k)) => Some((n@, k as nat)),
            None => None,
        }),
{
    let mut props: Vec<PropertyPair> = Vec::new();
    let mut j = i;
    loop
        invariant
            s@ == text@,
            j <= s.len(),
            props_from(s@, i as nat) == after(
                props@.map_values(|p: PropertyPair| p@),
                props_from(s@, j as nat),
            ),
        decreases s.len() - j,
    {
        let p = skip_ws_at(s, j);
        if p < s.len() && is_upper_char(s[p]) {
            let k = ident_end_at(s, p);
            match read_values(text, s, k) {
                Some((vs, m)) => {
                    if vs.len() > 0 && p < m && m <= s.len() {
                        let prop = PropertyPair { ident: slice_string(text, p, k), values: vs };
                        proof {
                            lemma_after_push(
                                props@.map_values(|p: PropertyPair| p@),
                                prop@,
                                props_from(s@, m as nat),
                            );
                            assert(props@.push(prop).map_values(|p: PropertyPair| p@)
                                =~= props@.map_values(|p: PropertyPair| p@).push(prop@));
                        }
                        props.push(prop);
                        j = m;
                    } else {
                        return None;
                    }
                },
                None => {
                    return None;
                },
            }
        } else {
            proof {
                lemma_after_empty(props@.map_values(|p: PropertyPair| p@), p as nat);
            }
            return Some((NodePair { properties: props }, p));
        }
    }
}

fn read_nodes(text: &str, s: &Vec<char>, i: usize) -> (r: Option<(Vec<NodePair>, usize)>)
    requires
        s@ == text@,
        i <= s.len(),
    ensures
        nodes_from(s@, i as nat) == (match r {
            Some((ns, k)) => Some((ns@.map_values(|n: NodePair| n@), k as nat)),
            None => None,
        }),
{
    let mut nodes: Vec<NodePair> = Vec::new();
    let mut j = i;
    loop
        invariant
            s@ == text@,
            j <= s.len(),
            nodes_from(s@, i as nat) == after(
                nodes@.map_values(|n: NodePair| n@),
                nodes_from(s@, j as nat),
            ),
        decreases s.len() - j,
    {
        let p = skip_ws_at(s, j);
        if p < s.len() && s[p] == ';' {
            match read_props(text, s, p + 1) {
                Some((n, k)) => {
                    if p < k && k <= s.len() {
                        proof {
                            lemma_after_push(
                                nodes@.map_values(|n: NodePair| n@),
                                n@,
                                nodes_from(s@, k as nat),
                            );
                            assert(nodes@.push(n).map_values(|n: NodePair| n@)
                                =~= nodes@.map_values(|n: NodePair| n@).push(n@));
                        }
                        nodes.push(n);
                        j = k;
                    } else {
                        return None;
                    }
                },
                None => {
                    return None;
                },
            }
        } else {
            proof {
                lemma_after_empty(nodes@.map_values(|n: NodePair| n@), p as nat);
            }
            return Some((nodes, p));
        }
    }
}

fn read_gametree(text: &str, s: &Vec<char>, i: usize) -> (r: Option<(GameTreePair, usize)>)
    requires
        s@ == text@,
        i <= s.len(),
    ensures
        gametree_at(s@, i as nat) == (match r {
            Some((t, k)) => Some((t@, k as nat)),
            None => None,
        }),
    decreases s.len() - i, 0nat,
{
    if i < s.len() && s[i] == '(' {
        match read_nodes(text, s, i + 1) {
            Some((ns, k)) => {
                if ns.len() > 0 && i < k && k <= s.len() {
                    match read_tail(text, s, k) {
                        Some((ts, m)) => {
                            if m < s.len() && s[m] == ')' {
                                Some((GameTreePair { nodes: ns, tail: ts }, m + 1))
                            } else {
                                None
                            }
                        },
                        None => None,
                    }
                } else {
                    None
                }
            },
            None => None,
        }
    } else {
        None
    }
}

fn read_tail(text: &str, s: &Vec<char>, i: usize) -> (r: Option<(Vec<String>, usize)>)
    requires
        s@ == text@,
        i <= s.len(),
    ensures
        tail_from(s@, i as nat) == (match r {
            Some((ts, k)) => Some((strs(ts@), k as nat)),
            None => None,
        }),
    decreases s.len() - i, 1nat,
{
    let mut tail: Vec<String> = Vec::new();
    let mut j = i;
    loop
        invariant
            s@ == text@,
            i <= j <= s.len(),
            tail_from(s@, i as nat) == after(strs(tail@), tail_from(s@, j as nat)),
        decreases s.len() - j,
    {
        let p = skip_ws_at(s, j);
        if p < s.len() && s[p] == '(' {
            match read_gametree(text, s, p) {
                Some((_t, k)) => {
                    if p < k && k <= s.len() {
                        let v = slice_string(text, p, k);
                        proof {
                            lemma_after_push(strs(tail@), v@, tail_from(s@, k as nat));
                            assert(strs(tail@.push(v)) =~= strs(tail@).push(v@));
                        }
                        tail.push(v);
                        j = k;
                    } else {
                        return None;
                    }
                },
                None => {
                    return None;
                },
            }
        } else {
            proof {
                lemma_after_empty(strs(tail@), p as nat);
            }
            return Some((tail, p));
        }
    }
}

fn read_trees(text: &str, s: &Vec<char>, i: usize) -> (r: Option<(CollectionPair, usize)>)
    requires
        s@ == text@,
        i <= s.len(),
    ensures
        trees_from(s@, i as nat) == (match r {
            Some((ts, k)) => Some((trees_view(ts@), k as nat)),
            None => None,
        }),
{
    let mut trees: Vec<GameTreePair> = Vec::new();
    let mut j = i;
    loop
        invariant
            s@ == text@,
            j <= s.len(),
            trees_from(s@, i as nat) == after(trees_view(trees@), trees_from(s@, j as nat)),
        decreases s.len() - j,
    {
        let p = skip_ws_at(s, j);
        if p < s.len() && s[p] == '(' {
            match read_gametree(text, s, p) {
                Some((t, k)) => {
                    if p < k && k <= s.len() {
                        proof {
                            lemma_after_push(trees_view(trees@), t@, trees_from(s@, k as nat));
                            assert(trees_view(trees@.push(t)) =~= trees_view(trees@).push(t@));
                        }
                        trees.push(t);
                        j = k;
                    } else {
                        return None;
                    }
                },
                None => {
                    return None;
                },
            }
        } else {
            proof {
                lemma_after_empty(trees_view(trees@), p as nat);
            }
            return Some((trees, p));
        }
    }
}

/// The grammar of the notation.
#[derive(Clone, Copy, Debug)]
pub struct SgfParser;

impl SgfParser {
    /// Reads the whole of `text` as a collection of game trees; `None` when
    /// `text` is not in the grammar.
    pub fn parse(text: &str) -> (r: Option<CollectionPair>)
        ensures
            file_of(text@) == (match r {
                Some(ts) => Some(trees_view(ts@)),
                None => None,
            }),
    {
        let s = text_chars(text);
        match read_trees(text, &s, 0) {
            Some((ts, k)) => {
                if k == s.len() {
                    Some(ts)
                } else {
                    None
                }
            },
            None => None,
        }
    }
}

/// The characters of `text`, in order.
fn text_chars(text: &str) -> (r: Vec<char>)
    ensures
        r@ == text@,
{
    let mut out: Vec<char> = Vec::new();
    for c in it: text.chars()
        invariant
            out@ == it.seq().take(it.index() as int),
    {
        out.push(c);
    }
    out
}

} // verus!
