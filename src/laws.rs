//! Facts that relate the grammar, the reduction and the entry points.
use vstd::prelude::*;
use crate::document::{
    has_variation, node_map, sgf_of, tree_model, Sgf,
};
use crate::grammar::{
    file_of, gametree_at, ident_end, is_upper, is_ws, nodes_from, props_from, skip_ws, tail_from,
    trees_from, value_close, values_from, PropView, TreeView,
};

verus! {

/// Values written one after another, each between brackets.
pub open spec fn bracketed(vs: Seq<Seq<char>>) -> Seq<char>
    decreases vs.len(),
{
    if vs.len() == 0 {
        seq![]
    } else {
        seq!['['] + vs[0] + seq![']'] + bracketed(vs.drop_first())
    }
}

/// A value body that holds neither a closing bracket nor a backslash.
pub open spec fn plain_body(v: Seq<char>) -> bool {
    forall|j: int| 0 <= j < v.len() ==> v[j] != ']' && v[j] != '\\'
}

proof fn lemma_value_close_plain(s: Seq<char>, i: int, v: Seq<char>)
    requires
        0 <= i,
        i + v.len() < s.len(),
        s.subrange(i, i + v.len()) == v,
        plain_body(v),
        s[i + v.len()] == ']',
    ensures
        value_close(s, i as nat) == Some((i + v.len()) as nat),
    decreases v.len(),
{
    if v.len() > 0 {
        assert(s[i] == v[0]);
        let w = v.drop_first();
        assert(s.subrange(i + 1, i + 1 + w.len()) =~= w);
        lemma_value_close_plain(s, i + 1, w);
    }
}

proof fn lemma_values_at(s: Seq<char>, i: int, vs: Seq<Seq<char>>)
    requires
        0 <= i,
        i + bracketed(vs).len() <= s.len(),
        s.subrange(i, i + bracketed(vs).len()) == bracketed(vs),
        forall|k: int| 0 <= k < vs.len() ==> plain_body(#[trigger] vs[k]),
        i + bracketed(vs).len() == s.len() || s[i + bracketed(vs).len()] != '[',
    ensures
        values_from(s, i as nat) == Some((vs, (i + bracketed(vs).len()) as nat)),
    decreases vs.len(),
{
    if vs.len() > 0 {
        let b = bracketed(vs);
        let v = vs[0];
        let rest = vs.drop_first();
        let c = i + 1 + v.len();
        assert(b == seq!['['] + v + seq![']'] + bracketed(rest));
        assert(s[i] == b[0]);
        assert(s.subrange(i + 1, c) =~= v) by {
            assert forall|j: int| 0 <= j < v.len() implies s.subrange(i + 1, c)[j] == v[j] by {
                assert(s[i + 1 + j] == b[1 + j]);
            }
        }
        assert(s[c] == b[1 + v.len() as int]);
        lemma_value_close_plain(s, i + 1, v);
        assert(s.subrange(c + 1, c + 1 + bracketed(rest).len()) =~= bracketed(rest)) by {
            assert forall|j: int| 0 <= j < bracketed(rest).len() implies s.subrange(
                c + 1,
                c + 1 + bracketed(rest).len(),
            )[j] == bracketed(rest)[j] by {
                assert(s[c + 1 + j] == b[2 + v.len() as int + j]);
            }
        }
        assert forall|k: int| 0 <= k < rest.len() implies plain_body(#[trigger] rest[k]) by {
            assert(rest[k] == vs[k + 1]);
        }
        lemma_values_at(s, c + 1, rest);
        assert(seq![v] + rest =~= vs);
    } else {
        assert(bracketed(vs).len() == 0);
    }
}

/// Values written between brackets are read back exactly and in order, empty
/// ones included, when no body holds a closing bracket or a backslash.
pub proof fn values_read_back(vs: Seq<Seq<char>>, rest: Seq<char>)
    requires
        forall|k: int| 0 <= k < vs.len() ==> plain_body(#[trigger] vs[k]),
        rest.len() == 0 || rest[0] != '[',
    ensures
        values_from(bracketed(vs) + rest, 0) == Some((vs, bracketed(vs).len())),
{
    let s = bracketed(vs) + rest;
    assert(s.subrange(0, bracketed(vs).len() as int) =~= bracketed(vs));
    if rest.len() > 0 {
        assert(s[bracketed(vs).len() as int] == rest[0]);
    }
    lemma_values_at(s, 0, vs);
}

/// Properties written one after another, each as its identifier followed by
/// its bracketed values.
pub open spec fn props_text(ps: Seq<PropView>) -> Seq<char>
    decreases ps.len(),
{
    if ps.len() == 0 {
        seq![]
    } else {
        ps[0].ident + bracketed(ps[0].values) + props_text(ps.drop_first())
    }
}

/// A property that its text gives back: a non-empty identifier of uppercase
/// letters, and at least one value, each with a plain body.
pub open spec fn writable(p: PropView) -> bool {
    &&& p.ident.len() > 0
    &&& forall|j: int| 0 <= j < p.ident.len() ==> is_upper(#[trigger] p.ident[j])
    &&& p.values.len() > 0
    &&& forall|k: int| 0 <= k < p.values.len() ==> plain_body(#[trigger] p.values[k])
}

/// A character that may follow the properties of a node.
pub open spec fn ends_props(c: char) -> bool {
    !is_ws(c) && !is_upper(c) && c != '['
}

proof fn lemma_ident_end_run(s: Seq<char>, i: int, id: Seq<char>)
    requires
        0 <= i,
        i + id.len() <= s.len(),
        s.subrange(i, i + id.len()) == id,
        forall|j: int| 0 <= j < id.len() ==> is_upper(#[trigger] id[j]),
        i + id.len() == s.len() || !is_upper(s[i + id.len()]),
    ensures
        ident_end(s, i as nat) == (i + id.len()) as nat,
    decreases id.len(),
{
    if id.len() > 0 {
        assert(s[i] == id[0]);
        let w = id.drop_first();
        assert(s.subrange(i + 1, i + 1 + w.len()) =~= w);
        assert forall|j: int| 0 <= j < w.len() implies is_upper(#[trigger] w[j]) by {
            assert(w[j] == id[j + 1]);
        }
        lemma_ident_end_run(s, i + 1, w);
    }
}

proof fn lemma_props_at(s: Seq<char>, i: int, ps: Seq<PropView>)
    requires
        0 <= i,
        i + props_text(ps).len() <= s.len(),
        s.subrange(i, i + props_text(ps).len()) == props_text(ps),
        forall|k: int| 0 <= k < ps.len() ==> writable(#[trigger] ps[k]),
        i + props_text(ps).len() == s.len() || ends_props(s[i + props_text(ps).len()]),
    ensures
        props_from(s, i as nat) == Some((ps, (i + props_text(ps).len()) as nat)),
    decreases ps.len(),
{
    let t = props_text(ps);
    if ps.len() > 0 {
        let p = ps[0];
        let rest = ps.drop_first();
        assert(writable(p));
        let b = bracketed(p.values);
        let k = i + p.ident.len();
        let m = k + b.len();
        assert(t == p.ident + b + props_text(rest));
        assert(s[i] == t[0]);
        assert(t[0] == p.ident[0]);
        assert(s.subrange(i, k) =~= p.ident) by {
            assert forall|j: int| 0 <= j < p.ident.len() implies s.subrange(i, k)[j]
                == p.ident[j] by {
                assert(s[i + j] == t[j]);
            }
        }
        assert(b[0] == '[');
        assert(s[k] == t[p.ident.len() as int]);
        lemma_ident_end_run(s, i, p.ident);
        assert(s.subrange(k, m) =~= b) by {
            assert forall|j: int| 0 <= j < b.len() implies s.subrange(k, m)[j] == b[j] by {
                assert(s[k + j] == t[p.ident.len() + j]);
            }
        }
        let rt = props_text(rest);
        assert(s.subrange(m, m + rt.len()) =~= rt) by {
            assert forall|j: int| 0 <= j < rt.len() implies s.subrange(m, m + rt.len())[j]
                == rt[j] by {
                assert(s[m + j] == t[p.ident.len() + b.len() + j]);
            }
        }
        assert forall|k2: int| 0 <= k2 < rest.len() implies writable(#[trigger] rest[k2]) by {
            assert(rest[k2] == ps[k2 + 1]);
        }
        if rest.len() > 0 {
            assert(writable(rest[0]));
            assert(rt == rest[0].ident + bracketed(rest[0].values) + props_text(
                rest.drop_first(),
            ));
            assert(s[m] == rt[0]);
            assert(rt[0] == rest[0].ident[0]);
            assert(is_upper(s[m]));
        } else {
            assert(rt.len() == 0);
        }
        lemma_values_at(s, k, p.values);
        lemma_props_at(s, m, rest);
        assert(seq![PropView { ident: s.subrange(i, k), values: p.values }] + rest =~= ps);
    }
}

/// Properties written out are read back exactly and in order, when each has
/// an uppercase identifier and plain values, and what follows them cannot
/// continue a property.
pub proof fn props_read_back(ps: Seq<PropView>, rest: Seq<char>)
    requires
        forall|k: int| 0 <= k < ps.len() ==> writable(#[trigger] ps[k]),
        rest.len() == 0 || ends_props(rest[0]),
    ensures
        props_from(props_text(ps) + rest, 0) == Some((ps, props_text(ps).len())),
{
    let s = props_text(ps) + rest;
    assert(s.subrange(0, props_text(ps).len() as int) =~= props_text(ps));
    if rest.len() > 0 {
        assert(s[props_text(ps).len() as int] == rest[0]);
    }
    lemma_props_at(s, 0, ps);
}

/// Nodes written one after another, each as `;` and its properties.
pub open spec fn nodes_text(ns: Seq<Seq<PropView>>) -> Seq<char>
    decreases ns.len(),
{
    if ns.len() == 0 {
        seq![]
    } else {
        seq![';'] + props_text(ns[0]) + nodes_text(ns.drop_first())
    }
}

/// A game tree without variations, written between parentheses.
pub open spec fn tree_text(ns: Seq<Seq<PropView>>) -> Seq<char> {
    seq!['('] + nodes_text(ns) + seq![')']
}

/// Game trees written one after another.
pub open spec fn trees_text(ts: Seq<Seq<Seq<PropView>>>) -> Seq<char>
    decreases ts.len(),
{
    if ts.len() == 0 {
        seq![]
    } else {
        tree_text(ts[0]) + trees_text(ts.drop_first())
    }
}

pub open spec fn writable_nodes(ns: Seq<Seq<PropView>>) -> bool {
    forall|n: int, k: int|
        0 <= n < ns.len() && 0 <= k < ns[n].len() ==> writable(#[trigger] ns[n][k])
}

/// The parse of a game tree without variations.
pub open spec fn plain_tree(ns: Seq<Seq<PropView>>) -> TreeView {
    TreeView { nodes: ns, tail: seq![] }
}

proof fn lemma_same_text(s: Seq<char>, i: int, a: Seq<char>, j: int, b: Seq<char>)
    requires
        0 <= i,
        0 <= j,
        i + a.len() <= s.len(),
        s.subrange(i, i + a.len()) == a,
        j + b.len() <= a.len(),
        a.subrange(j, j + b.len()) == b,
    ensures
        s.subrange(i + j, i + j + b.len()) == b,
{
    assert forall|x: int| 0 <= x < b.len() implies s.subrange(i + j, i + j + b.len())[x]
        == b[x] by {
        assert(s[i + j + x] == s.subrange(i, i + a.len())[j + x]);
        assert(b[x] == a.subrange(j, j + b.len())[x]);
    }
    assert(s.subrange(i + j, i + j + b.len()) =~= b);
}

proof fn lemma_nodes_at(s: Seq<char>, i: int, ns: Seq<Seq<PropView>>)
    requires
        0 <= i,
        i + nodes_text(ns).len() <= s.len(),
        s.subrange(i, i + nodes_text(ns).len()) == nodes_text(ns),
        writable_nodes(ns),
        i + nodes_text(ns).len() == s.len() || (ends_props(s[i + nodes_text(ns).len()])
            && s[i + nodes_text(ns).len()] != ';'),
    ensures
        nodes_from(s, i as nat) == Some((ns, (i + nodes_text(ns).len()) as nat)),
    decreases ns.len(),
{
    let t = nodes_text(ns);
    if ns.len() > 0 {
        let n = ns[0];
        let rest = ns.drop_first();
        let pt = props_text(n);
        let rt = nodes_text(rest);
        let k = i + 1 + pt.len();
        assert(t == seq![';'] + pt + rt);
        assert(s[i] == s.subrange(i, i + t.len())[0]);
        assert(s[i] == ';');
        assert(t.subrange(1, 1 + pt.len() as int) =~= pt);
        lemma_same_text(s, i, t, 1, pt);
        assert(t.subrange(1 + pt.len() as int, 1 + pt.len() as int + rt.len()) =~= rt);
        lemma_same_text(s, i, t, 1 + pt.len() as int, rt);
        assert forall|x: int| 0 <= x < n.len() implies writable(#[trigger] n[x]) by {
            assert(writable(ns[0][x]));
        }
        assert(writable_nodes(rest)) by {
            assert forall|a: int, b: int| 0 <= a < rest.len() && 0 <= b < rest[a].len() implies writable(
                #[trigger] rest[a][b],
            ) by {
                assert(rest[a] == ns[a + 1]);
                assert(writable(ns[a + 1][b]));
            }
        }
        if rest.len() > 0 {
            assert(rt[0] == ';');
            assert(s[k] == s.subrange(k, k + rt.len())[0]);
        }
        lemma_props_at(s, i + 1, n);
        lemma_nodes_at(s, k, rest);
        assert(seq![n] + rest =~= ns);
    }
}

proof fn lemma_tree_at(s: Seq<char>, i: int, ns: Seq<Seq<PropView>>)
    requires
        0 <= i,
        i + tree_text(ns).len() <= s.len(),
        s.subrange(i, i + tree_text(ns).len()) == tree_text(ns),
        ns.len() > 0,
        writable_nodes(ns),
    ensures
        gametree_at(s, i as nat) == Some((plain_tree(ns), (i + tree_text(ns).len()) as nat)),
{
    let t = tree_text(ns);
    let nt = nodes_text(ns);
    let k = i + 1 + nt.len();
    assert(s[i] == s.subrange(i, i + t.len())[0]);
    assert(t.subrange(1, 1 + nt.len() as int) =~= nt);
    lemma_same_text(s, i, t, 1, nt);
    assert(s[k] == s.subrange(i, i + t.len())[1 + nt.len() as int]);
    assert(s[k] == ')');
    assert(nt.len() > 0);
    lemma_nodes_at(s, i + 1, ns);
    assert(tail_from(s, k as nat) == Some((Seq::<Seq<char>>::empty(), k as nat)));
}

proof fn lemma_trees_at(s: Seq<char>, i: int, ts: Seq<Seq<Seq<PropView>>>)
    requires
        0 <= i,
        i + trees_text(ts).len() <= s.len(),
        s.subrange(i, i + trees_text(ts).len()) == trees_text(ts),
        forall|x: int| 0 <= x < ts.len() ==> (#[trigger] ts[x]).len() > 0 && writable_nodes(ts[x]),
        i + trees_text(ts).len() == s.len(),
    ensures
        trees_from(s, i as nat) == Some((
            ts.map_values(|ns: Seq<Seq<PropView>>| plain_tree(ns)),
            (i + trees_text(ts).len()) as nat,
        )),
    decreases ts.len(),
{
    let t = trees_text(ts);
    if ts.len() > 0 {
        let ns = ts[0];
        let rest = ts.drop_first();
        let tt = tree_text(ns);
        let rt = trees_text(rest);
        let k = i + tt.len();
        assert(t == tt + rt);
        assert(t.subrange(0, tt.len() as int) =~= tt);
        lemma_same_text(s, i, t, 0, tt);
        assert(t.subrange(tt.len() as int, tt.len() as int + rt.len()) =~= rt);
        lemma_same_text(s, i, t, tt.len() as int, rt);
        assert(s[i] == tt[0]);
        lemma_tree_at(s, i, ns);
        assert forall|x: int| 0 <= x < rest.len() implies (#[trigger] rest[x]).len() > 0
            && writable_nodes(rest[x]) by {
            assert(rest[x] == ts[x + 1]);
        }
        lemma_trees_at(s, k, rest);
        assert(seq![plain_tree(ns)] + rest.map_values(|ns: Seq<Seq<PropView>>| plain_tree(ns))
            =~= ts.map_values(|ns: Seq<Seq<PropView>>| plain_tree(ns)));
    } else {
        assert(ts.map_values(|ns: Seq<Seq<PropView>>| plain_tree(ns)) =~= seq![]);
    }
}

/// Game trees without variations, written out, are read back as a document
/// with one game tree per written tree, in order, each with the first node as
/// its root and the others as its sequence.
pub proof fn document_read_back(ts: Seq<Seq<Seq<PropView>>>)
    requires
        forall|x: int| 0 <= x < ts.len() ==> (#[trigger] ts[x]).len() > 0 && writable_nodes(ts[x]),
    ensures
        sgf_of(trees_text(ts)) == Some(
            ts.map_values(|ns: Seq<Seq<PropView>>| tree_model(plain_tree(ns))),
        ),
{
    let s = trees_text(ts);
    assert(s.subrange(0, s.len() as int) =~= s);
    lemma_trees_at(s, 0, ts);
    let read = ts.map_values(|ns: Seq<Seq<PropView>>| plain_tree(ns));
    assert(file_of(s) == Some(read));
    assert(!exists|x: int| 0 <= x < read.len() && has_variation(#[trigger] read[x]));
    assert(read.map_values(|t: TreeView| tree_model(t)) =~= ts.map_values(
        |ns: Seq<Seq<PropView>>| tree_model(plain_tree(ns)),
    ));
}

/// Of two properties with one identifier in a node, the later one is kept
/// and the earlier is discarded whole.
pub proof fn last_write_wins(ps: Seq<PropView>, p: PropView)
    ensures
        node_map(ps.push(p)).contains_key(p.ident),
        node_map(ps.push(p))[p.ident] == p.values,
        node_map(ps.push(p)).remove(p.ident) == node_map(ps).remove(p.ident),
{
    assert(ps.push(p).drop_last() =~= ps);
    assert(node_map(ps.push(p)).remove(p.ident) =~= node_map(ps).remove(p.ident));
}

/// A node without properties reduces to the empty mapping.
pub proof fn empty_node()
    ensures
        node_map(Seq::<PropView>::empty()) == Map::<Seq<char>, Seq<Seq<char>>>::empty(),
{
}

/// A game tree's first node becomes its root and the others its sequence,
/// in order.
pub proof fn root_and_sequence(t: TreeView)
    requires
        t.nodes.len() > 0,
    ensures
        tree_model(t).root == node_map(t.nodes[0]),
        tree_model(t).seq.len() == t.nodes.len() - 1,
        forall|i: int|
            0 <= i < tree_model(t).seq.len() ==> #[trigger] tree_model(t).seq[i] == node_map(
                t.nodes[i + 1],
            ),
{
}

/// A text in the grammar with a variation in one of its game trees gives no
/// document.
pub proof fn variation_refused(text: Seq<char>, i: int)
    requires
        file_of(text) is Some,
        0 <= i < file_of(text)->0.len(),
        has_variation(file_of(text)->0[i]),
    ensures
        sgf_of(text) is None,
{
    assert(has_variation(file_of(text)->0[i]));
}

proof fn lemma_skip_ws_stops(s: Seq<char>, i: nat, q: int)
    requires
        i <= q < s.len(),
        !is_ws(s[q]),
    ensures
        skip_ws(s, i) <= q,
    decreases q - i,
{
    if i < q && is_ws(s[i as int]) {
        lemma_skip_ws_stops(s, i + 1, q);
    }
}

/// A text that is not blank and holds no closing parenthesis is refused.
pub proof fn unclosed_text_refused(s: Seq<char>, q: int)
    requires
        0 <= q < s.len(),
        !is_ws(s[q]),
        forall|j: int| 0 <= j < s.len() ==> s[j] != ')',
    ensures
        file_of(s) is None,
        sgf_of(s) is None,
{
    let p = skip_ws(s, 0);
    lemma_skip_ws_stops(s, 0, q);
    if s[p as int] == '(' {
        match gametree_at(s, p) {
            Some((_t, k)) => {
                let (_ns, m) = nodes_from(s, p + 1)->0;
                let (_ts, e) = tail_from(s, m)->0;
                assert(s[e as int] == ')');
            },
            None => {},
        }
    }
}

/// The document that a text denotes is one: two successful readings of the
/// same text are equal.
pub proof fn reading_is_deterministic(text: Seq<char>, a: Sgf, b: Sgf)
    requires
        sgf_of(text) == Some(a@),
        sgf_of(text) == Some(b@),
    ensures
        a@ == b@,
{
}

} // verus!
