use sgf::document::{parse_collection, parse_node, GameTree, Node, Property, Sgf};
use sgf::grammar::{GameTreePair, NodePair, PropertyPair, SgfParser};

fn values_of(node: &Node, ident: &str) -> Vec<String> {
    node.get(ident).expect("property is present").values.clone()
}

fn prop(ident: &str, values: &[&str]) -> PropertyPair {
    PropertyPair {
        ident: ident.to_string(),
        values: values.iter().map(|v| v.to_string()).collect(),
    }
}

#[test]
fn parser() {
    let text = "(;GM[1]FF[4]SZ[19]PB[Black]PW[White]\n;B[pd];W[dp];B[pp]\n)\n";
    let sgf = Sgf::from_str(text).expect("successful parse");
    assert_eq!(sgf.collection.len(), 1);
    let tree = &sgf.collection[0];
    assert_eq!(values_of(&tree.root, "SZ"), vec!["19"]);
    assert_eq!(values_of(&tree.root, "PB"), vec!["Black"]);
    assert_eq!(tree.seq.len(), 3);
    assert_eq!(values_of(&tree.seq[0], "B"), vec!["pd"]);
    assert_eq!(values_of(&tree.seq[1], "W"), vec!["dp"]);
    assert_eq!(values_of(&tree.seq[2], "B"), vec!["pp"]);
}

#[test]
fn values_kept_in_order() {
    let sgf = Sgf::from_str("(;ID[v1][v2][v3])").unwrap();
    let root = &sgf.collection[0].root;
    assert_eq!(values_of(root, "ID"), vec!["v1", "v2", "v3"]);
    assert_eq!(root.get("ID").unwrap().ident, "ID");
}

#[test]
fn empty_values_kept() {
    let sgf = Sgf::from_str("(;ID[][])").unwrap();
    assert_eq!(values_of(&sgf.collection[0].root, "ID"), vec!["", ""]);
}

#[test]
fn many_values_of_one_property() {
    let sgf = Sgf::from_str("(;AW[a][b][c])").unwrap();
    assert_eq!(values_of(&sgf.collection[0].root, "AW"), vec!["a", "b", "c"]);
}

#[test]
fn escaped_bracket_kept_verbatim() {
    let sgf = Sgf::from_str("(;C[a\\]b][x\\\\])").unwrap();
    assert_eq!(values_of(&sgf.collection[0].root, "C"), vec!["a\\]b", "x\\\\"]);
}

#[test]
fn duplicate_identifier_last_wins() {
    let sgf = Sgf::from_str("(;A[1]A[2])").unwrap();
    let root = &sgf.collection[0].root;
    let p = root.get("A").unwrap();
    assert_eq!(p.ident, "A");
    assert_eq!(p.values, vec!["2".to_string()]);
}

#[test]
fn duplicate_identifier_in_parsed_node() {
    let pair = NodePair {
        properties: vec![prop("A", &["1"]), prop("B", &["x"]), prop("A", &["2"])],
    };
    let node = parse_node(pair);
    assert_eq!(values_of(&node, "A"), vec!["2"]);
    assert_eq!(values_of(&node, "B"), vec!["x"]);
    assert!(!node.contains_key("C"));
}

#[test]
fn root_and_sequence_split() {
    let sgf = Sgf::from_str("(;A[1];B[2];C[3])").unwrap();
    let tree = &sgf.collection[0];
    assert_eq!(values_of(&tree.root, "A"), vec!["1"]);
    assert!(!tree.root.contains_key("B"));
    assert_eq!(tree.seq.len(), 2);
    assert_eq!(values_of(&tree.seq[0], "B"), vec!["2"]);
    assert_eq!(values_of(&tree.seq[1], "C"), vec!["3"]);
    assert!(!tree.seq[0].contains_key("C"));
}

#[test]
fn collection_order_and_count() {
    let sgf = Sgf::from_str("(;A[1])(;B[2])").unwrap();
    assert_eq!(sgf.collection.len(), 2);
    assert!(sgf.collection[0].root.contains_key("A"));
    assert!(!sgf.collection[0].root.contains_key("B"));
    assert!(sgf.collection[1].root.contains_key("B"));
}

#[test]
fn whitespace_between_trees_and_nodes() {
    let sgf = Sgf::from_str("  (;A[1]\n ;B[2] )\n\t(; C[3])  \n").unwrap();
    assert_eq!(sgf.collection.len(), 2);
    assert_eq!(values_of(&sgf.collection[0].seq[0], "B"), vec!["2"]);
    assert_eq!(values_of(&sgf.collection[1].root, "C"), vec!["3"]);
}

#[test]
fn empty_property_node() {
    let sgf = Sgf::from_str("(;)").unwrap();
    let tree = &sgf.collection[0];
    assert!(tree.root.is_empty());
    assert!(tree.seq.is_empty());
    let sgf = Sgf::from_str("(;;A[1])").unwrap();
    assert!(sgf.collection[0].root.is_empty());
    assert!(!sgf.collection[0].seq[0].is_empty());
}

#[test]
fn empty_document_is_empty_collection() {
    assert_eq!(Sgf::from_str("").unwrap().collection.len(), 0);
    assert_eq!(Sgf::from_str(" \n ").unwrap().collection.len(), 0);
}

#[test]
fn unbalanced_parentheses_rejected() {
    assert_eq!(Sgf::from_str("(;A[1]").unwrap_err(), "Parsing error");
    assert_eq!(Sgf::from_str("(;A[1]))").unwrap_err(), "Parsing error");
    assert_eq!(Sgf::from_str(";A[1])").unwrap_err(), "Parsing error");
}

#[test]
fn unterminated_value_rejected() {
    assert_eq!(Sgf::from_str("(;A[1)").unwrap_err(), "Parsing error");
    assert_eq!(Sgf::from_str("(;A[1\\])").unwrap_err(), "Parsing error");
}

#[test]
fn lowercase_identifier_rejected() {
    assert_eq!(Sgf::from_str("(;a[1])").unwrap_err(), "Parsing error");
}

#[test]
fn other_malformed_inputs_rejected() {
    assert_eq!(Sgf::from_str("()").unwrap_err(), "Parsing error");
    assert_eq!(Sgf::from_str("(;A)").unwrap_err(), "Parsing error");
    assert_eq!(Sgf::from_str("(;A [1])").unwrap_err(), "Parsing error");
    assert_eq!(Sgf::from_str("x").unwrap_err(), "Parsing error");
}

#[test]
fn variation_rejected() {
    let r = Sgf::from_str("(;A[1];B[2](;C[3])(;D[4]))");
    assert_eq!(r.unwrap_err(), "Variations are not supported");
}

#[test]
fn malformed_variation_is_a_parse_error() {
    let r = Sgf::from_str("(;A[1](;C[3))");
    assert_eq!(r.unwrap_err(), "Parsing error");
}

#[test]
fn parsing_twice_gives_equal_documents() {
    let text = "(;A[1]B[x][y];C[3])(;D[])";
    let a = Sgf::from_str(text).unwrap();
    let b = Sgf::from_str(text).unwrap();
    assert_eq!(a, b);
    assert_eq!(format!("{:?}", a), format!("{:?}", b));
    assert_eq!(a.collection.len(), b.collection.len());
    assert_eq!(values_of(&a.collection[0].root, "B"), values_of(&b.collection[0].root, "B"));
}

#[test]
fn grammar_reports_tail_text() {
    let trees = SgfParser::parse("(;A[1](;B[2]) (;C[3]))").unwrap();
    assert_eq!(trees.len(), 1);
    assert_eq!(trees[0].nodes.len(), 1);
    assert_eq!(trees[0].tail, vec!["(;B[2])".to_string(), "(;C[3])".to_string()]);
    assert!(SgfParser::parse("(;A[1]").is_none());
}

#[test]
fn game_tree_without_nodes_has_empty_root() {
    let pair = GameTreePair { nodes: vec![], tail: vec![] };
    let tree = GameTree::from_pair(pair).unwrap();
    assert!(tree.root.is_empty());
    assert!(tree.seq.is_empty());
}

#[test]
fn game_tree_with_tail_refused() {
    let pair = GameTreePair {
        nodes: vec![NodePair { properties: vec![prop("A", &["1"])] }],
        tail: vec!["(;B[2])".to_string()],
    };
    assert_eq!(GameTree::from_pair(pair).unwrap_err(), "Variations are not supported");
}

#[test]
fn collection_of_pairs() {
    let first = GameTreePair {
        nodes: vec![
            NodePair { properties: vec![prop("A", &["1"])] },
            NodePair { properties: vec![prop("B", &["2"])] },
        ],
        tail: vec![],
    };
    let second = GameTreePair {
        nodes: vec![NodePair { properties: vec![] }],
        tail: vec![],
    };
    let c = parse_collection(vec![first, second]).unwrap();
    assert_eq!(c.len(), 2);
    assert_eq!(values_of(&c[0].root, "A"), vec!["1"]);
    assert_eq!(values_of(&c[0].seq[0], "B"), vec!["2"]);
    assert!(c[1].root.is_empty());
}

#[test]
fn from_pair_refuses_any_variation() {
    let plain = GameTreePair { nodes: vec![NodePair { properties: vec![] }], tail: vec![] };
    let branching = GameTreePair {
        nodes: vec![NodePair { properties: vec![] }],
        tail: vec!["(;)".to_string()],
    };
    let r = Sgf::from_pair(vec![plain, branching]);
    assert_eq!(r.unwrap_err(), "Variations are not supported");
}

#[test]
fn node_equality_ignores_property_order() {
    let a = Sgf::from_str("(;A[1]B[2])").unwrap();
    let b = Sgf::from_str("(;B[2]A[1])").unwrap();
    assert_eq!(a.collection[0].root, b.collection[0].root);
    assert_eq!(a, b);
}

#[test]
fn different_documents_are_not_equal() {
    let a = Sgf::from_str("(;A[1]B[2])").unwrap();
    assert_ne!(a, Sgf::from_str("(;A[1]B[3])").unwrap());
    assert_ne!(a, Sgf::from_str("(;A[1])").unwrap());
    assert_ne!(a, Sgf::from_str("(;A[1]B[2];C[3])").unwrap());
    assert_ne!(a, Sgf::from_str("(;A[1]B[2])(;)").unwrap());
    assert_ne!(a, Sgf::from_str("(;A[1]B[2][2])").unwrap());
}

#[test]
fn property_equality() {
    let p = Property { ident: "AB".to_string(), values: vec!["aa".to_string()] };
    let q = Property { ident: "AB".to_string(), values: vec!["aa".to_string()] };
    let r = Property { ident: "AW".to_string(), values: vec!["aa".to_string()] };
    assert_eq!(p, q);
    assert_ne!(p, r);
}
