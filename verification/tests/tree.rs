use tom_syntax::file::{CstNodeKind, NodeId, TomlFile, TomlNode};
use tom_syntax::syntax_kind::SyntaxKind;
use tom_syntax::text::TextRange;

const TEXTS: [&str; 16] = [
    "",
    "a = 1\nb = 2\n",
    "[t]\na=1\n",
    "a = [1,2,]",
    "a = ",
    "[[arr]]\nx=1\n[[arr]]\ny=2\n",
    ".",
    "=",
    "[",
    "]]]]",
    "{{{{",
    "\"\"\"never closed\n\n",
    "'''",
    "# lead\na = 1 # trail\n\n# far\n\nb = 'x'\n",
    "\u{e9} = \"\u{20ac}\" # \u{1f600}\n\0",
    "a.b.'c' = {x = true, y = [1979-05-27, 1e5, -3, inf, [[], {}]]}\n[x.\"y\"]\n[[z]]",
];

fn leaves(file: &TomlFile) -> String {
    let mut out = String::new();
    for i in 0..file.node_count() {
        let node = TomlNode::at(file, NodeId(i)).unwrap();
        if node.is_token() {
            out.push_str(node.text());
        }
    }
    out
}

fn leaves_below<'f>(node: TomlNode<'f>, out: &mut String) {
    if node.is_token() {
        out.push_str(node.text());
    }
    let mut children = node.children();
    while let Some(child) = children.next() {
        leaves_below(child, out);
    }
}

#[test]
fn the_leaves_of_the_tree_are_the_text() {
    for text in TEXTS {
        let file = TomlFile::new(text.to_string());
        assert_eq!(leaves(&file), text);
        let mut walked = String::new();
        leaves_below(file.parse_tree(), &mut walked);
        assert_eq!(walked, text);
        assert_eq!(file.text(), text);
    }
}

#[test]
fn the_leaves_below_a_node_are_its_text() {
    for text in TEXTS {
        let file = TomlFile::new(text.to_string());
        for i in 0..file.node_count() {
            let node = TomlNode::at(&file, NodeId(i)).unwrap();
            let mut below = String::new();
            leaves_below(node, &mut below);
            assert_eq!(below, node.text());
            assert_eq!(node.text(), &text[node.range().start..node.range().end]);
            assert_eq!(node.get_text(), node.text());
        }
    }
}

#[test]
fn every_text_has_a_tree_with_a_document_at_the_root() {
    for text in TEXTS {
        let file = TomlFile::new(text.to_string());
        let root = file.parse_tree();
        assert_eq!(root.kind(), SyntaxKind::DOC);
        assert_eq!(root.symbol(), SyntaxKind::DOC);
        assert_eq!(root.range(), TextRange::new(0, text.len()));
        assert!(root.parent().is_none());
        assert!(!root.is_token());
        assert_eq!(root.depth(), 0);
        assert_eq!(root.id(), NodeId(0));
    }
}

#[test]
fn single_punctuation_characters_parse() {
    for text in [".", ",", "[", "]", "{", "}", "=", ":", "+", "#", "\"", "'", "\\", "-"] {
        let file = TomlFile::new(text.to_string());
        assert_eq!(file.parse_tree().text(), text);
        assert!(file.node_count() >= 2);
    }
}

#[test]
fn parents_and_children_agree() {
    for text in TEXTS {
        let file = TomlFile::new(text.to_string());
        for i in 0..file.node_count() {
            let node = TomlNode::at(&file, NodeId(i)).unwrap();
            let children = node.child_nodes();
            assert_eq!(node.is_leaf(), children.is_empty());
            if node.is_token() {
                assert!(children.is_empty());
            }
            let mut at = node.range().start;
            for child in children.iter() {
                assert_eq!(child.parent().unwrap().id(), node.id());
                assert_eq!(child.depth(), node.depth() + 1);
                assert_eq!(child.range().start, at);
                at = child.range().end;
            }
            if !children.is_empty() {
                assert_eq!(at, node.range().end);
                assert_eq!(node.first_child().unwrap().id(), children[0].id());
            } else {
                assert!(node.first_child().is_none());
            }
            let mut cursor = node.children();
            let mut seen = Vec::new();
            while let Some(child) = cursor.next() {
                seen.push(child.id());
            }
            assert_eq!(seen, children.iter().map(|c| c.id()).collect::<Vec<NodeId>>());
            for pair in children.windows(2) {
                assert_eq!(pair[0].next_sibling().unwrap().id(), pair[1].id());
            }
            if let Some(last) = children.last() {
                assert!(last.next_sibling().is_none());
            }
        }
    }
}

#[test]
fn nodes_are_found_by_their_identity() {
    let file = TomlFile::new("a = 1".to_string());
    assert_eq!(file.node_count(), 9);
    assert!(TomlNode::at(&file, NodeId(8)).is_some());
    assert!(TomlNode::at(&file, NodeId(9)).is_none());
    let key = TomlNode::at(&file, NodeId(3)).unwrap();
    assert_eq!(key.kind(), SyntaxKind::BARE_KEY);
    assert_eq!(key.text(), "a");
    assert!(key.is_token());
    assert!(key.is_leaf());
    assert_eq!(key.depth(), 3);
    assert_eq!(key.parent().unwrap().kind(), SyntaxKind::KEY);
}

#[test]
fn a_key_is_relabelled_and_a_value_keeps_its_kind() {
    let file = TomlFile::new("92 = 92\ntrue = true\n1914-08-26 = 1914-08-26\n'q' = \"q\"".to_string());
    assert_eq!(file.errors().len(), 0);
    let mut tokens = Vec::new();
    for i in 0..file.node_count() {
        let node = TomlNode::at(&file, NodeId(i)).unwrap();
        if node.is_token() && !node.kind().is_trivia() && node.kind() != SyntaxKind::EQ {
            tokens.push((node.kind(), node.text()));
        }
    }
    assert_eq!(
        tokens,
        vec![
            (SyntaxKind::BARE_KEY, "92"),
            (SyntaxKind::INT, "92"),
            (SyntaxKind::BARE_KEY, "true"),
            (SyntaxKind::TRUE, "true"),
            (SyntaxKind::BARE_KEY, "1914-08-26"),
            (SyntaxKind::DATE_TIME, "1914-08-26"),
            (SyntaxKind::LITERAL_LINE_STRING, "'q'"),
            (SyntaxKind::BASIC_LINE_STRING, "\"q\""),
        ]
    );
}

#[test]
fn nesting_is_as_deep_as_the_text() {
    let text = "a = [[[[[[[[[[1]]]]]]]]]]";
    let file = TomlFile::new(text.to_string());
    assert_eq!(file.errors().len(), 0);
    let mut deepest = 0;
    for i in 0..file.node_count() {
        let node = TomlNode::at(&file, NodeId(i)).unwrap();
        if node.depth() > deepest {
            deepest = node.depth();
        }
    }
    assert_eq!(deepest, 13);
}

#[test]
fn deep_nesting_parses() {
    let depth = 2000;
    let text = format!("a = {}1{}", "[".repeat(depth), "]".repeat(depth));
    let file = TomlFile::new(text.clone());
    assert_eq!(file.errors().len(), 0);
    assert_eq!(file.parse_tree().text(), text);
    assert_eq!(file.node_count(), 3 * depth + 9);
    let open = format!("a = {}", "{x = ".repeat(500));
    let broken = TomlFile::new(open.clone());
    assert_eq!(broken.parse_tree().text(), open);
    assert!(broken.errors().len() > 500);
}

#[test]
fn a_long_flat_text_parses() {
    let mut text = String::new();
    for i in 0..5000 {
        text.push_str(&format!("key{} = {} # n\n", i, i));
    }
    let file = TomlFile::new(text.clone());
    assert_eq!(file.errors().len(), 0);
    assert_eq!(file.parse_tree().child_nodes().iter().filter(|n| n.kind() == SyntaxKind::ENTRY).count(), 5000);
    assert_eq!(file.parse_tree().text(), text);
}

#[test]
fn a_node_is_a_leaf_with_text_or_has_children() {
    let file = TomlFile::new("a = 1".to_string());
    match file.parse_tree().node_kind() {
        CstNodeKind::Internal(mut children) => {
            assert_eq!(children.next().unwrap().kind(), SyntaxKind::ENTRY);
            assert!(children.next().is_none());
        }
        CstNodeKind::Leaf(_) => panic!("the root is no token"),
    }
    match TomlNode::at(&file, NodeId(3)).unwrap().node_kind() {
        CstNodeKind::Leaf(text) => assert_eq!(text, "a"),
        CstNodeKind::Internal(_) => panic!("the key is a token"),
    }
}
