use tom_syntax::file::{NodeId, TomlFile, TomlNode};
use tom_syntax::lexer::tokenize;
use tom_syntax::parse::parse;

const ALPHABET: [&str; 28] = [
    "a", "b", "1", "0", "-", "_", ".", ",", "=", "[", "]", "{", "}", "+", ":", "#", "\"", "'", "\\", " ", "\n",
    "\t", "\r", "e", "T", "\u{e9}", "\u{1f600}", "true",
];

fn texts(count: usize, longest: usize) -> Vec<String> {
    let mut state: u64 = 0x2545_f491_4f6c_dd1d;
    let mut next = move || {
        state ^= state << 13;
        state ^= state >> 7;
        state ^= state << 17;
        state
    };
    let mut all = Vec::new();
    for _ in 0..count {
        let len = (next() % (longest as u64 + 1)) as usize;
        let mut text = String::new();
        for _ in 0..len {
            text.push_str(ALPHABET[(next() % ALPHABET.len() as u64) as usize]);
        }
        all.push(text);
    }
    all
}

#[test]
fn tokens_of_any_text_cover_it() {
    for text in texts(3000, 30) {
        let mut at = 0;
        for token in tokenize(&text) {
            assert_eq!(token.range.start, at);
            assert!(token.range.end > at);
            assert!(text.is_char_boundary(token.range.end));
            at = token.range.end;
        }
        assert_eq!(at, text.len());
    }
}

#[test]
fn the_tree_of_any_text_holds_the_text() {
    for text in texts(2000, 40) {
        let file = TomlFile::new(text.clone());
        let mut leaves = String::new();
        let mut open = Vec::new();
        for i in 0..file.node_count() {
            let node = TomlNode::at(&file, NodeId(i)).unwrap();
            while open.last().map_or(false, |end| *end <= i) {
                open.pop();
            }
            assert_eq!(node.depth(), open.len());
            if node.is_token() {
                leaves.push_str(node.text());
                assert!(node.is_leaf());
            } else {
                let mut below = 0;
                for child in node.child_nodes() {
                    assert_eq!(child.parent().unwrap().id(), node.id());
                    below += child.text().len();
                }
                assert_eq!(below, node.text().len());
                open.push(i + 1 + node.chunked_text().len() + count_below(&file, node));
            }
        }
        assert_eq!(leaves, text);
        assert_eq!(file.parse_tree().text(), text);
    }
}

fn count_below(file: &TomlFile, node: TomlNode) -> usize {
    let mut inner = 0;
    let mut stack = node.child_nodes();
    while let Some(next) = stack.pop() {
        if !next.is_token() {
            inner += 1;
            stack.extend(next.child_nodes());
        }
    }
    let _ = file;
    inner
}

#[test]
fn the_green_tree_of_any_text_holds_the_text() {
    for text in texts(1000, 40) {
        let parsed = parse(&text);
        let root = rowan::cursor::SyntaxNode::new_root(parsed.green().clone());
        assert_eq!(root.text().to_string(), text);
        assert_eq!(parsed.toml_file().text(), text);
        let mut nodes = 0;
        for _ in root.descendants_with_tokens() {
            nodes += 1;
        }
        assert_eq!(nodes, parsed.toml_file().node_count());
    }
}
