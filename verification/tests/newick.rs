use pace26io::binary_tree::{
    BinTree, BinTreeBuilder, IndexedBinTreeBuilder, Label, NodeIdx, TopDownCursor, TreeBuilder,
    TreeWithNodeIdx,
};
use pace26io::newick::lexer::{Lexer, LexerError, Token, TokenType};
use pace26io::newick::{BinaryTreeParser, NewickWriter, ParserError};
use rand::{RngExt, SeedableRng};
use rand_pcg::Pcg64Mcg;

// ------------------------------------------------------------------
// Lexer
// ------------------------------------------------------------------

#[test]
fn strict_correct() {
    let mut lexer = Lexer::new(")(10(;23,");
    assert_eq!(
        lexer.next(),
        Some(Ok(Token { offset: 0, token_type: TokenType::ParClose }))
    );
    assert_eq!(
        lexer.next(),
        Some(Ok(Token { offset: 1, token_type: TokenType::ParOpen }))
    );
    assert_eq!(
        lexer.next(),
        Some(Ok(Token { offset: 2, token_type: TokenType::Number(10) }))
    );
    assert_eq!(
        lexer.next(),
        Some(Ok(Token { offset: 4, token_type: TokenType::ParOpen }))
    );
    assert_eq!(
        lexer.next(),
        Some(Ok(Token { offset: 5, token_type: TokenType::Semicolon }))
    );
    assert_eq!(
        lexer.next(),
        Some(Ok(Token { offset: 6, token_type: TokenType::Number(23) }))
    );
    assert_eq!(
        lexer.next(),
        Some(Ok(Token { offset: 8, token_type: TokenType::Comma }))
    );
}

#[test]
fn strict_with_spaces() {
    let mut lexer = Lexer::new(")( 10(;23");
    assert_eq!(
        lexer.next(),
        Some(Ok(Token { offset: 0, token_type: TokenType::ParClose }))
    );
    assert_eq!(
        lexer.next(),
        Some(Ok(Token { offset: 1, token_type: TokenType::ParOpen }))
    );
    assert!(lexer.next().unwrap().is_err());
}

#[test]
fn nonstrict_with_spaces() {
    let mut lexer = Lexer::new(")( 10(;23");
    lexer.allow_whitespaces();
    assert_eq!(
        lexer.next(),
        Some(Ok(Token { offset: 0, token_type: TokenType::ParClose }))
    );
    assert_eq!(
        lexer.next(),
        Some(Ok(Token { offset: 1, token_type: TokenType::ParOpen }))
    );
    assert_eq!(
        lexer.next(),
        Some(Ok(Token { offset: 3, token_type: TokenType::Number(10) }))
    );
    assert_eq!(
        lexer.next(),
        Some(Ok(Token { offset: 5, token_type: TokenType::ParOpen }))
    );
    assert_eq!(
        lexer.next(),
        Some(Ok(Token { offset: 6, token_type: TokenType::Semicolon }))
    );
    assert_eq!(
        lexer.next(),
        Some(Ok(Token { offset: 7, token_type: TokenType::Number(23) }))
    );
}

#[test]
fn nonstrict_with_unicode_spaces() {
    // whitespace skipping covers the whole Unicode White_Space set
    let mut lexer = Lexer::new("(\u{A0}7");
    lexer.allow_whitespaces();
    assert_eq!(
        lexer.next(),
        Some(Ok(Token { offset: 0, token_type: TokenType::ParOpen }))
    );
    assert_eq!(
        lexer.next(),
        Some(Ok(Token { offset: 2, token_type: TokenType::Number(7) }))
    );
}

#[test]
fn random_number() {
    const ITERATIONS: usize = 10_000;
    let mut rng = Pcg64Mcg::seed_from_u64(0x1234678);
    for _ in 0..ITERATIONS {
        let mut text = String::with_capacity(20);
        let mut expected = Vec::with_capacity(3);

        if rng.random_bool(0.5) {
            expected.push(Token {
                offset: text.len(),
                token_type: TokenType::ParOpen,
            });
            text.push('(');
        }

        let rand_num = rng.random_range(0..u32::MAX);
        expected.push(Token {
            offset: text.len(),
            token_type: TokenType::Number(rand_num),
        });
        text.push_str(format!("{rand_num}").as_str());

        if rng.random_bool(0.5) {
            expected.push(Token {
                offset: text.len(),
                token_type: TokenType::ParClose,
            });
            text.push(')');
        }
    }
}

#[test]
fn number_wraps_past_32_bits() {
    // numeric literals beyond the 32-bit range wrap modulo 2^32
    let mut lexer = Lexer::new("4294967296");
    assert_eq!(
        lexer.next(),
        Some(Ok(Token { offset: 0, token_type: TokenType::Number(0) }))
    );
    let mut lexer = Lexer::new("4294967297");
    assert_eq!(
        lexer.next(),
        Some(Ok(Token { offset: 0, token_type: TokenType::Number(1) }))
    );
}

#[test]
fn unexpected_character() {
    let mut lexer = Lexer::new("1a");
    assert_eq!(
        lexer.next(),
        Some(Ok(Token { offset: 0, token_type: TokenType::Number(1) }))
    );
    assert_eq!(
        lexer.next(),
        Some(Err(LexerError::UnexpectedChar { character: 'a', offset: 1 }))
    );
}

// ------------------------------------------------------------------
// Parser
// ------------------------------------------------------------------

#[test]
fn binary_tree_parser_leaf() {
    let tree = BinTreeBuilder::default()
        .parse_newick_from_str("132;", NodeIdx::new(0))
        .unwrap();
    assert_eq!(tree.top_down().leaf_label(), Some(Label(132)));
}

#[test]
fn unexpected_end() {
    let result = BinTreeBuilder::default()
        .parse_newick_from_str("123", NodeIdx::new(0))
        .unwrap_err();
    assert!(matches!(result, ParserError::UnexpectedEnd { .. }), "Got: {result:?}");
}

#[test]
fn expected_end() {
    let result = BinTreeBuilder::default()
        .parse_newick_from_str("123,", NodeIdx::new(0))
        .unwrap_err();
    assert!(matches!(result, ParserError::ExpectedEnd { .. }), "Got: {result:?}");
}

#[test]
fn expected_comma() {
    let result = BinTreeBuilder::default()
        .parse_newick_from_str("(123)", NodeIdx::new(0))
        .unwrap_err();
    assert!(matches!(result, ParserError::ExpectedComma { .. }), "Got: {result:?}");
}

#[test]
fn expected_node_begin() {
    let result = BinTreeBuilder::default()
        .parse_newick_from_str("(123,)", NodeIdx::new(0))
        .unwrap_err();
    assert!(matches!(result, ParserError::ExpectedNodeBegin { .. }), "Got: {result:?}");
}

#[test]
fn expected_closing() {
    let result = BinTreeBuilder::default()
        .parse_newick_from_str("(123,123,23)", NodeIdx::new(0))
        .unwrap_err();
    assert!(matches!(result, ParserError::ExpectedClosing { .. }), "Got: {result:?}");
}

#[test]
fn lexer_error_propagates() {
    let result = BinTreeBuilder::default()
        .parse_newick_from_str("(1,a);", NodeIdx::new(0))
        .unwrap_err();
    assert_eq!(
        result,
        ParserError::Lexer(LexerError::UnexpectedChar { character: 'a', offset: 3 })
    );
}

#[test]
fn binary() {
    let mut lexer = Lexer::new(" ( ( 0 , 1 ) , 2 ) ;");
    lexer.allow_whitespaces();
    let tree = BinTreeBuilder::default()
        .parse_newick_from_lexer(&mut lexer, NodeIdx::new(0))
        .expect("A valid binary tree");
    let lc = tree.top_down().left_child().unwrap();

    assert_eq!(lc.left_child().unwrap().leaf_label().unwrap(), Label(0));
    assert_eq!(lc.right_child().unwrap().leaf_label().unwrap(), Label(1));
    assert_eq!(
        tree.top_down().right_child().unwrap().leaf_label().unwrap(),
        Label(2)
    );
}

#[test]
fn parser_writer_roundtrip() {
    fn test_string(text: &str) {
        let tree = BinTreeBuilder::default()
            .parse_newick_from_str(text, NodeIdx::new(0))
            .unwrap();
        assert_eq!(text, tree.top_down().to_newick_string());
    }

    test_string("1;");
    test_string("(1,2);");
    test_string("(1,(5,91234));");
    test_string("(((4,2),(7,1)),8);");
}

fn navigate<T: TopDownCursor>(mut cursor: T, path: &str) -> Option<T> {
    for x in path.chars() {
        match x {
            'l' => {
                cursor = cursor.left_child()?;
            }

            'r' => {
                cursor = cursor.right_child()?;
            }

            _ => panic!("Unknown char"),
        }
    }

    Some(cursor)
}

#[test]
fn parser_indexed_bintree() {
    let tree = IndexedBinTreeBuilder::default()
        .parse_newick_from_str("((1,2),(3,(5,4)));", NodeIdx::new(6))
        .unwrap();

    assert_eq!(tree.node_idx(), NodeIdx::new(6));

    let td = tree.top_down();
    assert_eq!(navigate(td, "l").unwrap().node_idx(), NodeIdx::new(7));
    assert_eq!(navigate(td, "ll").unwrap().node_idx(), NodeIdx::new(1));
    assert_eq!(navigate(td, "lr").unwrap().node_idx(), NodeIdx::new(2));
    assert_eq!(navigate(td, "r").unwrap().node_idx(), NodeIdx::new(8));
    assert_eq!(navigate(td, "rl").unwrap().node_idx(), NodeIdx::new(3));
    assert_eq!(navigate(td, "rr").unwrap().node_idx(), NodeIdx::new(9));
    assert_eq!(navigate(td, "rrl").unwrap().node_idx(), NodeIdx::new(5));
    assert_eq!(navigate(td, "rrr").unwrap().node_idx(), NodeIdx::new(4));
}

#[test]
fn reparse_writer_output() {
    // re-reading the writer's own output yields an equal tree, whatever
    // root index the second parse starts from
    let mut builder = BinTreeBuilder::default();
    let first = builder
        .parse_newick_from_str("(((4,2),(7,1)),8);", NodeIdx::new(0))
        .unwrap();
    let text = first.top_down().to_newick_string();
    let second = builder.parse_newick_from_str(&text, NodeIdx::new(17)).unwrap();
    assert_eq!(first, second);
    assert_eq!(text, second.top_down().to_newick_string());
}

// ------------------------------------------------------------------
// Writer
// ------------------------------------------------------------------

fn written(tree: BinTree) -> String {
    let mut buffer = String::new();
    tree.top_down().write_newick(&mut buffer);
    buffer
}

#[test]
fn binary_tree_writer_leaf() {
    let tree = BinTreeBuilder::default().new_leaf(Label(1234));
    assert_eq!(written(tree), "1234;");
}

#[test]
fn pair() {
    let mut build = BinTreeBuilder::default();

    let l1 = build.new_leaf(Label(1234));
    let l2 = build.new_leaf(Label(5678));
    let tree = build.new_inner(NodeIdx::new(0), l1, l2);

    assert_eq!(written(tree), "(1234,5678);");
}

#[test]
fn writer_label_edges() {
    let mut build = BinTreeBuilder::default();
    let l1 = build.new_leaf(Label(0));
    let l2 = build.new_leaf(Label(u32::MAX));
    let tree = build.new_inner(NodeIdx::new(0), l1, l2);
    assert_eq!(written(tree), "(0,4294967295);");
}
