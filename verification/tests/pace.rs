use pace26io::binary_tree::{BinTreeBuilder, IndexedBinTreeBuilder, Label, NodeIdx, TopDownCursor, TreeWithNodeIdx};
use pace26io::newick::ParserError;
use pace26io::pace::reader::{Action, InstanceReader, InstanceVisitor, ReaderError};
use pace26io::pace::simplified::{Instance, SimplifiedReaderError};
use pace26io::pace::TreeDecomposition;

struct TestVisitor {
    pub headers: Vec<(usize, usize, usize)>,
    pub trees: Vec<(usize, String)>,
    pub extra_whitespace_lines: Vec<(usize, String)>,
    pub unrecognized_dash_lines: Vec<(usize, String)>,
    pub unrecognized_lines: Vec<(usize, String)>,
    pub stride_lines: Vec<(usize, String, String, String)>,
    pub approx_lines: Vec<(usize, String, usize)>,
    pub tree_decompositions: Vec<(usize, TreeDecomposition)>,
}

impl TestVisitor {
    fn new() -> Self {
        Self {
            headers: vec![],
            trees: vec![],
            extra_whitespace_lines: vec![],
            unrecognized_dash_lines: vec![],
            unrecognized_lines: vec![],
            stride_lines: vec![],
            approx_lines: vec![],
            tree_decompositions: vec![],
        }
    }
}

impl InstanceVisitor for TestVisitor {
    fn wants_tree_decomposition() -> bool {
        true
    }

    fn visit_header(&mut self, lineno: usize, num_trees: usize, num_leafs: usize) -> Action {
        self.headers.push((lineno, num_trees, num_leafs));
        Action::Continue
    }

    fn visit_tree(&mut self, lineno: usize, line: &str) -> Action {
        self.trees.push((lineno, line.to_string()));
        Action::Continue
    }

    fn visit_line_with_extra_whitespace(&mut self, lineno: usize, line: &str) -> Action {
        self.extra_whitespace_lines.push((lineno, line.to_string()));
        Action::Continue
    }

    fn visit_unrecognized_dash_line(&mut self, lineno: usize, line: &str) -> Action {
        self.unrecognized_dash_lines.push((lineno, line.to_string()));
        Action::Continue
    }

    fn visit_unrecognized_line(&mut self, lineno: usize, line: &str) -> Action {
        self.unrecognized_lines.push((lineno, line.to_string()));
        Action::Continue
    }

    fn visit_stride_line(&mut self, lineno: usize, line: &str, key: &str, value: &str) -> Action {
        self.stride_lines
            .push((lineno, line.to_string(), key.to_string(), value.to_string()));
        Action::Continue
    }

    fn visit_approx_line(&mut self, lineno: usize, value: &str, count: usize) -> Action {
        self.approx_lines.push((lineno, value.to_string(), count));
        Action::Continue
    }

    fn visit_param_tree_decomposition(&mut self, lineno: usize, td: TreeDecomposition) -> Action {
        self.tree_decompositions.push((lineno, td));
        Action::Continue
    }
}

// ------------------------------------------------------------------
// InstanceReader
// ------------------------------------------------------------------

#[test]
fn test_valid_input() {
    let input = "#p 2 3\n(1);\n# comment\n(2);\n";

    let mut reader = InstanceReader::new(TestVisitor::new());
    reader.read(input).unwrap();
    let visitor = reader.visitor;

    assert_eq!(visitor.headers, vec![(0, 2, 3)]);
    assert_eq!(
        visitor.trees,
        vec![(1, "(1);".to_string()), (3, "(2);".to_string())]
    );
    assert!(visitor.extra_whitespace_lines.is_empty());
    assert!(visitor.unrecognized_dash_lines.is_empty());
    assert!(visitor.unrecognized_lines.is_empty());
}

#[test]
fn input_with_whitespace() {
    let input = "#p 2 3\n (1);\n\n(2);";

    let mut reader = InstanceReader::new(TestVisitor::new());
    reader.read(input).unwrap();
    let visitor = reader.visitor;

    assert_eq!(visitor.headers, vec![(0, 2, 3)]);
    assert_eq!(
        visitor.trees,
        vec![(1, "(1);".to_string()), (3, "(2);".to_string())]
    );
    assert_eq!(
        visitor.extra_whitespace_lines,
        vec![(1, " (1);".to_string())]
    );
    assert!(visitor.unrecognized_dash_lines.is_empty());
    assert!(visitor.unrecognized_lines.is_empty());
}

#[test]
fn input_with_unrecognized_lines() {
    let input = "#p 2 3\n (1);\n\n(2);\n#<illegal comment\n(3)missing semicolon";

    let mut reader = InstanceReader::new(TestVisitor::new());
    reader.read(input).unwrap();
    let visitor = reader.visitor;

    assert_eq!(visitor.headers, vec![(0, 2, 3)]);
    assert_eq!(
        visitor.trees,
        vec![(1, "(1);".to_string()), (3, "(2);".to_string())]
    );
    assert_eq!(
        visitor.extra_whitespace_lines,
        vec![(1, " (1);".to_string())]
    );
    assert_eq!(
        visitor.unrecognized_dash_lines,
        vec![(4, "#<illegal comment".to_string())]
    );
    assert_eq!(
        visitor.unrecognized_lines,
        vec![(5, "(3)missing semicolon".to_string())]
    );
}

#[test]
fn input_with_stride_line() {
    let input = "#p 2 3\n#s stride_key: somevalue\n(1);\n";
    let mut reader = InstanceReader::new(TestVisitor::new());
    reader.read(input).unwrap();
    let visitor = reader.visitor;

    assert_eq!(
        visitor.stride_lines,
        vec![(
            1,
            "#s stride_key: somevalue".to_string(),
            "stride_key:".to_string(),
            "somevalue".to_string()
        )]
    );
}

#[test]
fn empty_input_reads_cleanly() {
    let mut reader = InstanceReader::new(TestVisitor::new());
    reader.read("").unwrap();
    let visitor = reader.visitor;
    assert!(visitor.headers.is_empty());
    assert!(visitor.trees.is_empty());

    let mut builder = BinTreeBuilder::default();
    let instance = Instance::try_read("", &mut builder).unwrap();
    assert_eq!(instance.num_leaves, 0);
    assert!(instance.trees.is_empty());
    assert!(instance.tree_decomposition.is_none());
}

#[test]
fn unicode_whitespace_is_trimmed() {
    // U+00A0 counts as whitespace, as str::trim treats it
    let input = "#p 1 2\n\u{A0}(1,2);\u{A0}\n";
    let mut reader = InstanceReader::new(TestVisitor::new());
    reader.read(input).unwrap();
    let visitor = reader.visitor;
    assert_eq!(visitor.trees, vec![(1, "(1,2);".to_string())]);
    assert_eq!(visitor.extra_whitespace_lines.len(), 1);
}

#[test]
fn two_headers_are_rejected() {
    let input = "#p 2 3\n(1);\n#p 4 5\n";
    let mut reader = InstanceReader::new(TestVisitor::new());
    let err = reader.read(input).unwrap_err();
    assert_eq!(err, ReaderError::MultipleHeaders { lineno0: 0, lineno1: 2 });
}

#[test]
fn malformed_header_is_rejected() {
    let input = "#p two 3\n";
    let mut reader = InstanceReader::new(TestVisitor::new());
    let err = reader.read(input).unwrap_err();
    assert_eq!(err, ReaderError::InvalidHeaderLine { lineno: 0 });
}

#[test]
fn malformed_stride_is_rejected() {
    // a stride line needs a key and a value, split at a space
    let input = "#p 2 3\n#s keyonly\n";
    let mut reader = InstanceReader::new(TestVisitor::new());
    let err = reader.read(input).unwrap_err();
    assert_eq!(err, ReaderError::InvalidStrideLine { lineno: 1 });
}

#[test]
fn stride_line_splits_at_first_space() {
    let input = "#s a b\n";
    let mut reader = InstanceReader::new(TestVisitor::new());
    reader.read(input).unwrap();
    let visitor = reader.visitor;
    assert_eq!(
        visitor.stride_lines,
        vec![(0, "#s a b".to_string(), "a".to_string(), "b".to_string())]
    );
}

#[test]
fn approx_line_is_parsed() {
    let input = "#a 1.2345 42\n";
    let mut reader = InstanceReader::new(TestVisitor::new());
    reader.read(input).unwrap();
    let visitor = reader.visitor;
    assert_eq!(visitor.approx_lines, vec![(0, "1.2345".to_string(), 42)]);
    let value: f64 = visitor.approx_lines[0].1.parse().unwrap();
    assert_eq!(value, 1.2345);
}

#[test]
fn negative_approx_is_rejected() {
    let input = "#a -1.2345 42\n";
    let mut reader = InstanceReader::new(TestVisitor::new());
    let err = reader.read(input).unwrap_err();
    assert_eq!(err, ReaderError::InvalidApproxLine { lineno: 0 });
}

#[test]
fn unknown_parameter_is_rejected() {
    let input = "#x sidecar [1,2]\n";
    let mut reader = InstanceReader::new(TestVisitor::new());
    let err = reader.read(input).unwrap_err();
    assert_eq!(err, ReaderError::UnknownParameter { lineno: 0 });
}

#[test]
fn malformed_parameter_line_is_rejected() {
    let input = "#x treedecomp\n";
    let mut reader = InstanceReader::new(TestVisitor::new());
    let err = reader.read(input).unwrap_err();
    assert_eq!(err, ReaderError::InvalidParameterLine { lineno: 0 });
}

#[test]
fn malformed_json_is_rejected() {
    let input = "#x treedecomp [1,2\n";
    let mut reader = InstanceReader::new(TestVisitor::new());
    let err = reader.read(input).unwrap_err();
    assert_eq!(err, ReaderError::InvalidJSON { lineno: 0 });
}

#[test]
fn tree_decomposition_is_delivered() {
    let input = "#p 2 3\n#x treedecomp [2,[[8,16],[8,11,16]],[[1,2],[1,6]]]\n";
    let mut reader = InstanceReader::new(TestVisitor::new());
    reader.read(input).unwrap();
    let visitor = reader.visitor;
    assert_eq!(visitor.tree_decompositions.len(), 1);
    let (lineno, td) = &visitor.tree_decompositions[0];
    assert_eq!(*lineno, 1);
    assert_eq!(td.treewidth, 2);
    assert_eq!(td.bags, vec![vec![8, 16], vec![8, 11, 16]]);
    assert_eq!(td.edges, vec![(1, 2), (1, 6)]);
}

#[test]
fn early_termination_stops_cleanly() {
    struct StopAtHeader {
        headers_seen: usize,
        trees_seen: usize,
    }

    impl InstanceVisitor for StopAtHeader {
        fn wants_tree_decomposition() -> bool {
            false
        }

        fn visit_header(&mut self, _lineno: usize, _nt: usize, _nl: usize) -> Action {
            self.headers_seen += 1;
            Action::Terminate
        }

        fn visit_tree(&mut self, _lineno: usize, _line: &str) -> Action {
            self.trees_seen += 1;
            Action::Continue
        }
    }

    // termination at the header hides even the later malformed stride line
    let input = "#p 2 3\n(1);\n#s nocolon\n";
    let mut reader = InstanceReader::new(StopAtHeader { headers_seen: 0, trees_seen: 0 });
    reader.read(input).unwrap();
    assert_eq!(reader.visitor.headers_seen, 1);
    assert_eq!(reader.visitor.trees_seen, 0);
}

// ------------------------------------------------------------------
// TreeDecomposition JSON round trips
// ------------------------------------------------------------------

const JSON: &str = "[2,[[8,16],[8,11,16],[1,11,15],[2,11,16],[7,8,11],[8,10,16],[3,10,13],[4,10,16],[8,9],[5,9,14],[6,9,12]],[[1,2],[1,6],[1,9],[2,3],[2,4],[2,5],[6,7],[6,8],[9,10],[9,11]]]";

#[test]
fn deserialize() {
    let td: TreeDecomposition = TreeDecomposition::try_from_json(JSON).unwrap();

    assert_eq!(td.treewidth, 2);
    assert_eq!(td.bags.len(), 11);
    assert_eq!(td.edges.len(), 10);
}

#[test]
fn serialize() {
    let td: TreeDecomposition = TreeDecomposition::try_from_json(JSON).unwrap();
    let serialized = td.to_json();

    assert_eq!(serialized, JSON);
}

#[test]
fn decomposition_json_round_trip() {
    let text = "[2,[[8,16],[8,11,16]],[[1,2],[1,6]]]";
    let td = TreeDecomposition::try_from_json(text).unwrap();
    assert_eq!(td.treewidth, 2);
    assert_eq!(td.bags.len(), 2);
    assert_eq!(td.edges.len(), 2);
    assert_eq!(td.to_json(), text);
}

#[test]
fn rejects_other_json_shapes() {
    assert!(TreeDecomposition::try_from_json("[2,[[1]]]").is_none());
    assert!(TreeDecomposition::try_from_json("[2,[[1]],[[1,2]],4]").is_none());
    assert!(TreeDecomposition::try_from_json("{\"treewidth\":2}").is_none());
    assert!(TreeDecomposition::try_from_json("[-1,[],[]]").is_none());
}

// ------------------------------------------------------------------
// Simplified instance reading
// ------------------------------------------------------------------

#[test]
fn read_indexed_instance() {
    let input = "#p 2 3\n(1,(2,3));\n# comment\n#x treedecomp [2,[[8,16],[8,11,16]],[[1,2],[1,6]]]\n((1,2),3);\n";
    let mut builder = IndexedBinTreeBuilder::default();
    let instance = Instance::try_read(input, &mut builder).expect("Valid PACE26 Instance");

    assert_eq!(instance.num_leaves, 3);
    assert_eq!(instance.trees.len(), 2);
    // with 3 leaves each tree occupies a block of 2 inner indices:
    // tree 0 starts at (0+1)*2+2 = 4, tree 1 at (1+1)*2+2 = 6
    assert_eq!(instance.trees[0].node_idx(), NodeIdx::new(4));
    assert_eq!(instance.trees[1].node_idx(), NodeIdx::new(6));
    assert_eq!(
        instance.trees[0].top_down().right_child().unwrap().node_idx(),
        NodeIdx::new(5)
    );
    assert_eq!(instance.tree_decomposition.unwrap().treewidth, 2);
}

#[test]
fn read_plain_instance() {
    let input = "#p 1 2\n(1,2);\n";
    let mut builder = BinTreeBuilder::default();
    let instance = Instance::try_read(input, &mut builder).unwrap();
    assert_eq!(instance.num_leaves, 2);
    assert_eq!(instance.trees.len(), 1);
    assert_eq!(
        instance.trees[0].top_down().left_child().unwrap().leaf_label(),
        Some(Label(1))
    );
    assert!(instance.tree_decomposition.is_none());
}

#[test]
fn tree_before_header_is_rejected() {
    let input = "(1,2);\n#p 1 2\n";
    let mut builder = BinTreeBuilder::default();
    let err = Instance::try_read(input, &mut builder).unwrap_err();
    assert_eq!(err, SimplifiedReaderError::NoHeader);
}

#[test]
fn zero_leaves_are_rejected() {
    let input = "#p 1 0\n(1,2);\n";
    let mut builder = BinTreeBuilder::default();
    let err = Instance::try_read(input, &mut builder).unwrap_err();
    assert_eq!(err, SimplifiedReaderError::NoLeaves);
}

#[test]
fn newick_errors_abort_the_read() {
    let input = "#p 1 2\n(1,;\n";
    let mut builder = BinTreeBuilder::default();
    let err = Instance::try_read(input, &mut builder).unwrap_err();
    assert!(
        matches!(
            err,
            SimplifiedReaderError::NewickError(ParserError::ExpectedNodeBegin { .. })
        ),
        "Got: {err:?}"
    );
}

#[test]
fn reader_errors_surface_with_line_numbers() {
    let input = "#p 1 2\n#p 1 2\n";
    let mut builder = BinTreeBuilder::default();
    let err = Instance::try_read(input, &mut builder).unwrap_err();
    assert_eq!(
        err,
        SimplifiedReaderError::ReaderError(ReaderError::MultipleHeaders {
            lineno0: 0,
            lineno1: 1
        })
    );
}

#[test]
fn oversized_index_blocks_are_rejected() {
    // 99999999999 leaves would place the first tree's index block past
    // the 32-bit range
    let input = "#p 1 99999999999\n(1,2);\n";
    let mut builder = BinTreeBuilder::default();
    let err = Instance::try_read(input, &mut builder).unwrap_err();
    assert_eq!(err, SimplifiedReaderError::NodeIdxOverflow);
}

#[test]
fn later_decomposition_replaces_earlier() {
    let input = "#p 0 9\n#x treedecomp [1,[[1]],[]]\n#x treedecomp [3,[[1,2]],[]]\n";
    let mut builder = BinTreeBuilder::default();
    let instance = Instance::try_read(input, &mut builder).unwrap();
    assert_eq!(instance.tree_decomposition.unwrap().treewidth, 3);
}
