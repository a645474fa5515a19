use graphkit::graph::parser::{MtxMetadata, Parser as MtxParser};
use graphkit::matrix::MatrixParser;
use graphkit::parser::names::NameIndex;
use graphkit::parser::neuron::{InhibitoryType, NeuronClass, NeuronRegion};
use graphkit::parser::{GraphMTX, ParseError, Parser};

const MTX: &str = "%%MatrixMarket matrix coordinate pattern general\n%\n\n4 4 3\n1 2\n3 4\n4 1\n";

const ARTICLES: &str = "# articles\n#\nAthens\nBerlin\nCairo\n";
const CATEGORIES: &str = "# categories\nAthens\tsubject.Geography.Europe\nCairo\tsubject.Geography.Africa\nAthens\tsubject.History\n";
const LINKS: &str = "# links\nAthens\tBerlin\nBerlin\tCairo\nCairo\tAthens\n";

#[test]
fn skip_header_finds_the_first_content_line() {
    let text = "% a\n\n  % b\n1 2 3\n4 5\n";
    assert_eq!(Parser::skip_header(text, 0, b'%').unwrap(), (11, 17));
    assert_eq!(Parser::skip_header(text, 17, b'%').unwrap(), (17, 21));
    assert!(matches!(Parser::skip_header("% a\n   \n", 0, b'%'), Err(ParseError::EmptyBody)));
    assert!(matches!(Parser::skip_header("", 0, b'%'), Err(ParseError::EmptyBody)));
}

#[test]
fn parse_mtx_reads_zero_based_edges() {
    let g = Parser::parse_mtx(MTX).unwrap();
    assert_eq!(g.nrows, 4);
    assert_eq!(g.ncols, 4);
    assert_eq!(g.nnz, 3);
    assert_eq!(g.edges, vec![(0, 1), (2, 3), (3, 0)]);
}

#[test]
fn parse_mtx_trims_unicode_whitespace() {
    // an ideographic space and a no-break space around the entries
    let text = "2 2 1\n\u{3000}2 1\u{a0}\n";
    let g = Parser::parse_mtx(text).unwrap();
    assert_eq!(g.edges, vec![(1, 0)]);
    let size = "\u{2003}3\u{2003}5 0\n";
    let g = Parser::parse_mtx(size).unwrap();
    assert_eq!((g.nrows, g.ncols, g.nnz), (3, 5, 0));
}

#[test]
fn parse_mtx_errors() {
    assert!(matches!(Parser::parse_mtx("%%\n"), Err(ParseError::EmptyBody)));
    assert!(matches!(
        Parser::parse_mtx("3 3 4\n1 2\n2 3\n"),
        Err(ParseError::TooShort { expected: 4, got: 2 })
    ));
    match Parser::parse_mtx("3 x 1\n1 2\n") {
        Err(ParseError::BadLine(l)) => assert_eq!(l, "3 x 1\n"),
        other => panic!("unexpected {:?}", other),
    }
    // two spaces: the second index is empty
    match Parser::parse_mtx("3 3 1\n1  2\n") {
        Err(ParseError::BadLine(l)) => assert_eq!(l, "1  2\n"),
        other => panic!("unexpected {:?}", other),
    }
    match Parser::parse_mtx("3 3 1\n12\n") {
        Err(ParseError::BadLine(l)) => assert_eq!(l, "12\n"),
        other => panic!("unexpected {:?}", other),
    }
}

#[test]
fn try_parse_mtx_flags_index_zero() {
    assert!(Parser::try_parse_mtx("2 2 1\n0 1\n").is_none());
    assert!(Parser::try_parse_mtx("2 2 1\n1 0\n").is_none());
    // a bad source is reported before the zero target is read
    assert!(matches!(Parser::try_parse_mtx("2 2 1\nx 0\n"), Some(Err(ParseError::BadLine(_)))));
}

#[test]
fn graph_parser_gives_metadata_and_edges() {
    let (meta, edges) = MtxParser::parse_mtx(MTX).unwrap();
    assert_eq!((meta.nrows, meta.ncols, meta.nnz), (4, 4, 3));
    assert_eq!(edges, vec![(0, 1), (2, 3), (3, 0)]);
    let m = MtxMetadata::new(1, 2, 3);
    assert_eq!((m.nrows, m.ncols, m.nnz), (1, 2, 3));
}

#[test]
fn matrix_parser_reads_target_first() {
    let g = MatrixParser::parse_mtx(MTX).unwrap();
    assert_eq!(g.edges, vec![(0, 1), (2, 3), (3, 0)]);
    // the target is read first: its error wins, and its zero aborts first
    assert!(MatrixParser::try_parse_mtx("2 2 1\n0 x\n").is_some());
    assert!(MatrixParser::try_parse_mtx("2 2 1\nx 0\n").is_none());
}

#[test]
fn graph_mtx_new_keeps_its_fields() {
    let g = GraphMTX::new(vec![(0, 1)], 2, 3, 1);
    assert_eq!(g.edges, vec![(0, 1)]);
    assert_eq!((g.nrows, g.ncols, g.nnz), (2, 3, 1));
}

#[test]
fn parse_tsv_reads_the_three_lists() {
    let g = Parser::parse_tsv(ARTICLES, CATEGORIES, LINKS).unwrap();
    assert_eq!(g.nodes, vec!["Athens", "Berlin", "Cairo"]);
    assert_eq!(g.ids.get("Berlin"), Some(1));
    assert_eq!(g.ids.get("Rome"), None);
    assert_eq!(g.edges, vec![(0, 1), (1, 2), (2, 0)]);
    assert_eq!(
        g.categories,
        vec![
            vec![vec!["Geography".to_string(), "Europe".to_string()], vec!["History".to_string()]],
            vec![],
            vec![vec!["Geography".to_string(), "Africa".to_string()]],
        ]
    );
}

#[test]
fn parse_tsv_reports_unknown_names() {
    let links = "# links\nAthens\tRome\n";
    match Parser::parse_tsv(ARTICLES, CATEGORIES, links) {
        Err(ParseError::Inconsistent { reason, line }) => {
            assert_eq!(reason, "name Rome not found in nodes");
            assert_eq!(line, "Athens\tRome\n");
        },
        Err(other) => panic!("unexpected {:?}", other),
        Ok(_) => panic!("unexpected success"),
    }
}

#[test]
fn parse_tsv_reports_bad_lines() {
    match Parser::parse_tsv("Athens\n\nBerlin\n", CATEGORIES, LINKS) {
        Err(ParseError::BadLine(l)) => assert_eq!(l, "\n"),
        Err(other) => panic!("unexpected {:?}", other),
        Ok(_) => panic!("unexpected success"),
    }
    match Parser::parse_tsv(ARTICLES, CATEGORIES, "Athens Berlin\n") {
        Err(ParseError::BadLine(l)) => assert_eq!(l, "Athens Berlin\n"),
        Err(other) => panic!("unexpected {:?}", other),
        Ok(_) => panic!("unexpected success"),
    }
    assert!(matches!(Parser::parse_tsv("# only\n", CATEGORIES, LINKS), Err(ParseError::EmptyBody)));
}

#[test]
fn later_article_names_win() {
    let (ids, nodes) = Parser::parse_articles("A\nB\nA\n").unwrap();
    assert_eq!(nodes.len(), 3);
    assert_eq!(ids.get("A"), Some(2));
    assert_eq!(ids.get("B"), Some(1));
}

#[test]
fn matrix_parser_tsv_counts_articles() {
    let (n, edges) = MatrixParser::parse_tsv(ARTICLES, LINKS).unwrap();
    assert_eq!(n, 3);
    assert_eq!(edges, vec![(0, 1), (1, 2), (2, 0)]);
}

#[test]
fn name_index_behaves_as_a_map() {
    let mut ids = NameIndex::new();
    assert_eq!(ids.get("x"), None);
    ids.insert("x".to_string(), 4);
    ids.insert("y".to_string(), 5);
    ids.insert("x".to_string(), 6);
    assert_eq!(ids.get("x"), Some(6));
    assert_eq!(ids.get("y"), Some(5));
    assert_eq!(ids.get("z"), None);
}

const NEURONS: &str = "# index\tuid\tsubtype\tclass\tregion\n0\t864691\tL2a\texcitatory_neuron\tvisp\n1\t17\tDTC\tinhibitory_neuron\tvislm\n2\t99\tL6tall-ET\texcitatory_neuron\tvisal\n";
const SYNAPSES: &str = "# pre\tpost\tsize\n864691\t17\t250\n17\t99\t3\n";

#[test]
fn parse_microns_reads_neurons_and_synapses() {
    let g = Parser::parse_microns(SYNAPSES, NEURONS).unwrap();
    assert_eq!(g.edges, vec![(864691, 17, 250), (17, 99, 3)]);
    assert_eq!(g.neurons.len(), 3);
    assert_eq!(g.neurons[0].uid, 864691);
    assert_eq!(g.neurons[1].class, NeuronClass::Inhibitory(InhibitoryType::DTC));
    assert_eq!(g.neurons[1].region, NeuronRegion::VISlm);
    assert_eq!(g.neurons[2].class.subtype(), "L6tall-ET");
    assert_eq!(g.ids.get(&17), Some(&1));
    assert_eq!(g.ids.get(&99), Some(&2));
}

#[test]
fn parse_neurons_checks_the_index() {
    let text = "0\t5\tDTC\tinhibitory_neuron\tvisp\n2\t6\tITC\tinhibitory_neuron\tvisp\n";
    match Parser::parse_neurons(text) {
        Some(Err(ParseError::Inconsistent { reason, line })) => {
            assert_eq!(reason, "Bad index");
            assert_eq!(line, "2\t6\tITC\tinhibitory_neuron\tvisp");
        },
        other => panic!("unexpected {:?}", other.map(|r| r.map(|p| p.0.len()))),
    }
}

#[test]
fn parse_neurons_refuses_unknown_names() {
    let bad_region = "0\t5\tDTC\tinhibitory_neuron\tmars\n";
    match Parser::parse_neurons(bad_region) {
        Some(Err(ParseError::BadLine(l))) => assert_eq!(l, "0\t5\tDTC\tinhibitory_neuron\tmars"),
        other => panic!("unexpected {:?}", other.map(|r| r.map(|p| p.0.len()))),
    }
    let bad_class = "0\t5\tL2a\tinhibitory_neuron\tvisp\n";
    assert!(matches!(Parser::parse_neurons(bad_class), Some(Err(ParseError::BadLine(_)))));
    let missing = "0\t5\tDTC\n";
    assert!(matches!(Parser::parse_neurons(missing), Some(Err(ParseError::BadLine(_)))));
}

#[test]
fn parse_neurons_flags_a_split_character() {
    // "Léa": slicing after two bytes cuts the "é" in half
    let text = "0\t5\tL\u{e9}a\texcitatory_neuron\tvisp\n";
    assert!(Parser::parse_neurons(text).is_none());
    assert!(Parser::try_parse_microns(SYNAPSES, text).is_none());
}

#[test]
fn parse_synapses_errors() {
    match Parser::parse_synapses("1\t2\n") {
        Err(ParseError::BadLine(l)) => assert_eq!(l, "1\t2"),
        other => panic!("unexpected {:?}", other),
    }
    match Parser::parse_synapses("1\t2\t3\n\n") {
        Err(ParseError::BadLine(l)) => assert_eq!(l, "\n"),
        other => panic!("unexpected {:?}", other),
    }
    assert_eq!(Parser::parse_synapses("#\n1\t2\t3\t4\n").unwrap(), vec![(1, 2, 3)]);
}

#[test]
fn tsv_positions_stay_within_the_articles() {
    let g = Parser::parse_tsv(ARTICLES, CATEGORIES, LINKS).unwrap();
    assert_eq!(g.categories.len(), g.nodes.len());
    for &(a, b) in &g.edges {
        assert!(a < g.nodes.len() && b < g.nodes.len());
    }
    for (i, name) in g.nodes.iter().enumerate() {
        assert_eq!(g.ids.get(name), Some(i));
    }
}

#[test]
fn mtx_gives_as_many_entries_as_announced() {
    for text in ["1 1 0\n", "3 3 2\n1 1\n3 3\n", MTX] {
        let g = Parser::parse_mtx(text).unwrap();
        assert_eq!(g.edges.len(), g.nnz);
    }
}
