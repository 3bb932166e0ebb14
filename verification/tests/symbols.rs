use graphs::symbol_graph::{tokenize, SymbolGraph};

fn create() -> SymbolGraph {
    let list = ["a b", "b c", "c a"];
    SymbolGraph::new(&list[..])
}

#[test]
fn contains_test() {
    let s = create();
    assert!(s.contains("a"));
}

#[test]
fn index_test() {
    let s = create();
    assert_eq!(0, s.index("a"));
}

#[test]
fn name_test() {
    let s = create();
    assert_eq!("a".as_bytes(), s.name(0));
}

#[test]
fn symbols_are_numbered_by_first_occurrence() {
    let list = ["JFK  MCO\tORD", " ORD DEN ", "DEN JFK", "MCO"];
    let s = SymbolGraph::new(&list[..]);
    assert!(!s.contains("LAX"));
    assert!(!s.contains(""));
    assert_eq!(0, s.index("JFK"));
    assert_eq!(1, s.index("MCO"));
    assert_eq!(2, s.index("ORD"));
    assert_eq!("ORD".as_bytes(), s.name(2));
    let g = s.graph();
    assert_eq!(3, s.index("DEN"));
    assert_eq!(4, g.v());
    assert_eq!(4, g.e());
    assert_eq!(&[1, 2, 3], g.adj(0));
    assert_eq!(&[0], g.adj(1));
    assert_eq!(&[0, 3], g.adj(2));
    assert_eq!(&[2, 0], g.adj(3));
}

#[test]
fn tokens_are_split_at_ascii_whitespace() {
    let words = |s: &str| -> Vec<String> {
        tokenize(s.as_bytes()).into_iter().map(|t| String::from_utf8(t).unwrap()).collect()
    };
    assert_eq!(vec!["a", "bc", "d"], words(" a\tbc \r\n d\x0c"));
    assert!(words("").is_empty());
    assert!(words(" \t ").is_empty());
    assert_eq!(vec!["x"], words("x"));
}
