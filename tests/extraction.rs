use xml_table::compile::PatternError;
use xml_table::extract::{extract, render_document, Element};
use xml_table::pattern::Pattern;
use xml_table::table::{cartesian_product, render_table};

fn leaf<'a>(name: &'a str, text: &'a str) -> Element<'a> {
    Element { name, text, children: Vec::new() }
}

fn node<'a>(name: &'a str, children: Vec<Element<'a>>) -> Element<'a> {
    Element { name, text: "", children }
}

#[test]
fn nested_path_extracts_text() {
    let p = Pattern::new("a/b").unwrap();
    let root = node("", vec![node("a", vec![leaf("b", "x")])]);
    assert_eq!(extract(&p, &root), vec![vec!["x"]]);
}

#[test]
fn braces_make_sibling_columns() {
    let p = Pattern::new("{a,b}").unwrap();
    assert_eq!(p.count_leafs(), 2);
    let root = node("", vec![leaf("a", "1"), leaf("b", "2")]);
    let t = extract(&p, &root);
    assert_eq!(t, vec![vec!["1", "2"]]);
    for row in &t {
        assert_eq!(row.len(), p.count_leafs());
    }
}

#[test]
fn width_matches_leaf_count_with_missing_branches() {
    let p = Pattern::new("r/{x,y/{z,w},v}").unwrap();
    assert_eq!(p.count_leafs(), 4);
    let root = node("", vec![node("r", vec![leaf("x", "1"), leaf("x", "2"), node("q", vec![])])]);
    let t = extract(&p, &root);
    assert_eq!(t, vec![vec!["1", "", "", ""], vec!["2", "", "", ""]]);
}

#[test]
fn two_segments_cross() {
    let p = Pattern::new("{a,b}").unwrap();
    let root = node(
        "",
        vec![leaf("a", "1"), leaf("a", "2"), leaf("b", "x"), leaf("b", "y"), leaf("b", "z")],
    );
    let t = extract(&p, &root);
    assert_eq!(t.len(), 6);
    assert_eq!(
        t,
        vec![
            vec!["1", "x"],
            vec!["1", "y"],
            vec!["1", "z"],
            vec!["2", "x"],
            vec!["2", "y"],
            vec!["2", "z"],
        ]
    );
}

#[test]
fn absent_segment_is_blank_row() {
    let p = Pattern::new("{a,missing/{c,d}}").unwrap();
    let root = node("", vec![leaf("a", "1"), leaf("a", "2"), leaf("a", "3")]);
    let t = extract(&p, &root);
    assert_eq!(t, vec![vec!["1", "", ""], vec!["2", "", ""], vec!["3", "", ""]]);
}

#[test]
fn wildcard_segments_select_children() {
    let p = Pattern::new("item*").unwrap();
    let root = node("", vec![leaf("item1", "a"), leaf("other", "b"), leaf("item22", "c")]);
    assert_eq!(extract(&p, &root), vec![vec!["a"], vec!["c"]]);
}

#[test]
fn leaf_pattern_takes_node_text() {
    let p = Pattern::new("").unwrap();
    assert!(p.is_leaf());
    assert_eq!(extract(&p, &leaf("n", "t")), vec![vec!["t"]]);
}

#[test]
fn document_rendering() {
    let p = Pattern::new("{a,b}").unwrap();
    let root = node("", vec![leaf("a", "1"), leaf("b", "x"), leaf("b", "y")]);
    assert_eq!(render_document(&p, &root), "1|x\n1|y\n");
}

#[test]
fn table_rendering() {
    let t: Vec<Vec<&str>> = vec![vec!["a", "b", "c"], vec![], vec!["d"]];
    assert_eq!(render_table(&t), "a|b|c\n\nd\n");
    let empty: Vec<Vec<&str>> = Vec::new();
    assert_eq!(render_table(&empty), "");
}

#[test]
fn product_of_tables() {
    let tables = vec![
        vec![vec![1, 2, 3], vec![100, 200, 300]],
        vec![vec![0, 0]],
        vec![vec![991], vec![992], vec![993]],
    ];
    let r = cartesian_product(&tables);
    assert_eq!(
        r,
        vec![
            vec![1, 2, 3, 0, 0, 991],
            vec![1, 2, 3, 0, 0, 992],
            vec![1, 2, 3, 0, 0, 993],
            vec![100, 200, 300, 0, 0, 991],
            vec![100, 200, 300, 0, 0, 992],
            vec![100, 200, 300, 0, 0, 993],
        ]
    );
}

#[test]
fn product_edge_cases() {
    let none: Vec<Vec<Vec<u8>>> = Vec::new();
    assert_eq!(cartesian_product(&none), Vec::<Vec<u8>>::new());
    let with_empty: Vec<Vec<Vec<u8>>> = vec![vec![vec![1]], vec![]];
    assert_eq!(cartesian_product(&with_empty), vec![Vec::<u8>::new()]);
    let single: Vec<Vec<Vec<u8>>> = vec![vec![vec![1, 2], vec![3, 4]]];
    assert_eq!(cartesian_product(&single), vec![vec![1, 2], vec![3, 4]]);
}

#[test]
fn compile_shapes() {
    let p = Pattern::new("book/chapters/chapter/{title,paragraphs/paragraph}").unwrap();
    assert_eq!(p.count_leafs(), 2);
    let top = p.iter();
    assert_eq!(top.len(), 1);
    assert_eq!(top[0].0, "book");
    let q = Pattern::new("{a,{b,c},d/e}").unwrap();
    let names: Vec<&str> = q.iter().iter().map(|e| e.0).collect();
    assert_eq!(names, vec!["a", "b", "c", "d"]);
    assert_eq!(q.count_leafs(), 4);
    let r = Pattern::new("a/").unwrap();
    assert_eq!(r.iter()[0].0, "a");
    assert!(r.iter()[0].1.is_leaf());
}

#[test]
fn compile_errors() {
    assert!(matches!(Pattern::new("{a,b"), Err(PatternError::UnbalancedBraces)));
    assert!(matches!(Pattern::new("{a}}"), Err(PatternError::UnbalancedBraces)));
    assert!(matches!(Pattern::new("{"), Err(PatternError::UnbalancedBraces)));
    assert!(matches!(Pattern::new("x/{a,b"), Err(PatternError::UnbalancedBraces)));
    assert!(matches!(Pattern::new("a}"), Err(PatternError::UnbalancedBraces)));
    assert!(matches!(Pattern::new("}{"), Err(PatternError::UnbalancedBraces)));
}

#[test]
fn compile_succeeds_without_braces() {
    for s in ["", "a", "a/b/c", "a*/b*c", "x/y/"] {
        assert!(Pattern::new(s).is_ok());
    }
    assert!(Pattern::new("{a,{b,c}}").is_ok());
    assert!(Pattern::new("{a}{b}").is_ok());
}

#[test]
fn balanced_groups_not_enclosing_split_on_slash() {
    let p = Pattern::new("{a}/b").unwrap();
    assert_eq!(p.iter().len(), 1);
    assert_eq!(p.iter()[0].0, "{a}");
    assert_eq!(p.iter()[0].1.iter()[0].0, "b");
    let q = Pattern::new("a/{b}/c").unwrap();
    assert_eq!(q.iter()[0].0, "a");
    let inner = &q.iter()[0].1;
    assert_eq!(inner.iter()[0].0, "{b}");
    assert_eq!(inner.iter()[0].1.iter()[0].0, "c");
    let r = Pattern::new("{x/y,z}").unwrap();
    let names: Vec<&str> = r.iter().iter().map(|e| e.0).collect();
    assert_eq!(names, vec!["x", "z"]);
    let t = Pattern::new("{a}{b}").unwrap();
    assert_eq!(t.iter()[0].0, "{a}{b}");
}

#[test]
fn checked_leaf_count() {
    let p = Pattern::new("{a,b/{c,d},e}").unwrap();
    assert_eq!(p.checked_count_leafs(), Some(4));
    assert_eq!(Pattern::new("").unwrap().checked_count_leafs(), Some(1));
}

#[test]
fn single_row_table_inserted_into_product() {
    let tables = vec![vec![vec![1, 2], vec![3, 4]], vec![vec![5], vec![6], vec![7]]];
    let inserted = vec![vec![vec![1, 2], vec![3, 4]], vec![vec![9, 9]], vec![vec![5], vec![6], vec![7]]];
    let a = cartesian_product(&tables);
    let b = cartesian_product(&inserted);
    assert_eq!(a.len(), b.len());
    for (ra, rb) in a.iter().zip(b.iter()) {
        let mut expected = ra[..2].to_vec();
        expected.extend([9, 9]);
        expected.extend_from_slice(&ra[2..]);
        assert_eq!(rb, &expected);
    }
}

#[test]
fn unmatched_entry_keeps_row_count() {
    let root = node("", vec![leaf("a", "1"), leaf("a", "2"), leaf("c", "x"), leaf("c", "y")]);
    let with = extract(&Pattern::new("{a,b/{p,q},c}").unwrap(), &root);
    let without = extract(&Pattern::new("{a,c}").unwrap(), &root);
    assert_eq!(with.len(), without.len());
    for (rw, ro) in with.iter().zip(without.iter()) {
        assert_eq!(rw, &vec![ro[0], "", "", ro[1]]);
    }
}
