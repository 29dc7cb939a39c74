use pdf_maldives_be::diagram::{component_labels, connected_groups, diagram_path_groups, MIN_DIAGRAM_PATHS};
use pdf_maldives_be::lines::TextFragment;
use pdf_maldives_be::table::{
    build_cell, build_table, extract_table, merge_cell_fragments, merge_cell_line, CellContent,
    CellLine, Table,
};

fn frag(text: &str, bold: bool, italic: bool, underlined: bool) -> TextFragment {
    TextFragment {
        text: text.to_string(),
        font_name: "Arial".to_string(),
        is_bold: bold,
        is_italic: italic,
        is_underlined: underlined,
    }
}

fn cell_line(texts: &[&str], wide_gaps: Vec<bool>) -> CellLine {
    CellLine { fragments: texts.iter().map(|t| frag(t, false, false, false)).collect(), wide_gaps }
}

fn cell(text: &str) -> CellContent {
    if text.is_empty() {
        CellContent { lines: vec![] }
    } else {
        CellContent { lines: vec![cell_line(&[text], vec![false])] }
    }
}

fn texts(t: &Table) -> Vec<Vec<String>> {
    t.rows.iter().map(|r| r.cells.iter().map(|c| c.text.clone()).collect()).collect()
}

#[test]
fn cell_lines_space_wide_gaps() {
    let l = cell_line(&["Net", "income"], vec![false, true]);
    assert_eq!(merge_cell_line(&l).into_iter().collect::<String>(), "Net income");
    let l = cell_line(&["12", "3"], vec![true, false]);
    assert_eq!(merge_cell_line(&l).into_iter().collect::<String>(), "123");
    let l = cell_line(&[" a ", "b"], vec![false, true]);
    assert_eq!(merge_cell_line(&l).into_iter().collect::<String>(), "a b");
}

#[test]
fn cell_text_joins_nonempty_lines() {
    let c = CellContent {
        lines: vec![
            cell_line(&["Total"], vec![]),
            cell_line(&["  "], vec![]),
            cell_line(&["revenue"], vec![]),
        ],
    };
    assert_eq!(merge_cell_fragments(&c), "Total revenue");
    assert_eq!(merge_cell_fragments(&CellContent { lines: vec![] }), "");
}

#[test]
fn cell_style_from_any_fragment() {
    let c = CellContent {
        lines: vec![CellLine {
            fragments: vec![frag("a", false, false, false), frag("b", true, false, true)],
            wide_gaps: vec![false, true],
        }],
    };
    let built = build_cell(&c);
    assert_eq!(built.text, "a b");
    assert!(built.is_bold);
    assert!(!built.is_italic);
    assert!(built.is_underlined);
    assert_eq!((built.col_span, built.row_span), (1, 1));
}

#[test]
fn empty_rows_are_dropped() {
    let grid = vec![
        vec![cell("Name"), cell("Age")],
        vec![cell(""), cell("")],
        vec![cell("Ann"), cell("")],
    ];
    let t = build_table(&grid, 2);
    assert_eq!(t.col_count, 2);
    assert_eq!(
        texts(&t),
        vec![vec!["Name".to_string(), "Age".to_string()], vec!["Ann".to_string(), String::new()]]
    );
}

#[test]
fn tables_need_two_rows_with_text() {
    let grid = vec![vec![cell("Only")], vec![cell("")]];
    assert!(extract_table(&grid, 1).is_none());
    let grid = vec![vec![cell("h")], vec![cell("v")]];
    let t = extract_table(&grid, 1).unwrap();
    assert_eq!(texts(&t), vec![vec!["h".to_string()], vec!["v".to_string()]]);
}

fn near_table(n: usize, pairs: &[(usize, usize)]) -> Vec<Vec<bool>> {
    let mut m = vec![vec![false; n]; n];
    for &(a, b) in pairs {
        m[a.min(b)][a.max(b)] = true;
    }
    m
}

#[test]
fn labels_follow_walks() {
    let near = near_table(5, &[(0, 3), (3, 4)]);
    let lab = component_labels(5, &near);
    assert_eq!(lab.len(), 5);
    assert_eq!(lab[0], lab[4]);
    assert_eq!(lab[0], lab[3]);
    assert_ne!(lab[0], lab[1]);
    assert_ne!(lab[1], lab[2]);
}

#[test]
fn groups_in_order_of_smallest_member() {
    let near = near_table(6, &[(1, 5), (0, 2), (2, 4)]);
    let gs = connected_groups(6, &near);
    assert_eq!(gs, vec![vec![0, 2, 4], vec![1, 5], vec![3]]);
    let lower_triangle_ignored = {
        let mut m = vec![vec![false; 3]; 3];
        m[2][0] = true;
        m
    };
    assert_eq!(connected_groups(3, &lower_triangle_ignored), vec![vec![0], vec![1], vec![2]]);
}

#[test]
fn diagrams_are_groups_of_six_or_more() {
    assert_eq!(MIN_DIAGRAM_PATHS, 6);
    let chain: Vec<(usize, usize)> = (0..5).map(|i| (i, i + 1)).collect();
    let near = near_table(5, &chain[..4]);
    assert!(diagram_path_groups(5, &near).is_empty());
    let mut pairs = chain.clone();
    pairs.push((7, 8));
    let near = near_table(9, &pairs);
    assert_eq!(diagram_path_groups(9, &near), vec![vec![0, 1, 2, 3, 4, 5]]);
    let near = near_table(9, &[(7, 8)]);
    assert!(diagram_path_groups(9, &near).is_empty());
}
