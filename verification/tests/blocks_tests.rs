use pdf_maldives_be::blocks::{
    assign_heading_kinds, classify_line, distinct_heading_sizes, heading_kind, heading_level,
    merge_into_blocks,
    text_after_bullet, text_after_sub_bullet, BlockKind, LineFacts, Text,
};
use pdf_maldives_be::lines::{TextAlign, TextFragment, TextLine};

fn frag(text: &str, bold: bool, italic: bool, underlined: bool) -> TextFragment {
    TextFragment {
        text: text.to_string(),
        font_name: "Arial".to_string(),
        is_bold: bold,
        is_italic: italic,
        is_underlined: underlined,
    }
}

fn plain(text: &str) -> TextFragment {
    frag(text, false, false, false)
}

fn courier(text: &str) -> TextFragment {
    TextFragment {
        text: text.to_string(),
        font_name: "CourierNewPSMT".to_string(),
        is_bold: false,
        is_italic: false,
        is_underlined: false,
    }
}

fn line_of(fragments: Vec<TextFragment>, alignment: TextAlign, small_font: bool) -> TextLine {
    let n = fragments.len();
    TextLine { fragments, wide_gaps: vec![true; n], alignment, small_font }
}

fn left(fragments: Vec<TextFragment>) -> TextLine {
    line_of(fragments, TextAlign::Left, false)
}

fn center(fragments: Vec<TextFragment>) -> TextLine {
    line_of(fragments, TextAlign::Center, false)
}

fn no_facts() -> LineFacts {
    LineFacts { paragraph_break: vec![], fills_width: vec![], same_size: vec![] }
}

fn summary(blocks: &[Text]) -> Vec<(BlockKind, String, usize)> {
    blocks.iter().map(|b| (b.kind, b.text.clone(), b.line)).collect()
}

#[test]
fn page_numbers_need_centre_and_small_font() {
    let l = line_of(vec![plain("12")], TextAlign::Center, true);
    assert_eq!(classify_line(&l, false), BlockKind::PageNumber);
    let l = line_of(vec![plain("12")], TextAlign::Center, false);
    assert_eq!(classify_line(&l, false), BlockKind::Attribution);
    let l = line_of(vec![plain("12")], TextAlign::Left, true);
    assert_eq!(classify_line(&l, false), BlockKind::Paragraph);
}

#[test]
fn list_kinds() {
    assert_eq!(classify_line(&left(vec![plain("•"), plain("Item")]), false), BlockKind::ListItem);
    assert_eq!(classify_line(&left(vec![courier("o"), plain("Sub")]), false), BlockKind::SubListItem);
    assert_eq!(classify_line(&left(vec![plain("1. First item")]), false), BlockKind::OrderedListItem);
    assert_eq!(classify_line(&center(vec![plain("1. First item")]), false), BlockKind::Attribution);
}

#[test]
fn heading_like_kinds() {
    let toc = left(vec![frag("Table of Contents", true, false, true)]);
    assert_eq!(classify_line(&toc, false), BlockKind::TableOfContentsHeading);
    let underlined = center(vec![frag("Chapter", false, false, true)]);
    assert_eq!(classify_line(&underlined, false), BlockKind::HeadingCandidate);
    let bold = center(vec![frag("A Title", true, false, false)]);
    assert_eq!(classify_line(&bold, false), BlockKind::HeadingCandidate);
    let left_bold = left(vec![frag("Introduction 1", true, false, false)]);
    assert_eq!(classify_line(&left_bold, false), BlockKind::HeadingCandidate);
    assert_eq!(classify_line(&left_bold, true), BlockKind::ListItem);
    let long_bold = left(vec![frag(&"x".repeat(120), true, false, false)]);
    assert_eq!(classify_line(&long_bold, false), BlockKind::Paragraph);
}

#[test]
fn centred_text_kinds() {
    assert_eq!(classify_line(&center(vec![frag("A quote", false, true, false)]), false), BlockKind::Epigraph);
    assert_eq!(classify_line(&center(vec![plain("Someone")]), false), BlockKind::Attribution);
    let mid = "m".repeat(45);
    let small = line_of(vec![plain(&mid)], TextAlign::Center, true);
    assert_eq!(classify_line(&small, false), BlockKind::HeadingCandidate);
    assert_eq!(classify_line(&center(vec![plain(&mid)]), false), BlockKind::Paragraph);
    assert_eq!(classify_line(&left(vec![plain("Body text")]), false), BlockKind::Paragraph);
}

#[test]
fn paragraph_lines_join_unless_broken() {
    let lines = vec![left(vec![plain("Line one")]), left(vec![plain("Line two")])];
    let blocks = merge_into_blocks(&lines, &no_facts());
    assert_eq!(summary(&blocks), vec![(BlockKind::Paragraph, "Line one Line two".to_string(), 0)]);
    let facts = LineFacts { paragraph_break: vec![vec![], vec![true]], ..no_facts() };
    let blocks = merge_into_blocks(&lines, &facts);
    assert_eq!(
        summary(&blocks),
        vec![
            (BlockKind::Paragraph, "Line one".to_string(), 0),
            (BlockKind::Paragraph, "Line two".to_string(), 1),
        ]
    );
}

#[test]
fn breaks_are_measured_from_the_last_line_taken() {
    let lines = vec![left(vec![plain("A")]), left(vec![plain("   ")]), left(vec![plain("B")])];
    let facts = LineFacts { paragraph_break: vec![vec![], vec![], vec![false, true]], ..no_facts() };
    let blocks = merge_into_blocks(&lines, &facts);
    assert_eq!(summary(&blocks), vec![(BlockKind::Paragraph, "A B".to_string(), 0)]);
}

#[test]
fn list_items_lose_bullets_and_take_continuations() {
    let lines = vec![
        left(vec![frag("•", true, false, false), frag("First item", true, false, false)]),
        left(vec![plain("continues here")]),
        left(vec![courier("o"), plain("nested")]),
    ];
    let blocks = merge_into_blocks(&lines, &no_facts());
    assert_eq!(
        summary(&blocks),
        vec![
            (BlockKind::ListItem, "First item continues here".to_string(), 0),
            (BlockKind::SubListItem, "nested".to_string(), 2),
        ]
    );
    assert!(blocks[0].is_bold);
    assert!(!blocks[1].is_bold);
}

#[test]
fn bare_marker_lines_are_skipped() {
    let lines = vec![left(vec![plain("•")]), left(vec![plain("Para")])];
    let blocks = merge_into_blocks(&lines, &no_facts());
    assert_eq!(summary(&blocks), vec![(BlockKind::Paragraph, "Para".to_string(), 1)]);
}

#[test]
fn ordered_items_are_normalized() {
    let lines = vec![left(vec![plain("1.First")]), left(vec![plain("2 )  Second")])];
    let facts = LineFacts { paragraph_break: vec![vec![], vec![true]], ..no_facts() };
    let blocks = merge_into_blocks(&lines, &facts);
    assert_eq!(
        summary(&blocks),
        vec![
            (BlockKind::OrderedListItem, "1. First".to_string(), 0),
            (BlockKind::OrderedListItem, "2) Second".to_string(), 1),
        ]
    );
}

#[test]
fn heading_candidates_join_only_when_they_run_on() {
    let lines = vec![
        center(vec![frag("Part One of", true, false, false)]),
        center(vec![frag("the Story", true, false, false)]),
    ];
    let joined = LineFacts {
        paragraph_break: vec![],
        fills_width: vec![vec![], vec![true]],
        same_size: vec![vec![], vec![true]],
    };
    let blocks = merge_into_blocks(&lines, &joined);
    assert_eq!(summary(&blocks), vec![(BlockKind::HeadingCandidate, "Part One of the Story".to_string(), 0)]);
    let short = LineFacts { fills_width: vec![], ..joined.clone() };
    assert_eq!(merge_into_blocks(&lines, &short).len(), 2);
    let ended = vec![
        center(vec![frag("Part One.", true, false, false)]),
        center(vec![frag("the Story", true, false, false)]),
    ];
    assert_eq!(merge_into_blocks(&ended, &joined).len(), 2);
}

#[test]
fn epigraph_lines_join() {
    let lines = vec![
        center(vec![frag("To be or", false, true, false)]),
        center(vec![frag("not to be", false, true, false)]),
        center(vec![plain("Shakespeare")]),
    ];
    let blocks = merge_into_blocks(&lines, &no_facts());
    assert_eq!(
        summary(&blocks),
        vec![
            (BlockKind::Epigraph, "To be or not to be".to_string(), 0),
            (BlockKind::Attribution, "Shakespeare".to_string(), 2),
        ]
    );
    assert!(blocks[0].is_italic);
}

#[test]
fn table_of_contents_entries_become_list_items() {
    let lines = vec![
        left(vec![frag("Table of Contents", true, false, true)]),
        left(vec![frag("Introduction 1", true, false, false)]),
    ];
    let blocks = merge_into_blocks(&lines, &no_facts());
    assert_eq!(
        summary(&blocks),
        vec![
            (BlockKind::TableOfContentsHeading, "Table of Contents".to_string(), 0),
            (BlockKind::ListItem, "Introduction 1".to_string(), 1),
        ]
    );
    assert!(blocks[0].is_underlined);
}

#[test]
fn text_after_markers() {
    let frags = vec![plain("x"), plain("•"), plain(" a"), plain("b ")];
    assert_eq!(text_after_bullet(&frags).into_iter().collect::<String>(), "a b");
    let frags = vec![plain("x"), plain("y"), plain("z")];
    assert_eq!(text_after_bullet(&frags).into_iter().collect::<String>(), "y z");
    let frags = vec![courier("o"), plain("one"), plain("two")];
    assert_eq!(text_after_sub_bullet(&frags).into_iter().collect::<String>(), "one two");
}

#[test]
fn heading_levels_from_rank_and_offset() {
    assert_eq!(heading_kind(0, 0), BlockKind::Heading1);
    assert_eq!(heading_kind(1, 0), BlockKind::Heading2);
    assert_eq!(heading_kind(2, 1), BlockKind::Heading4);
    assert_eq!(heading_kind(4, 0), BlockKind::Heading5);
    assert_eq!(heading_kind(4, 1), BlockKind::Heading6);
    assert_eq!(heading_kind(10, 0), BlockKind::Heading6);
    assert_eq!(heading_kind(usize::MAX, 1), BlockKind::Heading6);
}

#[test]
fn kind_labels() {
    assert_eq!(BlockKind::TableOfContentsHeading.label(), "TOCHeading");
    assert_eq!(BlockKind::HeadingCandidate.label(), "HeadingCandidate");
    assert_eq!(BlockKind::OrderedListItem.label(), "OrderedListItem");
    assert_eq!(BlockKind::Heading3.label(), "Heading3");
}

#[test]
fn blocks_follow_line_order_and_breaks_split_them() {
    let lines = vec![
        left(vec![plain("Intro text")]),
        left(vec![plain("")]),
        center(vec![frag("Title", true, false, false)]),
        left(vec![plain("more")]),
        left(vec![plain("after break")]),
    ];
    let facts = LineFacts { paragraph_break: vec![vec![], vec![], vec![], vec![], vec![false, false, false, true]], ..no_facts() };
    let blocks = merge_into_blocks(&lines, &facts);
    let starts: Vec<usize> = blocks.iter().map(|b| b.line).collect();
    assert_eq!(starts, vec![0, 2, 3, 4]);
    assert!(blocks.iter().all(|b| !b.text.is_empty()));
}

fn closeness(sizes: &[f32]) -> Vec<Vec<bool>> {
    sizes.iter().map(|a| sizes.iter().map(|b| (a - b).abs() < 0.5).collect()).collect()
}

#[test]
fn distinct_levels_skip_sizes_close_to_kept_ones() {
    let sizes = [24.0, 23.8, 18.0, 17.7, 17.4, 14.0];
    let kept = distinct_heading_sizes(&closeness(&sizes), sizes.len());
    assert_eq!(kept, vec![0, 2, 4, 5]);
    assert_eq!(distinct_heading_sizes(&closeness(&[]), 0), Vec::<usize>::new());
    assert_eq!(distinct_heading_sizes(&closeness(&[12.0]), 1), vec![0]);
}

#[test]
fn heading_level_is_first_close_level_or_last() {
    assert_eq!(heading_level(&vec![false, true, true], 3), 1);
    assert_eq!(heading_level(&vec![true, false], 2), 0);
    assert_eq!(heading_level(&vec![false, false, false], 3), 2);
    assert_eq!(heading_level(&vec![], 0), 0);
    assert_eq!(heading_level(&vec![false], 4), 3);
}

#[test]
fn heading_candidates_take_levels_across_pages() {
    let hc = Some(BlockKind::HeadingCandidate);
    let mut kinds = vec![vec![hc, Some(BlockKind::Paragraph), None], vec![hc, hc]];
    let near = vec![
        vec![vec![true, false], vec![true, false], vec![]],
        vec![vec![false, true], vec![false, false]],
    ];
    assign_heading_kinds(&mut kinds, &near, 2, 1);
    assert_eq!(
        kinds,
        vec![
            vec![Some(BlockKind::Heading2), Some(BlockKind::Paragraph), None],
            vec![Some(BlockKind::Heading3), Some(BlockKind::Heading3)],
        ]
    );
}

#[test]
fn larger_fonts_never_get_deeper_levels() {
    let sizes = [20.0_f32, 19.8, 16.0, 12.0, 11.7];
    let kept = distinct_heading_sizes(&closeness(&sizes), sizes.len());
    let levels: Vec<f32> = kept.iter().map(|&i| sizes[i]).collect();
    let level_of = |s: f32| {
        let near: Vec<bool> = levels.iter().map(|l| (l - s).abs() < 0.5).collect();
        heading_level(&near, levels.len())
    };
    let got: Vec<usize> = sizes.iter().map(|&s| level_of(s)).collect();
    assert_eq!(got, vec![0, 0, 1, 2, 2]);
    for w in got.windows(2) {
        assert!(w[0] <= w[1]);
    }
}
