use pdf_maldives_be::lines::{TextAlign, TextFragment};
use pdf_maldives_be::parser::{classify_line, merge_into_blocks, AlignedFragment, BlockKind, TextLine};

fn frag(text: &str, bold: bool, italic: bool, underlined: bool) -> TextFragment {
    TextFragment {
        text: text.to_string(),
        font_name: "Times".to_string(),
        is_bold: bold,
        is_italic: italic,
        is_underlined: underlined,
    }
}

fn aligned(fragment: TextFragment, alignment: TextAlign) -> AlignedFragment {
    AlignedFragment { fragment, alignment }
}

fn line(fragments: Vec<TextFragment>, align: TextAlign, small: bool, large: bool) -> TextLine {
    TextLine {
        fragments: fragments.into_iter().map(|f| aligned(f, align)).collect(),
        at_most_9pt: small,
        at_least_12pt: large,
    }
}

#[test]
fn legacy_text_always_spaces_fragments() {
    let l = line(vec![frag("Hello", false, false, false), frag("world", false, false, false)], TextAlign::Left, false, false);
    assert_eq!(l.merged_text(), "Hello world");
    let l = line(vec![frag("Hello ", false, false, false), frag("world ", false, false, false)], TextAlign::Left, false, false);
    assert_eq!(l.merged_text(), "Hello world");
}

#[test]
fn legacy_alignment_from_first_nonblank_fragment() {
    let l = TextLine {
        fragments: vec![
            aligned(frag(" ", false, false, false), TextAlign::Left),
            aligned(frag("x", false, false, false), TextAlign::Center),
        ],
        at_most_9pt: false,
        at_least_12pt: false,
    };
    assert_eq!(l.alignment(), TextAlign::Center);
    let l = TextLine { fragments: vec![aligned(frag(" ", false, false, false), TextAlign::Center)], at_most_9pt: false, at_least_12pt: false };
    assert_eq!(l.alignment(), TextAlign::Left);
}

#[test]
fn legacy_kinds() {
    let c = TextAlign::Center;
    let left = TextAlign::Left;
    assert_eq!(classify_line(&line(vec![frag("3", false, false, false)], c, true, false), false), BlockKind::PageNumber);
    assert_eq!(classify_line(&line(vec![frag("Title", false, false, true)], c, false, true), false), BlockKind::Title);
    assert_eq!(classify_line(&line(vec![frag("A subtitle", false, false, false)], c, true, false), false), BlockKind::Subtitle);
    assert_eq!(classify_line(&line(vec![frag("Quote", false, true, false)], c, false, false), false), BlockKind::Epigraph);
    assert_eq!(classify_line(&line(vec![frag("Author", false, false, false)], c, false, false), false), BlockKind::Attribution);
    assert_eq!(classify_line(&line(vec![frag("Heading", true, false, false)], left, false, false), false), BlockKind::Heading);
    assert_eq!(classify_line(&line(vec![frag("Entry 3", true, false, false)], left, false, false), true), BlockKind::ListItem);
    assert_eq!(classify_line(&line(vec![frag("Body", false, false, false)], left, false, false), false), BlockKind::Paragraph);
    let toc = line(vec![frag("Table of Contents", true, false, true)], left, false, false);
    assert_eq!(classify_line(&toc, false), BlockKind::TableOfContentsHeading);
    assert_eq!(BlockKind::TableOfContentsHeading.label(), "TOCHeading");
}

#[test]
fn legacy_merge_joins_paragraphs_and_epigraphs() {
    let left = TextAlign::Left;
    let lines = vec![
        line(vec![frag("One", false, false, false)], left, false, false),
        line(vec![frag("two", false, false, false)], left, false, false),
        line(vec![frag("Head", true, false, false)], left, false, false),
        line(vec![frag("•", false, false, false), frag("item", false, false, false)], left, false, false),
        line(vec![frag("after", false, false, false)], left, false, false),
    ];
    let blocks = merge_into_blocks(&lines);
    let got: Vec<(BlockKind, String, usize)> = blocks.iter().map(|b| (b.kind, b.text.clone(), b.line)).collect();
    assert_eq!(
        got,
        vec![
            (BlockKind::Paragraph, "One two".to_string(), 0),
            (BlockKind::Heading, "Head".to_string(), 2),
            (BlockKind::ListItem, "item".to_string(), 3),
            (BlockKind::Paragraph, "after".to_string(), 4),
        ]
    );
    assert!(blocks[1].is_bold);
}

#[test]
fn legacy_merge_joins_same_kind_and_style() {
    let left = TextAlign::Left;
    let heading = |t: &str| line(vec![frag(t, true, false, false)], left, false, true);
    let blocks = merge_into_blocks(&vec![heading("Intro"), heading("Part")]);
    assert_eq!(blocks.len(), 1);
    assert_eq!(blocks[0].kind, BlockKind::Heading);
    assert_eq!(blocks[0].text, "Intro Part");

    let lines = vec![
        line(vec![frag("plain", false, false, false)], left, false, false),
        line(vec![frag("underlined", false, false, true)], left, false, false),
        line(vec![frag("•", false, false, false), frag("one", false, false, false)], left, false, false),
        line(vec![frag("•", false, false, false), frag("two", false, false, false)], left, false, false),
    ];
    let blocks = merge_into_blocks(&lines);
    let got: Vec<(BlockKind, String)> = blocks.iter().map(|b| (b.kind, b.text.clone())).collect();
    assert_eq!(
        got,
        vec![
            (BlockKind::Paragraph, "plain".to_string()),
            (BlockKind::Paragraph, "underlined".to_string()),
            (BlockKind::ListItem, "one two".to_string()),
        ]
    );
}
