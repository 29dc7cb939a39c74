use pdf_maldives_be::lines::{
    font_style, merge_line_fragments, style_of_lowercase_name, RunFacts, TextAlign, TextFragment, TextLine,
};

fn frag(text: &str, font: &str, bold: bool, italic: bool, underlined: bool) -> TextFragment {
    TextFragment {
        text: text.to_string(),
        font_name: font.to_string(),
        is_bold: bold,
        is_italic: italic,
        is_underlined: underlined,
    }
}

fn plain(text: &str) -> TextFragment {
    frag(text, "Arial", false, false, false)
}

fn line(fragments: Vec<TextFragment>, wide_gaps: Vec<bool>) -> TextLine {
    TextLine { fragments, wide_gaps, alignment: TextAlign::Left, small_font: false }
}

#[test]
fn merged_text_spaces_wide_gaps_only() {
    let l = line(vec![plain("Hello"), plain("world")], vec![false, true]);
    assert_eq!(l.merged_text(), "Hello world");
    let l = line(vec![plain("Hello"), plain("world")], vec![false, false]);
    assert_eq!(l.merged_text(), "Helloworld");
}

#[test]
fn merged_text_skips_empty_and_keeps_single_space() {
    let l = line(vec![plain("Hello "), plain(""), plain("world")], vec![false, true, true]);
    assert_eq!(l.merged_text(), "Hello world");
    let l = line(vec![plain("  a "), plain("b"), plain(" c")], vec![true, true, true]);
    assert_eq!(l.merged_text(), "a b c");
    let l = line(vec![plain("x"), plain("y")], vec![]);
    assert_eq!(l.merged_text(), "xy");
}

#[test]
fn bold_and_italic_by_byte_majority() {
    let l = line(vec![frag("Bold", "Arial", true, false, false), plain("xy")], vec![false, true]);
    assert!(l.is_bold());
    assert!(!l.is_italic());
    let l = line(vec![frag("ab", "Arial", true, true, false), plain("cdef")], vec![false, true]);
    assert!(!l.is_bold());
    assert!(!l.is_italic());
    let l = line(vec![frag("ab", "Arial", false, true, false), plain(" cd ")], vec![false, true]);
    assert!(l.is_italic());
    let l = line(vec![frag("   ", "Arial", true, true, false)], vec![false]);
    assert!(!l.is_bold());
    assert!(!l.is_italic());
}

#[test]
fn underline_when_any_fragment_is() {
    let l = line(vec![plain("a"), frag("b", "Arial", false, false, true)], vec![false, true]);
    assert!(l.is_underlined());
    let l = line(vec![plain("a"), plain("b")], vec![false, true]);
    assert!(!l.is_underlined());
    assert_eq!(l.alignment(), TextAlign::Left);
}

#[test]
fn bullets_read_from_first_nonblank_fragment() {
    let l = line(vec![plain(" "), plain("•"), plain("item")], vec![]);
    assert_eq!(l.first_nonblank_index(), Some(1));
    assert!(l.starts_with_bullet());
    let l = line(vec![frag("\u{f0b7}", "SymbolMT", false, false, false), plain("item")], vec![]);
    assert!(l.starts_with_bullet());
    let l = line(vec![plain("text"), plain("•")], vec![]);
    assert!(!l.starts_with_bullet());
    let l = line(vec![plain("  "), plain("")], vec![]);
    assert_eq!(l.first_nonblank_index(), None);
    assert!(!l.starts_with_bullet());
}

#[test]
fn sub_bullets_are_courier_o() {
    let l = line(vec![frag(" o ", "CourierNewPSMT", false, false, false), plain("sub")], vec![]);
    assert!(l.starts_with_sub_bullet());
    let l = line(vec![frag("oo", "CourierNewPSMT", false, false, false)], vec![]);
    assert!(!l.starts_with_sub_bullet());
    let l = line(vec![frag("o", "Arial", false, false, false)], vec![]);
    assert!(!l.starts_with_sub_bullet());
}

#[test]
fn font_style_from_lowercased_name() {
    assert_eq!(font_style("Arial-BoldItalicMT"), (true, true));
    assert_eq!(font_style("Helvetica-Oblique"), (false, true));
    assert_eq!(font_style("ARIAL-HEAVY"), (true, false));
    assert_eq!(font_style("TimesNewRomanPSMT"), (false, false));
}

#[test]
fn glyph_fragments_fold_into_words() {
    let glyphs: Vec<TextFragment> = ["H", "i", "y", "o", "u"].iter().map(|t| plain(t)).collect();
    let same = vec![vec![true]; 5];
    let mut wide = vec![vec![false]; 5];
    wide[2][0] = true;
    let facts = RunFacts { same_size: same, wide_gap: wide };
    let runs = merge_line_fragments(&glyphs, &facts);
    assert_eq!(runs.len(), 1);
    assert_eq!(runs[0].fragment.text, "Hi you");
    assert_eq!((runs[0].first, runs[0].last), (0, 4));
}

#[test]
fn style_or_size_change_starts_a_new_run() {
    let frags = vec![
        plain("a"),
        plain("b"),
        frag("C", "Arial", true, false, false),
        frag("D", "Arial", true, false, false),
        frag("e", "Arial", true, false, false),
    ];
    let mut same = vec![vec![true; 5]; 5];
    same[4][2] = false;
    let facts = RunFacts { same_size: same, wide_gap: vec![] };
    let runs = merge_line_fragments(&frags, &facts);
    let texts: Vec<&str> = runs.iter().map(|r| r.fragment.text.as_str()).collect();
    assert_eq!(texts, vec!["ab", "CD", "e"]);
    assert_eq!((runs[1].first, runs[1].last), (2, 3));
    assert!(runs[1].fragment.is_bold);
    assert_eq!((runs[2].first, runs[2].last), (4, 4));
}

#[test]
fn runs_cover_fragments_in_order_with_one_style_each() {
    let frags = vec![
        plain("a"),
        frag("b", "Arial", false, true, false),
        frag("c", "Arial", false, true, false),
        frag("d", "Times", false, true, false),
        plain("e"),
        plain("f"),
    ];
    let facts = RunFacts { same_size: vec![vec![true; 6]; 6], wide_gap: vec![] };
    let runs = merge_line_fragments(&frags, &facts);
    assert_eq!(runs[0].first, 0);
    assert_eq!(runs.last().unwrap().last, frags.len() - 1);
    for pair in runs.windows(2) {
        assert_eq!(pair[1].first, pair[0].last + 1);
    }
    for r in &runs {
        for f in &frags[r.first..=r.last] {
            assert_eq!(f.font_name, r.fragment.font_name);
            assert_eq!((f.is_bold, f.is_italic, f.is_underlined), (r.fragment.is_bold, r.fragment.is_italic, r.fragment.is_underlined));
        }
    }
    let texts: Vec<&str> = runs.iter().map(|r| r.fragment.text.as_str()).collect();
    assert_eq!(texts, vec!["a", "bc", "d", "ef"]);
}

#[test]
fn style_from_lowercase_name_is_case_sensitive() {
    assert_eq!(style_of_lowercase_name("arial-bolditalicmt"), (true, true));
    assert_eq!(style_of_lowercase_name("ARIAL-BOLD"), (false, false));
    assert_eq!(style_of_lowercase_name("helvetica-oblique"), (false, true));
    assert_eq!(style_of_lowercase_name("franklin-heavy"), (true, false));
}
