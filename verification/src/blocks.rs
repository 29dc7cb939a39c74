//! Classification of lines into block kinds, and the merging of consecutive
//! lines into text blocks.
use vstd::prelude::*;
use crate::lines::{
    any_underlined, begins_with_bullet, begins_with_sub_bullet, fragment_is_bullet,
    fragment_is_sub_bullet, is_bullet_fragment, is_sub_bullet_fragment, line_text, mostly_bold,
    mostly_italic, within_limits, TextAlign, TextFragment, TextLine,
};
use crate::text::{
    byte_len, byte_len_of, chars_of, contains_chars, ends_sentence, has_infix, looks_complete,
    marker_len, normalize_ordered_marker, normalized_marker_text, ordered_marker_len,
    parses_as_u32, parses_as_u32_chars, string_of, trim, trim_chars,
};

verus! {

broadcast use vstd::string::group_string_axioms;

#[derive(Debug, Clone, Copy, PartialEq, Eq, Structural)]
pub enum BlockKind {
    PageNumber,
    Heading1,
    Heading2,
    Heading3,
    Heading4,
    Heading5,
    Heading6,
    HeadingCandidate,
    Epigraph,
    Attribution,
    Paragraph,
    ListItem,
    SubListItem,
    OrderedListItem,
    TableOfContentsHeading,
}

/// The label under which each kind is displayed.
pub open spec fn kind_label(k: BlockKind) -> Seq<char> {
    match k {
        BlockKind::PageNumber => "PageNumber"@,
        BlockKind::Heading1 => "Heading1"@,
        BlockKind::Heading2 => "Heading2"@,
        BlockKind::Heading3 => "Heading3"@,
        BlockKind::Heading4 => "Heading4"@,
        BlockKind::Heading5 => "Heading5"@,
        BlockKind::Heading6 => "Heading6"@,
        BlockKind::HeadingCandidate => "HeadingCandidate"@,
        BlockKind::Epigraph => "Epigraph"@,
        BlockKind::Attribution => "Attribution"@,
        BlockKind::Paragraph => "Paragraph"@,
        BlockKind::ListItem => "ListItem"@,
        BlockKind::SubListItem => "SubListItem"@,
        BlockKind::OrderedListItem => "OrderedListItem"@,
        BlockKind::TableOfContentsHeading => "TOCHeading"@,
    }
}

impl BlockKind {
    /// The display label of the kind (`TOCHeading` for a table-of-contents
    /// heading, the variant's name otherwise).
    pub fn label(&self) -> (s: &'static str)
        ensures
            s@ == kind_label(*self),
    {
        match self {
            BlockKind::PageNumber => "PageNumber",
            BlockKind::Heading1 => "Heading1",
            BlockKind::Heading2 => "Heading2",
            BlockKind::Heading3 => "Heading3",
            BlockKind::Heading4 => "Heading4",
            BlockKind::Heading5 => "Heading5",
            BlockKind::Heading6 => "Heading6",
            BlockKind::HeadingCandidate => "HeadingCandidate",
            BlockKind::Epigraph => "Epigraph",
            BlockKind::Attribution => "Attribution",
            BlockKind::Paragraph => "Paragraph",
            BlockKind::ListItem => "ListItem",
            BlockKind::SubListItem => "SubListItem",
            BlockKind::OrderedListItem => "OrderedListItem",
            BlockKind::TableOfContentsHeading => "TOCHeading",
        }
    }
}

/// The kind a line gets from its text, alignment and style; `in_toc` tells
/// whether a "Table of Contents" line has been seen before or on it.
pub open spec fn classify(line: TextLine, in_toc: bool) -> BlockKind {
    let text = line_text(line.fragments@, line.wide_gaps@);
    let len = byte_len(text);
    let center = line.alignment == TextAlign::Center;
    let left = line.alignment == TextAlign::Left;
    let bold = mostly_bold(line.fragments@);
    let italic = mostly_italic(line.fragments@);
    let underlined = any_underlined(line.fragments@);
    if parses_as_u32(trim(text)) && center && line.small_font {
        BlockKind::PageNumber
    } else if begins_with_bullet(line.fragments@) {
        BlockKind::ListItem
    } else if begins_with_sub_bullet(line.fragments@) {
        BlockKind::SubListItem
    } else if left && marker_len(text) is Some {
        BlockKind::OrderedListItem
    } else if bold && underlined && has_infix(text, "Table of Contents"@) {
        BlockKind::TableOfContentsHeading
    } else if center && underlined && len < 120 {
        BlockKind::HeadingCandidate
    } else if center && italic {
        BlockKind::Epigraph
    } else if center && !italic && !bold && len < 40 {
        BlockKind::Attribution
    } else if center && bold && len < 120 {
        BlockKind::HeadingCandidate
    } else if center && !italic && !bold && line.small_font && len < 60 {
        BlockKind::HeadingCandidate
    } else if in_toc && bold {
        BlockKind::ListItem
    } else if bold && left && len < 120 {
        BlockKind::HeadingCandidate
    } else {
        BlockKind::Paragraph
    }
}

/// Classifies one line.
pub fn classify_line(line: &TextLine, is_in_toc: bool) -> (k: BlockKind)
    requires
        within_limits(line.fragments@),
    ensures
        k == classify(*line, is_in_toc),
{
    let text = line.merged_text();
    let chars = chars_of(text.as_str());
    let trimmed = trim_chars(chars.as_slice());
    let len = byte_len_of(chars.as_slice());
    let center = line.alignment == TextAlign::Center;
    let left = line.alignment == TextAlign::Left;
    let bold = line.is_bold();
    let italic = line.is_italic();
    let underlined = line.is_underlined();
    if parses_as_u32_chars(trimmed.as_slice()) && center && line.small_font {
        return BlockKind::PageNumber;
    }
    if line.starts_with_bullet() {
        return BlockKind::ListItem;
    }
    if line.starts_with_sub_bullet() {
        return BlockKind::SubListItem;
    }
    if left && ordered_marker_len(text.as_str()).is_some() {
        return BlockKind::OrderedListItem;
    }
    let toc = chars_of("Table of Contents");
    if bold && underlined && contains_chars(chars.as_slice(), toc.as_slice()) {
        return BlockKind::TableOfContentsHeading;
    }
    if center && underlined && len < 120 {
        return BlockKind::HeadingCandidate;
    }
    if center && italic {
        return BlockKind::Epigraph;
    }
    if center && !italic && !bold && len < 40 {
        return BlockKind::Attribution;
    }
    if center && bold && len < 120 {
        return BlockKind::HeadingCandidate;
    }
    if center && !italic && !bold && line.small_font && len < 60 {
        return BlockKind::HeadingCandidate;
    }
    if is_in_toc && bold {
        return BlockKind::ListItem;
    }
    if bold && left && len < 120 {
        return BlockKind::HeadingCandidate;
    }
    BlockKind::Paragraph
}


/// A block of text: a run of lines merged under one kind. Its style flags
/// are those of its first line, whose index `line` is.
#[derive(Debug, Clone)]
pub struct Text {
    pub kind: BlockKind,
    pub text: String,
    pub is_bold: bool,
    pub is_italic: bool,
    pub is_underlined: bool,
    pub line: usize,
}

/// A text block as a value: kind, text, bold, italic, underlined, first line.
pub type TextView = (BlockKind, Seq<char>, bool, bool, bool, int);

pub open spec fn text_view(t: Text) -> TextView {
    (t.kind, t.text@, t.is_bold, t.is_italic, t.is_underlined, t.line as int)
}

pub open spec fn text_views(ts: Seq<Text>) -> Seq<TextView> {
    ts.map_values(|t: Text| text_view(t))
}

/// What the geometry of a page tells about pairs of its lines, indexed by the
/// later line `i` and an earlier line `p` as `[i][p]`:
/// - `paragraph_break[i][p]`: the vertical gap from the bottom of line `p`
///   down to the top of line `i` exceeds 1.3 times line `i`'s font size;
/// - `fills_width[i][p]`: line `p` ends within twice line `i`'s font size
///   of the rightmost text edge among all the lines;
/// - `same_size[i][p]`: the font sizes of lines `i` and `p` differ by less
///   than 0.5 pt.
/// A missing entry reads as `false`.
#[derive(Debug, Clone)]
pub struct LineFacts {
    pub paragraph_break: Vec<Vec<bool>>,
    pub fills_width: Vec<Vec<bool>>,
    pub same_size: Vec<Vec<bool>>,
}

pub open spec fn fact(m: Seq<Vec<bool>>, i: int, p: int) -> bool {
    0 <= i < m.len() && 0 <= p < m[i]@.len() && m[i]@[p]
}

fn fact_at(m: &Vec<Vec<bool>>, i: usize, p: usize) -> (b: bool)
    ensures
        b == fact(m@, i as int, p as int),
{
    i < m.len() && p < m[i].len() && m[i][p]
}

/// `i` is the first bullet fragment.
pub open spec fn first_bullet(frags: Seq<TextFragment>, i: int) -> bool {
    &&& 0 <= i < frags.len()
    &&& is_bullet_fragment(frags[i])
    &&& forall|j: int| 0 <= j < i ==> !is_bullet_fragment(#[trigger] frags[j])
}

/// `i` is the first sub-bullet fragment.
pub open spec fn first_sub_bullet(frags: Seq<TextFragment>, i: int) -> bool {
    &&& 0 <= i < frags.len()
    &&& is_sub_bullet_fragment(frags[i])
    &&& forall|j: int| 0 <= j < i ==> !is_sub_bullet_fragment(#[trigger] frags[j])
}

/// Position of the first bullet fragment, `0` when there is none.
pub open spec fn bullet_index(frags: Seq<TextFragment>) -> int {
    if exists|i: int| first_bullet(frags, i) {
        choose|i: int| first_bullet(frags, i)
    } else {
        0
    }
}

/// Position of the first sub-bullet fragment, `0` when there is none.
pub open spec fn sub_bullet_index(frags: Seq<TextFragment>) -> int {
    if exists|i: int| first_sub_bullet(frags, i) {
        choose|i: int| first_sub_bullet(frags, i)
    } else {
        0
    }
}

/// The texts of `frags` joined with single spaces.
pub open spec fn joined_with_spaces(frags: Seq<TextFragment>) -> Seq<char>
    decreases frags.len(),
{
    if frags.len() == 0 {
        Seq::empty()
    } else if frags.len() == 1 {
        frags[0].text@
    } else {
        joined_with_spaces(frags.drop_last()) + seq![' '] + frags.last().text@
    }
}

/// The text after the marker fragment at `idx`: the later fragment texts
/// joined with spaces, trimmed.
pub open spec fn text_after(frags: Seq<TextFragment>, idx: int) -> Seq<char> {
    trim(joined_with_spaces(frags.skip(idx + 1)))
}

/// The text a block takes from a line of the given kind: list items lose
/// their bullet marker, ordered items get a normalized marker.
pub open spec fn clean_text(line: TextLine, kind: BlockKind, text: Seq<char>) -> Seq<char> {
    if kind == BlockKind::ListItem && begins_with_bullet(line.fragments@) {
        text_after(line.fragments@, bullet_index(line.fragments@))
    } else if kind == BlockKind::SubListItem && begins_with_sub_bullet(line.fragments@) {
        text_after(line.fragments@, sub_bullet_index(line.fragments@))
    } else if kind == BlockKind::OrderedListItem {
        normalized_marker_text(text)
    } else {
        text
    }
}

/// Whether line `i` continues the block `prev` rather than starting one.
/// `brk` and `filled` are the paragraph-break and filled-width facts
/// between line `i` and the line processed before it (false if none).
pub open spec fn joins_previous(
    prev: TextView,
    kind: BlockKind,
    line: TextLine,
    facts: LineFacts,
    i: int,
    brk: bool,
    filled: bool,
) -> bool {
    match (prev.0, kind) {
        (BlockKind::Paragraph, BlockKind::Paragraph) => !brk,
        (BlockKind::Epigraph, BlockKind::Epigraph) => !brk,
        (BlockKind::OrderedListItem, BlockKind::Paragraph) => !brk,
        (BlockKind::ListItem, BlockKind::Paragraph) => !brk,
        (BlockKind::SubListItem, BlockKind::Paragraph) => !brk,
        (BlockKind::HeadingCandidate, BlockKind::HeadingCandidate) => {
            &&& !brk
            &&& fact(facts.same_size@, i, prev.5)
            &&& prev.2 == mostly_bold(line.fragments@)
            &&& prev.3 == mostly_italic(line.fragments@)
            &&& filled
            &&& !ends_sentence(prev.1)
        },
        _ => false,
    }
}

/// Blocks built so far, whether a table of contents has begun, and the last
/// line that contributed text.
pub type MergeState = (Seq<TextView>, bool, Option<int>);

/// The effect of line `i` on the merge state.
pub open spec fn merge_step(st: MergeState, line: TextLine, facts: LineFacts, i: int) -> MergeState {
    let text = line_text(line.fragments@, line.wide_gaps@);
    if text.len() == 0 {
        st
    } else {
        let toc = st.1 || has_infix(text, "Table of Contents"@);
        let kind = classify(line, toc);
        let clean = clean_text(line, kind, text);
        if clean.len() == 0 {
            (st.0, toc, st.2)
        } else {
            let brk = match st.2 {
                Some(p) => fact(facts.paragraph_break@, i, p),
                None => false,
            };
            let filled = match st.2 {
                Some(p) => fact(facts.fills_width@, i, p),
                None => false,
            };
            if st.0.len() > 0 && joins_previous(st.0.last(), kind, line, facts, i, brk, filled) {
                let prev = st.0.last();
                (
                    st.0.update(
                        st.0.len() - 1,
                        (prev.0, prev.1 + seq![' '] + clean, prev.2, prev.3, prev.4, prev.5),
                    ),
                    toc,
                    Some(i),
                )
            } else {
                (
                    st.0.push(
                        (
                            kind,
                            clean,
                            mostly_bold(line.fragments@),
                            mostly_italic(line.fragments@),
                            any_underlined(line.fragments@),
                            i,
                        ),
                    ),
                    toc,
                    Some(i),
                )
            }
        }
    }
}

/// The merge state after the first `n` lines.
pub open spec fn merge_lines(lines: Seq<TextLine>, facts: LineFacts, n: int) -> MergeState
    decreases n,
{
    if n <= 0 {
        (Seq::empty(), false, None)
    } else {
        merge_step(merge_lines(lines, facts, n - 1), lines[n - 1], facts, n - 1)
    }
}

/// Blocks come in the order of their first lines; every block starts at a
/// line with text and has text of its own; the last line taken is one of
/// the lines seen, no earlier than the start of the last block.
pub proof fn lemma_blocks_follow_lines(lines: Seq<TextLine>, facts: LineFacts, n: int)
    requires
        0 <= n <= lines.len(),
    ensures
        forall|j: int|
            0 <= j < merge_lines(lines, facts, n).0.len() ==> {
                let b = #[trigger] merge_lines(lines, facts, n).0[j];
                &&& 0 <= b.5 < n
                &&& b.1.len() > 0
                &&& line_text(lines[b.5].fragments@, lines[b.5].wide_gaps@).len() > 0
            },
        forall|j: int, k: int|
            0 <= j < k < merge_lines(lines, facts, n).0.len() ==> (#[trigger] merge_lines(
                lines,
                facts,
                n,
            ).0[j]).5 < (#[trigger] merge_lines(lines, facts, n).0[k]).5,
        match merge_lines(lines, facts, n).2 {
            Some(p) => 0 <= p < n && merge_lines(lines, facts, n).0.len() > 0 && merge_lines(
                lines,
                facts,
                n,
            ).0.last().5 <= p,
            None => merge_lines(lines, facts, n).0.len() == 0,
        },
    decreases n,
{
    if n > 0 {
        lemma_blocks_follow_lines(lines, facts, n - 1);
        let st = merge_lines(lines, facts, n - 1);
        let bs = merge_lines(lines, facts, n).0;
        assert(merge_lines(lines, facts, n) == merge_step(st, lines[n - 1], facts, n - 1));
        if bs.len() == st.0.len() {
            assert forall|j: int| 0 <= j < bs.len() - 1 implies #[trigger] bs[j] == st.0[j] by {
                if bs != st.0 {
                    assert(bs =~= st.0.update(st.0.len() - 1, bs.last()));
                }
            }
            assert forall|j: int|
                0 <= j < bs.len() implies {
                let b = #[trigger] bs[j];
                &&& 0 <= b.5 < n
                &&& b.1.len() > 0
                &&& line_text(lines[b.5].fragments@, lines[b.5].wide_gaps@).len() > 0
            } by {
                assert(bs[j].5 == st.0[j].5);
                assert(bs[j].1.len() >= st.0[j].1.len());
            }
            assert forall|j: int, k: int| 0 <= j < k < bs.len() implies (#[trigger] bs[j]).5 < (
            #[trigger] bs[k]).5 by {
                assert(bs[j].5 == st.0[j].5);
                assert(bs[k].5 == st.0[k].5);
            }
        } else {
            assert(bs.len() == st.0.len() + 1);
            assert forall|j: int| 0 <= j < st.0.len() implies #[trigger] bs[j] == st.0[j] by {}
            assert forall|j: int, k: int| 0 <= j < k < bs.len() implies (#[trigger] bs[j]).5 < (
            #[trigger] bs[k]).5 by {
                if k < st.0.len() {
                    assert(bs[j] == st.0[j]);
                    assert(bs[k] == st.0[k]);
                } else {
                    assert(bs[j] == st.0[j]);
                    assert(st.0[j].5 <= st.0.last().5);
                }
            }
        }
    }
}

/// Lines separated by a paragraph break never share a block: when line `i`
/// is taken and a break separates it from the last line taken before it,
/// line `i` starts a new block.
pub proof fn lemma_break_starts_block(lines: Seq<TextLine>, facts: LineFacts, i: int, p: int)
    requires
        0 <= i < lines.len(),
        merge_lines(lines, facts, i).2 == Some(p),
        fact(facts.paragraph_break@, i, p),
        merge_lines(lines, facts, i + 1).2 == Some(i),
    ensures
        merge_lines(lines, facts, i + 1).0.len() == merge_lines(lines, facts, i).0.len() + 1,
        merge_lines(lines, facts, i + 1).0.last().5 == i,
{
    lemma_blocks_follow_lines(lines, facts, i);
    assert(merge_lines(lines, facts, i + 1) == merge_step(
        merge_lines(lines, facts, i),
        lines[i],
        facts,
        i,
    ));
}

/// A paragraph line continues the list item or paragraph before it: when
/// the last block is a paragraph, a list item, a sub-list item or an
/// ordered-list item, and line `i` has text, is classified a paragraph and
/// no paragraph break separates it from the last line taken, its text is
/// appended to that block after one space and no block starts.
pub proof fn lemma_paragraph_continues_block(lines: Seq<TextLine>, facts: LineFacts, i: int)
    requires
        0 <= i < lines.len(),
        merge_lines(lines, facts, i).0.len() > 0,
        merge_lines(lines, facts, i).0.last().0 == BlockKind::Paragraph
            || merge_lines(lines, facts, i).0.last().0 == BlockKind::ListItem
            || merge_lines(lines, facts, i).0.last().0 == BlockKind::SubListItem
            || merge_lines(lines, facts, i).0.last().0 == BlockKind::OrderedListItem,
        line_text(lines[i].fragments@, lines[i].wide_gaps@).len() > 0,
        classify(
            lines[i],
            merge_lines(lines, facts, i).1 || has_infix(
                line_text(lines[i].fragments@, lines[i].wide_gaps@),
                "Table of Contents"@,
            ),
        ) == BlockKind::Paragraph,
        match merge_lines(lines, facts, i).2 {
            Some(p) => !fact(facts.paragraph_break@, i, p),
            None => true,
        },
    ensures
        ({
            let before = merge_lines(lines, facts, i).0;
            let last = before.last();
            merge_lines(lines, facts, i + 1).0 == before.update(
                before.len() - 1,
                (
                    last.0,
                    last.1 + seq![' '] + line_text(lines[i].fragments@, lines[i].wide_gaps@),
                    last.2,
                    last.3,
                    last.4,
                    last.5,
                ),
            )
        }),
        merge_lines(lines, facts, i + 1).2 == Some(i),
{
    assert(merge_lines(lines, facts, i + 1) == merge_step(
        merge_lines(lines, facts, i),
        lines[i],
        facts,
        i,
    ));
}

/// Only four pairs of kinds ever share a block: paragraph after paragraph,
/// epigraph after epigraph, paragraph after a list item of any sort, and
/// heading candidate after heading candidate. When line `i` is taken and
/// its kind does not pair so with the last block's, it starts a new block
/// holding its style and its index.
pub proof fn lemma_other_kinds_start_blocks(lines: Seq<TextLine>, facts: LineFacts, i: int)
    requires
        0 <= i < lines.len(),
        line_text(lines[i].fragments@, lines[i].wide_gaps@).len() > 0,
        ({
            let st = merge_lines(lines, facts, i);
            let text = line_text(lines[i].fragments@, lines[i].wide_gaps@);
            let kind = classify(lines[i], st.1 || has_infix(text, "Table of Contents"@));
            &&& clean_text(lines[i], kind, text).len() > 0
            &&& st.0.len() > 0 ==> {
                let prev = st.0.last().0;
                &&& !(prev == BlockKind::Paragraph && kind == BlockKind::Paragraph)
                &&& !(prev == BlockKind::Epigraph && kind == BlockKind::Epigraph)
                &&& !((prev == BlockKind::ListItem || prev == BlockKind::SubListItem || prev
                    == BlockKind::OrderedListItem) && kind == BlockKind::Paragraph)
                &&& !(prev == BlockKind::HeadingCandidate && kind == BlockKind::HeadingCandidate)
            }
        }),
    ensures
        ({
            let st = merge_lines(lines, facts, i);
            let line = lines[i];
            let text = line_text(line.fragments@, line.wide_gaps@);
            let kind = classify(line, st.1 || has_infix(text, "Table of Contents"@));
            merge_lines(lines, facts, i + 1).0 == st.0.push(
                (
                    kind,
                    clean_text(line, kind, text),
                    mostly_bold(line.fragments@),
                    mostly_italic(line.fragments@),
                    any_underlined(line.fragments@),
                    i,
                ),
            )
        }),
{
    assert(merge_lines(lines, facts, i + 1) == merge_step(
        merge_lines(lines, facts, i),
        lines[i],
        facts,
        i,
    ));
}

/// A heading candidate joins the heading candidate before it exactly when
/// no paragraph break separates it from the last line taken, its size
/// matches the block's first line, its bold and italic match the block's,
/// the last line taken filled the width, and the block's text does not end
/// a sentence.
pub proof fn lemma_heading_candidates_join(lines: Seq<TextLine>, facts: LineFacts, i: int)
    requires
        0 <= i < lines.len(),
        line_text(lines[i].fragments@, lines[i].wide_gaps@).len() > 0,
        merge_lines(lines, facts, i).0.len() > 0,
        merge_lines(lines, facts, i).0.last().0 == BlockKind::HeadingCandidate,
        classify(
            lines[i],
            merge_lines(lines, facts, i).1 || has_infix(
                line_text(lines[i].fragments@, lines[i].wide_gaps@),
                "Table of Contents"@,
            ),
        ) == BlockKind::HeadingCandidate,
    ensures
        ({
            let st = merge_lines(lines, facts, i);
            let last = st.0.last();
            let line = lines[i];
            let brk = match st.2 {
                Some(p) => fact(facts.paragraph_break@, i, p),
                None => false,
            };
            let filled = match st.2 {
                Some(p) => fact(facts.fills_width@, i, p),
                None => false,
            };
            let joins = !brk && fact(facts.same_size@, i, last.5) && last.2 == mostly_bold(
                line.fragments@,
            ) && last.3 == mostly_italic(line.fragments@) && filled && !ends_sentence(last.1);
            &&& joins ==> merge_lines(lines, facts, i + 1).0 == st.0.update(
                st.0.len() - 1,
                (
                    last.0,
                    last.1 + seq![' '] + line_text(line.fragments@, line.wide_gaps@),
                    last.2,
                    last.3,
                    last.4,
                    last.5,
                ),
            )
            &&& !joins ==> merge_lines(lines, facts, i + 1).0.len() == st.0.len() + 1
        }),
{
    assert(merge_lines(lines, facts, i + 1) == merge_step(
        merge_lines(lines, facts, i),
        lines[i],
        facts,
        i,
    ));
}

/// What each kind says of its line: a line not centred is never a page
/// number, epigraph or attribution; an epigraph is centred and mostly
/// italic; an ordered item is left-aligned with a marker; and a
/// left-aligned line with no bullet, no marker, no bold and no underline is
/// a paragraph.
pub proof fn lemma_classify_kinds(line: TextLine, in_toc: bool)
    ensures
        ({
            let text = line_text(line.fragments@, line.wide_gaps@);
            let f = line.fragments@;
            let k = classify(line, in_toc);
            let center = line.alignment == TextAlign::Center;
            let left = line.alignment == TextAlign::Left;
            &&& k == BlockKind::Epigraph ==> center && mostly_italic(f)
            &&& k == BlockKind::PageNumber ==> center && line.small_font && parses_as_u32(
                trim(text),
            )
            &&& k == BlockKind::Attribution ==> center && !mostly_bold(f) && !mostly_italic(f)
            &&& k == BlockKind::OrderedListItem ==> left && marker_len(text) is Some
            &&& k == BlockKind::SubListItem ==> begins_with_sub_bullet(f)
            &&& k == BlockKind::ListItem ==> begins_with_bullet(f) || (in_toc && mostly_bold(f))
            &&& k == BlockKind::TableOfContentsHeading ==> mostly_bold(f) && any_underlined(f)
                && has_infix(text, "Table of Contents"@)
            &&& k == BlockKind::HeadingCandidate ==> center || (left && mostly_bold(f))
            &&& (left && !mostly_bold(f) && !any_underlined(f) && !begins_with_bullet(f)
                && !begins_with_sub_bullet(f) && marker_len(text) is None) ==> k
                == BlockKind::Paragraph
        }),
{
}

/// Position of the first bullet fragment, `0` when there is none.
fn bullet_position(frags: &Vec<TextFragment>) -> (i: usize)
    ensures
        i == bullet_index(frags@),
        i < frags.len() || frags.len() == 0,
{
    let mut k: usize = 0;
    while k < frags.len()
        invariant
            k <= frags.len(),
            forall|j: int| 0 <= j < k ==> !is_bullet_fragment(#[trigger] frags@[j]),
        decreases frags.len() - k,
    {
        if fragment_is_bullet(&frags[k]) {
            assert(first_bullet(frags@, k as int));
            proof {
                let c = choose|i: int| first_bullet(frags@, i);
                assert(c == k) by {
                    if c < k {
                        assert(!is_bullet_fragment(frags@[c]));
                    }
                    if k < c {
                        assert(!is_bullet_fragment(frags@[k as int]));
                    }
                }
            }
            return k;
        }
        k = k + 1;
    }
    assert(!exists|i: int| first_bullet(frags@, i));
    0
}

/// Position of the first sub-bullet fragment, `0` when there is none.
fn sub_bullet_position(frags: &Vec<TextFragment>) -> (i: usize)
    ensures
        i == sub_bullet_index(frags@),
        i < frags.len() || frags.len() == 0,
{
    let mut k: usize = 0;
    while k < frags.len()
        invariant
            k <= frags.len(),
            forall|j: int| 0 <= j < k ==> !is_sub_bullet_fragment(#[trigger] frags@[j]),
        decreases frags.len() - k,
    {
        if fragment_is_sub_bullet(&frags[k]) {
            assert(first_sub_bullet(frags@, k as int));
            proof {
                let c = choose|i: int| first_sub_bullet(frags@, i);
                assert(c == k) by {
                    if c < k {
                        assert(!is_sub_bullet_fragment(frags@[c]));
                    }
                    if k < c {
                        assert(!is_sub_bullet_fragment(frags@[k as int]));
                    }
                }
            }
            return k;
        }
        k = k + 1;
    }
    assert(!exists|i: int| first_sub_bullet(frags@, i));
    0
}

/// Appends the characters of `t` to `acc`.
fn append_chars(acc: &mut Vec<char>, t: &[char])
    ensures
        final(acc)@ == old(acc)@ + t@,
{
    let ghost before = acc@;
    let mut m: usize = 0;
    while m < t.len()
        invariant
            m <= t.len(),
            acc@ == before + t@.take(m as int),
        decreases t.len() - m,
    {
        acc.push(t[m]);
        m = m + 1;
        assert(acc@ =~= before + t@.take(m as int));
    }
    assert(t@.take(t.len() as int) =~= t@);
}

/// The texts of the fragments after position `idx`, joined with spaces and
/// trimmed.
fn text_after_marker(frags: &Vec<TextFragment>, idx: usize) -> (out: Vec<char>)
    requires
        idx < frags.len(),
    ensures
        out@ == text_after(frags@, idx as int),
{
    let ghost rest = frags@.skip(idx + 1);
    let mut acc: Vec<char> = Vec::new();
    let mut k: usize = idx + 1;
    while k < frags.len()
        invariant
            idx + 1 <= k <= frags.len(),
            rest == frags@.skip(idx + 1),
            acc@ == joined_with_spaces(rest.take(k - idx - 1)),
        decreases frags.len() - k,
    {
        let t = chars_of(frags[k].text.as_str());
        let ghost pre = rest.take(k - idx - 1);
        let ghost next = rest.take(k - idx);
        assert(next.drop_last() =~= pre);
        assert(next.last() == frags@[k as int]);
        if k > idx + 1 {
            acc.push(' ');
        } else {
            assert(pre.len() == 0);
        }
        append_chars(&mut acc, t.as_slice());
        k = k + 1;
    }
    assert(rest.take(frags.len() - idx - 1) =~= rest);
    trim_chars(acc.as_slice())
}

/// The text after the first bullet fragment (after the first fragment when
/// there is no bullet).
pub fn text_after_bullet(frags: &Vec<TextFragment>) -> (out: Vec<char>)
    requires
        frags.len() > 0,
    ensures
        out@ == text_after(frags@, bullet_index(frags@)),
{
    let idx = bullet_position(frags);
    text_after_marker(frags, idx)
}

/// The text after the first sub-bullet fragment (after the first fragment
/// when there is no sub-bullet).
pub fn text_after_sub_bullet(frags: &Vec<TextFragment>) -> (out: Vec<char>)
    requires
        frags.len() > 0,
    ensures
        out@ == text_after(frags@, sub_bullet_index(frags@)),
{
    let idx = sub_bullet_position(frags);
    text_after_marker(frags, idx)
}

/// The text a block takes from `line` given its kind and merged text.
fn block_text(line: &TextLine, kind: BlockKind, text: &Vec<char>) -> (out: Vec<char>)
    ensures
        out@ == clean_text(*line, kind, text@),
{
    if kind == BlockKind::ListItem && line.starts_with_bullet() {
        text_after_bullet(&line.fragments)
    } else if kind == BlockKind::SubListItem && line.starts_with_sub_bullet() {
        text_after_sub_bullet(&line.fragments)
    } else if kind == BlockKind::OrderedListItem {
        let s = string_of(text.as_slice());
        let n = normalize_ordered_marker(s.as_str());
        chars_of(n.as_str())
    } else {
        text.clone()
    }
}

/// Merges classified lines into text blocks.
///
/// Lines are taken in order; a line with no text, or whose block text is
/// empty, is skipped. A paragraph line continues a preceding paragraph or
/// list item, and an epigraph line a preceding epigraph, unless a paragraph
/// break separates them from the last line taken. A heading candidate
/// continues a preceding heading candidate when no break separates them,
/// their size and style agree, the last line filled the width, and the
/// block's text does not end a sentence. Continuing text is joined with a
/// space.
pub fn merge_into_blocks(lines: &Vec<TextLine>, facts: &LineFacts) -> (blocks: Vec<Text>)
    requires
        forall|i: int| 0 <= i < lines.len() ==> within_limits(#[trigger] lines@[i].fragments@),
    ensures
        text_views(blocks@) == merge_lines(lines@, *facts, lines.len() as int).0,
{
    let mut blocks: Vec<Text> = Vec::new();
    let mut in_toc = false;
    let mut prev: Option<usize> = None;
    let toc_pattern = chars_of("Table of Contents");
    let mut i: usize = 0;
    while i < lines.len()
        invariant
            i <= lines.len(),
            forall|k: int| 0 <= k < lines.len() ==> within_limits(#[trigger] lines@[k].fragments@),
            toc_pattern@ == "Table of Contents"@,
            ({
                let st = merge_lines(lines@, *facts, i as int);
                &&& text_views(blocks@) == st.0
                &&& in_toc == st.1
                &&& match prev {
                    Some(p) => st.2 == Some(p as int),
                    None => st.2 is None,
                }
            }),
            forall|k: int| 0 <= k < blocks.len() ==> (#[trigger] blocks@[k]).line < i,
            prev matches Some(p) ==> p < i,
        decreases lines.len() - i,
    {
        let line = &lines[i];
        let ghost st = merge_lines(lines@, *facts, i as int);
        let merged = line.merged_text();
        let text = chars_of(merged.as_str());
        if text.len() > 0 {
            if contains_chars(text.as_slice(), toc_pattern.as_slice()) {
                in_toc = true;
            }
            let kind = classify_line(line, in_toc);
            let clean = block_text(line, kind, &text);
            if clean.len() > 0 {
                let brk = match prev {
                    Some(p) => fact_at(&facts.paragraph_break, i, p),
                    None => false,
                };
                let filled = match prev {
                    Some(p) => fact_at(&facts.fills_width, i, p),
                    None => false,
                };
                let bold = line.is_bold();
                let italic = line.is_italic();
                let joins = if blocks.len() > 0 {
                    let last = &blocks[blocks.len() - 1];
                    proof {
                        assert(text_views(blocks@).last() == text_view(*last));
                    }
                    match (last.kind, kind) {
                        (BlockKind::Paragraph, BlockKind::Paragraph)
                        | (BlockKind::Epigraph, BlockKind::Epigraph)
                        | (BlockKind::OrderedListItem, BlockKind::Paragraph)
                        | (BlockKind::ListItem, BlockKind::Paragraph)
                        | (BlockKind::SubListItem, BlockKind::Paragraph) => !brk,
                        (BlockKind::HeadingCandidate, BlockKind::HeadingCandidate) => {
                            let last_text = string_of(chars_of(last.text.as_str()).as_slice());
                            !brk && fact_at(&facts.same_size, i, last.line) && last.is_bold == bold
                                && last.is_italic == italic && filled && !looks_complete(
                                last_text.as_str(),
                            )
                        },
                        _ => false,
                    }
                } else {
                    false
                };
                if joins {
                    let ghost old_views = text_views(blocks@);
                    let ghost old_blocks = blocks@;
                    let last = blocks.pop().unwrap();
                    assert(last == old_blocks.last());
                    assert(blocks@ =~= old_blocks.drop_last());
                    assert(old_views.last() == text_view(last));
                    let mut joined = chars_of(last.text.as_str());
                    joined.push(' ');
                    append_chars(&mut joined, clean.as_slice());
                    let updated = Text {
                        kind: last.kind,
                        text: string_of(joined.as_slice()),
                        is_bold: last.is_bold,
                        is_italic: last.is_italic,
                        is_underlined: last.is_underlined,
                        line: last.line,
                    };
                    assert(joined@ =~= last.text@ + seq![' '] + clean@);
                    blocks.push(updated);
                    assert forall|k: int| 0 <= k < old_views.len() - 1 implies #[trigger] text_views(
                        blocks@,
                    )[k] == old_views[k] by {
                        assert(blocks@[k] == old_blocks[k]);
                    }
                    assert(text_views(blocks@)[old_views.len() - 1] == text_view(updated));
                    assert(text_views(blocks@) =~= old_views.update(
                        old_views.len() - 1,
                        (
                            old_views.last().0,
                            old_views.last().1 + seq![' '] + clean@,
                            old_views.last().2,
                            old_views.last().3,
                            old_views.last().4,
                            old_views.last().5,
                        ),
                    ));
                } else {
                    let ghost old_views = text_views(blocks@);
                    let underlined = line.is_underlined();
                    blocks.push(
                        Text {
                            kind,
                            text: string_of(clean.as_slice()),
                            is_bold: bold,
                            is_italic: italic,
                            is_underlined: underlined,
                            line: i,
                        },
                    );
                    assert(text_views(blocks@) =~= old_views.push(
                        (kind, clean@, bold, italic, underlined, i as int),
                    ));
                }
                prev = Some(i);
            }
        }
        i = i + 1;
    }
    blocks
}


/// The heading kind for a heading whose size ranks `level` among the
/// distinct heading sizes of a document (0 for the largest), shifted by
/// `offset`: `Heading1` for 0, down to `Heading6` for 5 and beyond.
pub open spec fn heading_for_depth(depth: int) -> BlockKind {
    if depth <= 0 {
        BlockKind::Heading1
    } else if depth == 1 {
        BlockKind::Heading2
    } else if depth == 2 {
        BlockKind::Heading3
    } else if depth == 3 {
        BlockKind::Heading4
    } else if depth == 4 {
        BlockKind::Heading5
    } else {
        BlockKind::Heading6
    }
}

pub fn heading_kind(level: usize, offset: usize) -> (k: BlockKind)
    ensures
        k == heading_for_depth(level + offset),
{
    let depth = level.saturating_add(offset);
    let depth = if depth < 5 {
        depth
    } else {
        5
    };
    match depth {
        0 => BlockKind::Heading1,
        1 => BlockKind::Heading2,
        2 => BlockKind::Heading3,
        3 => BlockKind::Heading4,
        4 => BlockKind::Heading5,
        _ => BlockKind::Heading6,
    }
}

/// The heading sizes kept as distinct levels, by their positions in the
/// list of heading-candidate sizes sorted largest first: a size is kept
/// unless it is close (within 0.5 pt) to a size kept before it.
/// `close[i][k]` tells whether sizes `i` and `k` are close.
pub open spec fn kept_levels(close: Seq<Vec<bool>>, n: int) -> Seq<int>
    decreases n,
{
    if n <= 0 {
        Seq::empty()
    } else {
        let acc = kept_levels(close, n - 1);
        if forall|k: int| 0 <= k < acc.len() ==> !fact(close, n - 1, #[trigger] acc[k]) {
            acc.push(n - 1)
        } else {
            acc
        }
    }
}

/// Positions, among `n` heading sizes sorted largest first, of the sizes
/// that make distinct heading levels.
pub fn distinct_heading_sizes(close: &Vec<Vec<bool>>, n: usize) -> (out: Vec<usize>)
    ensures
        out@.map_values(|i: usize| i as int) == kept_levels(close@, n as int),
{
    let mut out: Vec<usize> = Vec::new();
    let mut i: usize = 0;
    while i < n
        invariant
            i <= n,
            out@.map_values(|x: usize| x as int) == kept_levels(close@, i as int),
        decreases n - i,
    {
        let ghost acc = kept_levels(close@, i as int);
        let mut distinct = true;
        let mut k: usize = 0;
        while k < out.len()
            invariant
                k <= out.len(),
                out@.map_values(|x: usize| x as int) == acc,
                distinct == (forall|m: int| 0 <= m < k ==> !fact(close@, i as int, #[trigger] acc[m])),
            decreases out.len() - k,
        {
            assert(acc[k as int] == out@[k as int] as int);
            if fact_at(close, i, out[k]) {
                distinct = false;
            }
            k = k + 1;
        }
        if distinct {
            out.push(i);
            assert(out@.map_values(|x: usize| x as int) =~= acc.push(i as int));
        }
        i = i + 1;
    }
    out
}

/// The kept levels are the largest size and then, in order, every size not
/// close to one kept before it: positions increase, no kept size is close
/// to an earlier kept one, and every size left out is close to an earlier
/// kept one.
pub proof fn lemma_kept_levels_distinct(close: Seq<Vec<bool>>, n: int)
    requires
        n >= 0,
    ensures
        n > 0 ==> kept_levels(close, n).len() > 0 && kept_levels(close, n)[0] == 0,
        forall|a: int, b: int|
            0 <= a < b < kept_levels(close, n).len() ==> #[trigger] kept_levels(close, n)[a]
                < #[trigger] kept_levels(close, n)[b] && !fact(
                close,
                kept_levels(close, n)[b],
                kept_levels(close, n)[a],
            ),
        forall|a: int|
            0 <= a < kept_levels(close, n).len() ==> 0 <= #[trigger] kept_levels(close, n)[a] < n,
        forall|i: int|
            0 <= i < n && !kept_levels(close, n).contains(i) ==> exists|a: int|
                0 <= a < kept_levels(close, n).len() && kept_levels(close, n)[a] < i && fact(
                    close,
                    i,
                    #[trigger] kept_levels(close, n)[a],
                ),
    decreases n,
{
    if n > 0 {
        lemma_kept_levels_distinct(close, n - 1);
        let acc = kept_levels(close, n - 1);
        let ks = kept_levels(close, n);
        if forall|k: int| 0 <= k < acc.len() ==> !fact(close, n - 1, #[trigger] acc[k]) {
            assert(ks == acc.push(n - 1));
            assert forall|i: int| 0 <= i < n && !ks.contains(i) implies exists|a: int|
                0 <= a < ks.len() && ks[a] < i && fact(close, i, #[trigger] ks[a]) by {
                assert(i != n - 1) by {
                    if i == n - 1 {
                        assert(ks[ks.len() - 1] == i);
                    }
                }
                if acc.contains(i) {
                    let k = choose|k: int| 0 <= k < acc.len() && acc[k] == i;
                    assert(ks[k] == i);
                }
                let a = choose|a: int| 0 <= a < acc.len() && acc[a] < i && fact(close, i, #[trigger] acc[a]);
                assert(ks[a] == acc[a]);
            }
        } else {
            assert(ks == acc);
            assert forall|i: int| 0 <= i < n && !ks.contains(i) implies exists|a: int|
                0 <= a < ks.len() && ks[a] < i && fact(close, i, #[trigger] ks[a]) by {
                if i < n - 1 {
                } else {
                    let k = choose|k: int| 0 <= k < acc.len() && fact(close, n - 1, #[trigger] acc[k]);
                    assert(acc[k] < n - 1);
                }
            }
        }
    }
}

/// The first level (0 for the largest) whose size is close to a heading's,
/// or the last level when none is.
pub open spec fn level_for(near: Seq<bool>, count: int) -> int {
    if exists|p: int| 0 <= p < count && p < near.len() && near[p] {
        choose|p: int|
            0 <= p < count && p < near.len() && near[p] && forall|q: int|
                0 <= q < p ==> !(q < near.len() && #[trigger] near[q])
    } else if count > 0 {
        count - 1
    } else {
        0
    }
}

/// The level of a heading among `count` distinct levels; `near[p]` tells
/// whether the heading's size is close to level `p`'s.
pub fn heading_level(near: &Vec<bool>, count: usize) -> (level: usize)
    ensures
        level == level_for(near@, count as int),
{
    let mut p: usize = 0;
    while p < count && p < near.len()
        invariant
            forall|q: int| 0 <= q < p ==> !(q < near@.len() && #[trigger] near@[q]),
        decreases count - p,
    {
        if near[p] {
            proof {
                let c = choose|c: int|
                    0 <= c < count && c < near@.len() && near@[c] && forall|q: int|
                        0 <= q < c ==> !(q < near@.len() && #[trigger] near@[q]);
                assert(near@[p as int]);
                assert(c == p) by {
                    if c < p {
                        assert(!(c < near@.len() && near@[c]));
                    }
                    if p < c {
                        assert(!(p < near@.len() && near@[p as int]));
                    }
                }
            }
            return p;
        }
        p = p + 1;
    }
    assert(!exists|q: int| 0 <= q < count && q < near@.len() && near@[q]) by {
        if exists|q: int| 0 <= q < count && q < near@.len() && near@[q] {
            let q = choose|q: int| 0 <= q < count && q < near@.len() && near@[q];
            assert(!(q < near@.len() && near@[q]));
        }
    }
    if count > 0 {
        count - 1
    } else {
        0
    }
}

/// The kind of a block once headings take their levels: a heading
/// candidate becomes the heading for its level plus `offset`; other kinds
/// stay as they are.
pub open spec fn leveled_kind(kind: BlockKind, near: Seq<bool>, count: int, offset: int) -> BlockKind {
    if kind == BlockKind::HeadingCandidate {
        heading_for_depth(level_for(near, count) + offset)
    } else {
        kind
    }
}

/// The closeness list of block `b` of page `p`, empty when absent.
pub open spec fn near_for(near: Seq<Vec<Vec<bool>>>, p: int, b: int) -> Seq<bool> {
    if 0 <= p < near.len() && 0 <= b < near[p]@.len() {
        near[p]@[b]@
    } else {
        Seq::empty()
    }
}

/// Gives every heading candidate of a document its heading kind. `kinds`
/// holds, page by page, the kind of each text block (`None` for other
/// blocks); `near[p][b]` tells, for each of the `count` distinct heading
/// levels, whether block `b` of page `p` has that level's size. The shape
/// stays; only heading candidates change.
pub fn assign_heading_kinds(
    kinds: &mut Vec<Vec<Option<BlockKind>>>,
    near: &Vec<Vec<Vec<bool>>>,
    count: usize,
    offset: usize,
)
    ensures
        final(kinds)@.len() == old(kinds)@.len(),
        forall|p: int|
            0 <= p < old(kinds)@.len() ==> (#[trigger] final(kinds)@[p])@.len() == old(kinds)@[p]@.len(),
        forall|p: int, b: int|
            0 <= p < old(kinds)@.len() && 0 <= b < old(kinds)@[p]@.len()
                ==> #[trigger] final(kinds)@[p]@[b] == match old(kinds)@[p]@[b] {
                Some(k) => Some(leveled_kind(k, near_for(near@, p, b), count as int, offset as int)),
                None => None,
            },
{
    let ghost before = kinds@;
    let mut out: Vec<Vec<Option<BlockKind>>> = Vec::new();
    let mut p: usize = 0;
    while p < kinds.len()
        invariant
            kinds@ == before,
            p <= kinds.len(),
            out.len() == p,
            forall|q: int| 0 <= q < p ==> (#[trigger] out@[q])@.len() == before[q]@.len(),
            forall|q: int, b: int|
                0 <= q < p && 0 <= b < before[q]@.len() ==> #[trigger] out@[q]@[b] == match before[q]@[b] {
                    Some(k) => Some(leveled_kind(k, near_for(near@, q, b), count as int, offset as int)),
                    None => None,
                },
        decreases kinds.len() - p,
    {
        let mut row: Vec<Option<BlockKind>> = Vec::new();
        let mut b: usize = 0;
        while b < kinds[p].len()
            invariant
                kinds@ == before,
                p < kinds.len(),
                b <= kinds[p as int]@.len(),
                row.len() == b,
                forall|c: int|
                    0 <= c < b ==> #[trigger] row@[c] == match before[p as int]@[c] {
                        Some(k) => Some(
                            leveled_kind(k, near_for(near@, p as int, c), count as int, offset as int),
                        ),
                        None => None,
                    },
            decreases kinds[p as int]@.len() - b,
        {
            let kind = match kinds[p][b] {
                Some(k) => {
                    if k == BlockKind::HeadingCandidate {
                        let level = if p < near.len() && b < near[p].len() {
                            heading_level(&near[p][b], count)
                        } else {
                            let none: Vec<bool> = Vec::new();
                            assert(none@ =~= Seq::<bool>::empty());
                            heading_level(&none, count)
                        };
                        Some(heading_kind(level, offset))
                    } else {
                        Some(k)
                    }
                },
                None => None,
            };
            row.push(kind);
            b = b + 1;
        }
        out.push(row);
        p = p + 1;
    }
    *kinds = out;
}

/// `x` and `y` differ by less than `h`.
pub open spec fn within(x: int, y: int, h: int) -> bool {
    x - y < h && y - x < h
}

/// Some level has its flag set, so the first such level is the level.
proof fn lemma_first_near(near: Seq<bool>, count: int, p: int)
    requires
        0 <= p < count,
        p < near.len(),
        near[p],
    ensures
        exists|m: int|
            0 <= m < count && m < near.len() && near[m] && forall|q: int|
                0 <= q < m ==> !(q < near.len() && #[trigger] near[q]),
    decreases p,
{
    if exists|q: int| 0 <= q < p && q < near.len() && near[q] {
        let q = choose|q: int| 0 <= q < p && q < near.len() && near[q];
        lemma_first_near(near, count, q);
    } else {
        assert(forall|q: int| 0 <= q < p ==> !(q < near.len() && #[trigger] near[q]));
    }
}

/// Every candidate size is close to the size of some level.
proof fn lemma_size_has_level(sizes: Seq<int>, h: int, close: Seq<Vec<bool>>, i: int)
    requires
        h > 0,
        forall|i: int, k: int|
            0 <= i < sizes.len() && 0 <= k < sizes.len() ==> #[trigger] fact(close, i, k) == within(
                sizes[i],
                sizes[k],
                h,
            ),
        0 <= i < sizes.len(),
    ensures
        exists|p: int|
            0 <= p < kept_levels(close, sizes.len() as int).len() && within(
                sizes[#[trigger] kept_levels(close, sizes.len() as int)[p]],
                sizes[i],
                h,
            ),
{
    let ks = kept_levels(close, sizes.len() as int);
    lemma_kept_levels_distinct(close, sizes.len() as int);
    if ks.contains(i) {
        let p = choose|p: int| 0 <= p < ks.len() && ks[p] == i;
        assert(within(sizes[ks[p]], sizes[i], h));
    } else {
        let p = choose|p: int| 0 <= p < ks.len() && ks[p] < i && fact(close, i, #[trigger] ks[p]);
        assert(fact(close, i, ks[p]));
        assert(within(sizes[ks[p]], sizes[i], h));
    }
}

/// A larger font never gets a deeper heading level. Heading sizes are
/// measured as integers (in any fixed unit), `h` is the closeness
/// tolerance in that unit, and `sizes` lists the heading candidates' sizes
/// largest first. With `close` and the flags `near_a`, `near_b` measured
/// from those sizes, a size `a` larger than `b` gets a level no deeper
/// than `b`'s, and so a heading number no larger, whatever the offset.
pub proof fn lemma_larger_font_not_deeper(
    sizes: Seq<int>,
    h: int,
    close: Seq<Vec<bool>>,
    near_a: Seq<bool>,
    near_b: Seq<bool>,
    ia: int,
    ib: int,
    offset: int,
)
    requires
        h > 0,
        offset >= 0,
        forall|i: int, j: int| 0 <= i < j < sizes.len() ==> #[trigger] sizes[i] >= #[trigger] sizes[j],
        forall|i: int, k: int|
            0 <= i < sizes.len() && 0 <= k < sizes.len() ==> #[trigger] fact(close, i, k) == within(
                sizes[i],
                sizes[k],
                h,
            ),
        0 <= ia < sizes.len(),
        0 <= ib < sizes.len(),
        sizes[ia] > sizes[ib],
        near_a.len() == kept_levels(close, sizes.len() as int).len(),
        near_b.len() == kept_levels(close, sizes.len() as int).len(),
        forall|p: int|
            0 <= p < near_a.len() ==> #[trigger] near_a[p] == within(
                sizes[kept_levels(close, sizes.len() as int)[p]],
                sizes[ia],
                h,
            ),
        forall|p: int|
            0 <= p < near_b.len() ==> #[trigger] near_b[p] == within(
                sizes[kept_levels(close, sizes.len() as int)[p]],
                sizes[ib],
                h,
            ),
    ensures
        level_for(near_a, near_a.len() as int) <= level_for(near_b, near_b.len() as int),
        heading_number(heading_for_depth(level_for(near_a, near_a.len() as int) + offset))
            <= heading_number(heading_for_depth(level_for(near_b, near_b.len() as int) + offset)),
{
    let n = sizes.len() as int;
    let ks = kept_levels(close, n);
    let count = ks.len() as int;
    lemma_size_has_level(sizes, h, close, ia);
    lemma_size_has_level(sizes, h, close, ib);
    let pa0 = choose|p: int| 0 <= p < count && within(sizes[#[trigger] ks[p]], sizes[ia], h);
    assert(near_a[pa0]);
    lemma_level_is_first(near_a, count, pa0);
    let pb0 = choose|p: int| 0 <= p < count && within(sizes[#[trigger] ks[p]], sizes[ib], h);
    assert(near_b[pb0]);
    lemma_level_is_first(near_b, count, pb0);
    let la = level_for(near_a, count);
    let lb = level_for(near_b, count);
    if lb < la {
        assert(!near_a[lb]);
        assert(near_a[la]);
        assert(near_b[lb]);
        lemma_levels_apart(sizes, h, close, lb, la);
        assert(false);
    }
    lemma_heading_depth_monotone(la + offset, lb + offset);
}

/// The level of a list of flags with one set is the first set flag.
proof fn lemma_level_is_first(near: Seq<bool>, count: int, p: int)
    requires
        0 <= p < count,
        p < near.len(),
        near[p],
    ensures
        0 <= level_for(near, count) < count,
        level_for(near, count) < near.len(),
        near[level_for(near, count)],
        forall|q: int| 0 <= q < level_for(near, count) ==> !(q < near.len() && #[trigger] near[q]),
{
    lemma_first_near(near, count, p);
}

/// Sizes of kept levels, largest first, are at least `h` apart.
proof fn lemma_levels_apart(sizes: Seq<int>, h: int, close: Seq<Vec<bool>>, a: int, b: int)
    requires
        forall|i: int, j: int| 0 <= i < j < sizes.len() ==> #[trigger] sizes[i] >= #[trigger] sizes[j],
        forall|i: int, k: int|
            0 <= i < sizes.len() && 0 <= k < sizes.len() ==> #[trigger] fact(close, i, k) == within(
                sizes[i],
                sizes[k],
                h,
            ),
        0 <= a < b < kept_levels(close, sizes.len() as int).len(),
    ensures
        sizes[kept_levels(close, sizes.len() as int)[a]] >= sizes[kept_levels(
            close,
            sizes.len() as int,
        )[b]] + h,
{
    let ks = kept_levels(close, sizes.len() as int);
    lemma_kept_levels_distinct(close, sizes.len() as int);
    assert(ks[a] < ks[b]);
    assert(0 <= ks[a] && ks[b] < sizes.len());
    assert(!fact(close, ks[b], ks[a]));
    assert(sizes[ks[a]] >= sizes[ks[b]]);
}

/// Deeper levels never give larger headings: the heading number grows with
/// `level + offset` until it stays at six.
pub proof fn lemma_heading_depth_monotone(d1: int, d2: int)
    requires
        d1 <= d2,
    ensures
        heading_number(heading_for_depth(d1)) <= heading_number(heading_for_depth(d2)),
        1 <= heading_number(heading_for_depth(d1)) <= 6,
{
}

/// The number of a heading kind (1 to 6), 0 for other kinds.
pub open spec fn heading_number(k: BlockKind) -> int {
    match k {
        BlockKind::Heading1 => 1,
        BlockKind::Heading2 => 2,
        BlockKind::Heading3 => 3,
        BlockKind::Heading4 => 4,
        BlockKind::Heading5 => 5,
        BlockKind::Heading6 => 6,
        _ => 0,
    }
}

} // verus!
