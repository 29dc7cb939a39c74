//! The first-generation page reconstruction: alignment judged per fragment,
//! fragments always separated by a space, and a smaller set of block kinds
//! (titles, subtitles and plain headings instead of heading levels).
use vstd::prelude::*;
use crate::lines::{
    any_underlined, begins_with_bullet, begins_with_sub_bullet, is_blank, mostly_bold,
    mostly_italic, within_limits, TextAlign, TextFragment, TextLine as StyledLine,
};
use crate::text::{byte_len, byte_len_of, chars_of, contains_chars, has_infix, parses_as_u32, parses_as_u32_chars, string_of, trim, trim_chars};
use crate::blocks::{bullet_index, sub_bullet_index, text_after};

verus! {

broadcast use vstd::string::group_string_axioms;

#[derive(Debug, Clone, Copy, PartialEq, Eq, Structural)]
pub enum BlockKind {
    PageNumber,
    Title,
    Subtitle,
    Epigraph,
    Attribution,
    Paragraph,
    Heading,
    ListItem,
    SubListItem,
    TableOfContentsHeading,
}

pub open spec fn kind_label(k: BlockKind) -> Seq<char> {
    match k {
        BlockKind::PageNumber => "PageNumber"@,
        BlockKind::Title => "Title"@,
        BlockKind::Subtitle => "Subtitle"@,
        BlockKind::Epigraph => "Epigraph"@,
        BlockKind::Attribution => "Attribution"@,
        BlockKind::Paragraph => "Paragraph"@,
        BlockKind::Heading => "Heading"@,
        BlockKind::ListItem => "ListItem"@,
        BlockKind::SubListItem => "SubListItem"@,
        BlockKind::TableOfContentsHeading => "TOCHeading"@,
    }
}

impl BlockKind {
    pub fn label(&self) -> (s: &'static str)
        ensures
            s@ == kind_label(*self),
    {
        match self {
            BlockKind::PageNumber => "PageNumber",
            BlockKind::Title => "Title",
            BlockKind::Subtitle => "Subtitle",
            BlockKind::Epigraph => "Epigraph",
            BlockKind::Attribution => "Attribution",
            BlockKind::Paragraph => "Paragraph",
            BlockKind::Heading => "Heading",
            BlockKind::ListItem => "ListItem",
            BlockKind::SubListItem => "SubListItem",
            BlockKind::TableOfContentsHeading => "TOCHeading",
        }
    }
}

/// A fragment of this generation, with its own alignment (judged against
/// the page centre fragment by fragment).
#[derive(Debug, Clone)]
pub struct AlignedFragment {
    pub fragment: TextFragment,
    pub alignment: TextAlign,
}

/// A line of this generation: its fragments, and whether the line's font
/// size is at most 9 pt or at least 12 pt.
#[derive(Debug, Clone)]
pub struct TextLine {
    pub fragments: Vec<AlignedFragment>,
    pub at_most_9pt: bool,
    pub at_least_12pt: bool,
}

/// The fragments of a line without their alignments.
pub open spec fn plain(frags: Seq<AlignedFragment>) -> Seq<TextFragment> {
    frags.map_values(|f: AlignedFragment| f.fragment)
}

/// The fragment texts of the first `n` fragments, a space between two
/// texts unless the text so far ends with one or the next starts with one.
pub open spec fn spaced_prefix(frags: Seq<TextFragment>, n: int) -> Seq<char>
    decreases n,
{
    if n <= 0 {
        Seq::empty()
    } else {
        let acc = spaced_prefix(frags, n - 1);
        let t = frags[n - 1].text@;
        if n - 1 > 0 && !(acc.len() > 0 && acc.last() == ' ') && !(t.len() > 0 && t[0] == ' ') {
            acc + seq![' '] + t
        } else {
            acc + t
        }
    }
}

pub open spec fn legacy_line_text(frags: Seq<TextFragment>) -> Seq<char> {
    trim(spaced_prefix(frags, frags.len() as int))
}

/// The alignment of the first fragment with non-blank text, `Left` when
/// there is none.
pub open spec fn line_alignment(line: TextLine) -> TextAlign {
    let f = plain(line.fragments@);
    if exists|i: int| crate::lines::first_nonblank(f, i) {
        line.fragments@[choose|i: int| crate::lines::first_nonblank(f, i)].alignment
    } else {
        TextAlign::Left
    }
}

impl TextLine {
    pub fn merged_text(&self) -> (out: String)
        ensures
            out@ == legacy_line_text(plain(self.fragments@)),
    {
        let frags = &self.fragments;
        let mut acc: Vec<char> = Vec::new();
        let mut i: usize = 0;
        while i < frags.len()
            invariant
                i <= frags.len(),
                frags@ == self.fragments@,
                acc@ == spaced_prefix(plain(frags@), i as int),
            decreases frags.len() - i,
        {
            let t = chars_of(frags[i].fragment.text.as_str());
            if i > 0 {
                let ends_space = acc.len() > 0 && acc[acc.len() - 1] == ' ';
                let starts_space = t.len() > 0 && t[0] == ' ';
                if !ends_space && !starts_space {
                    acc.push(' ');
                }
            }
            let ghost before = acc@;
            let mut m: usize = 0;
            while m < t.len()
                invariant
                    m <= t.len(),
                    acc@ == before + t@.take(m as int),
                decreases t.len() - m,
            {
                acc.push(t[m]);
                m = m + 1;
                assert(acc@ =~= before + t@.take(m as int));
            }
            assert(t@.take(t.len() as int) =~= t@);
            i = i + 1;
        }
        let out = trim_chars(acc.as_slice());
        string_of(out.as_slice())
    }

    /// The alignment of the first fragment with non-blank text.
    pub fn alignment(&self) -> (a: TextAlign)
        ensures
            a == line_alignment(*self),
    {
        let frags = &self.fragments;
        let ghost f = plain(frags@);
        let mut k: usize = 0;
        while k < frags.len()
            invariant
                k <= frags.len(),
                frags@ == self.fragments@,
                f == plain(frags@),
                forall|j: int| 0 <= j < k ==> is_blank(#[trigger] f[j]),
            decreases frags.len() - k,
        {
            let t = trim_chars(chars_of(frags[k].fragment.text.as_str()).as_slice());
            assert(f[k as int] == frags@[k as int].fragment);
            if t.len() > 0 {
                proof {
                    assert(crate::lines::first_nonblank(f, k as int));
                    let c = choose|i: int| crate::lines::first_nonblank(f, i);
                    assert(c == k) by {
                        if c < k {
                            assert(is_blank(f[c]));
                        }
                        if k < c {
                            assert(is_blank(f[k as int]));
                        }
                    }
                }
                return frags[k].alignment;
            }
            k = k + 1;
        }
        TextAlign::Left
    }

    /// The line seen as a current-generation line (without gap facts).
    pub fn styled(&self) -> (s: StyledLine)
        ensures
            s.fragments@ == plain(self.fragments@),
    {
        let mut fragments: Vec<TextFragment> = Vec::new();
        let mut k: usize = 0;
        while k < self.fragments.len()
            invariant
                k <= self.fragments.len(),
                fragments@ == plain(self.fragments@).take(k as int),
            decreases self.fragments.len() - k,
        {
            fragments.push(crate::lines::copy_fragment(&self.fragments[k].fragment));
            k = k + 1;
            assert(fragments@ =~= plain(self.fragments@).take(k as int));
        }
        assert(plain(self.fragments@).take(k as int) =~= plain(self.fragments@));
        StyledLine { fragments, wide_gaps: Vec::new(), alignment: TextAlign::Left, small_font: false }
    }
}

/// The kind a line gets in this generation.
pub open spec fn classify(line: TextLine, in_toc: bool) -> BlockKind {
    let f = plain(line.fragments@);
    let text = legacy_line_text(f);
    let len = byte_len(text);
    let center = line_alignment(line) == TextAlign::Center;
    let left = line_alignment(line) == TextAlign::Left;
    let bold = mostly_bold(f);
    let italic = mostly_italic(f);
    let underlined = any_underlined(f);
    if parses_as_u32(trim(text)) && center && line.at_most_9pt {
        BlockKind::PageNumber
    } else if begins_with_bullet(f) {
        BlockKind::ListItem
    } else if begins_with_sub_bullet(f) {
        BlockKind::SubListItem
    } else if center && underlined && line.at_least_12pt {
        BlockKind::Title
    } else if bold && underlined && has_infix(text, "Table of Contents"@) {
        BlockKind::TableOfContentsHeading
    } else if center && !italic && !bold && line.at_most_9pt && len < 60 {
        BlockKind::Subtitle
    } else if center && italic {
        BlockKind::Epigraph
    } else if center && !italic && !bold && len < 40 {
        BlockKind::Attribution
    } else if in_toc && bold {
        BlockKind::ListItem
    } else if bold && left {
        BlockKind::Heading
    } else {
        BlockKind::Paragraph
    }
}

/// What each kind of this generation says of its line: page numbers,
/// titles, subtitles, epigraphs and attributions are centred; an epigraph
/// is mostly italic; a heading is mostly bold; and a left-aligned line with
/// no bullet, no bold and no underline is a paragraph.
pub proof fn lemma_legacy_classify_kinds(line: TextLine, in_toc: bool)
    ensures
        ({
            let f = plain(line.fragments@);
            let k = classify(line, in_toc);
            let center = line_alignment(line) == TextAlign::Center;
            let left = line_alignment(line) == TextAlign::Left;
            &&& k == BlockKind::PageNumber ==> center && line.at_most_9pt
            &&& k == BlockKind::Title ==> center && any_underlined(f) && line.at_least_12pt
            &&& k == BlockKind::Subtitle ==> center && line.at_most_9pt && !mostly_bold(f)
            &&& k == BlockKind::Epigraph ==> center && mostly_italic(f)
            &&& k == BlockKind::Attribution ==> center && !mostly_bold(f) && !mostly_italic(f)
            &&& k == BlockKind::Heading ==> left && mostly_bold(f)
            &&& k == BlockKind::TableOfContentsHeading ==> mostly_bold(f) && any_underlined(f)
            &&& (left && !mostly_bold(f) && !any_underlined(f) && !begins_with_bullet(f)
                && !begins_with_sub_bullet(f)) ==> k == BlockKind::Paragraph
        }),
{
}

pub fn classify_line(line: &TextLine, is_in_toc: bool) -> (k: BlockKind)
    requires
        within_limits(plain(line.fragments@)),
    ensures
        k == classify(*line, is_in_toc),
{
    let text = line.merged_text();
    let chars = chars_of(text.as_str());
    let trimmed = trim_chars(chars.as_slice());
    let len = byte_len_of(chars.as_slice());
    let alignment = line.alignment();
    let center = alignment == TextAlign::Center;
    let left = alignment == TextAlign::Left;
    let s = line.styled();
    let bold = s.is_bold();
    let italic = s.is_italic();
    let underlined = s.is_underlined();
    if parses_as_u32_chars(trimmed.as_slice()) && center && line.at_most_9pt {
        return BlockKind::PageNumber;
    }
    if s.starts_with_bullet() {
        return BlockKind::ListItem;
    }
    if s.starts_with_sub_bullet() {
        return BlockKind::SubListItem;
    }
    if center && underlined && line.at_least_12pt {
        return BlockKind::Title;
    }
    let toc = chars_of("Table of Contents");
    if bold && underlined && contains_chars(chars.as_slice(), toc.as_slice()) {
        return BlockKind::TableOfContentsHeading;
    }
    if center && !italic && !bold && line.at_most_9pt && len < 60 {
        return BlockKind::Subtitle;
    }
    if center && italic {
        return BlockKind::Epigraph;
    }
    if center && !italic && !bold && len < 40 {
        return BlockKind::Attribution;
    }
    if is_in_toc && bold {
        return BlockKind::ListItem;
    }
    if bold && left {
        return BlockKind::Heading;
    }
    BlockKind::Paragraph
}

/// A block of this generation; style flags from its first line, `line`.
#[derive(Debug, Clone)]
pub struct ContentBlock {
    pub kind: BlockKind,
    pub text: String,
    pub is_bold: bool,
    pub is_italic: bool,
    pub is_underlined: bool,
    pub line: usize,
}

pub type BlockView = (BlockKind, Seq<char>, bool, bool, bool, int);

pub open spec fn block_view(b: ContentBlock) -> BlockView {
    (b.kind, b.text@, b.is_bold, b.is_italic, b.is_underlined, b.line as int)
}

pub open spec fn block_views(bs: Seq<ContentBlock>) -> Seq<BlockView> {
    bs.map_values(|b: ContentBlock| block_view(b))
}

pub open spec fn clean_text(line: TextLine, kind: BlockKind, text: Seq<char>) -> Seq<char> {
    let f = plain(line.fragments@);
    if kind == BlockKind::ListItem && begins_with_bullet(f) {
        text_after(f, bullet_index(f))
    } else if kind == BlockKind::SubListItem && begins_with_sub_bullet(f) {
        text_after(f, sub_bullet_index(f))
    } else {
        text
    }
}

/// A line continues the block before it when it has the block's kind and
/// the same style (bold, italic, underlined) as the block's first line.
pub open spec fn continues_block(prev: BlockView, kind: BlockKind, line: TextLine) -> bool {
    &&& prev.0 == kind
    &&& prev.2 == mostly_bold(plain(line.fragments@))
    &&& prev.3 == mostly_italic(plain(line.fragments@))
    &&& prev.4 == any_underlined(plain(line.fragments@))
}

/// Blocks so far and whether a table of contents has begun.
pub open spec fn merge_lines(lines: Seq<TextLine>, n: int) -> (Seq<BlockView>, bool)
    decreases n,
{
    if n <= 0 {
        (Seq::empty(), false)
    } else {
        let st = merge_lines(lines, n - 1);
        let line = lines[n - 1];
        let text = legacy_line_text(plain(line.fragments@));
        if text.len() == 0 {
            st
        } else {
            let toc = st.1 || has_infix(text, "Table of Contents"@);
            let kind = classify(line, toc);
            let clean = clean_text(line, kind, text);
            if clean.len() == 0 {
                (st.0, toc)
            } else if st.0.len() > 0 && continues_block(st.0.last(), kind, line) {
                let p = st.0.last();
                (st.0.update(st.0.len() - 1, (p.0, p.1 + seq![' '] + clean, p.2, p.3, p.4, p.5)), toc)
            } else {
                (
                    st.0.push(
                        (
                            kind,
                            clean,
                            mostly_bold(plain(line.fragments@)),
                            mostly_italic(plain(line.fragments@)),
                            any_underlined(plain(line.fragments@)),
                            n - 1,
                        ),
                    ),
                    toc,
                )
            }
        }
    }
}

/// Blocks come in the order of their first lines, each starting at a line
/// with text and having text of its own.
pub proof fn lemma_legacy_blocks_follow_lines(lines: Seq<TextLine>, n: int)
    requires
        0 <= n <= lines.len(),
    ensures
        forall|j: int|
            0 <= j < merge_lines(lines, n).0.len() ==> {
                let b = #[trigger] merge_lines(lines, n).0[j];
                &&& 0 <= b.5 < n
                &&& b.1.len() > 0
                &&& legacy_line_text(plain(lines[b.5].fragments@)).len() > 0
            },
        forall|j: int, k: int|
            0 <= j < k < merge_lines(lines, n).0.len() ==> (#[trigger] merge_lines(lines, n).0[j]).5
                < (#[trigger] merge_lines(lines, n).0[k]).5,
    decreases n,
{
    if n > 0 {
        lemma_legacy_blocks_follow_lines(lines, n - 1);
        let st = merge_lines(lines, n - 1);
        let bs = merge_lines(lines, n).0;
        if bs.len() == st.0.len() {
            assert forall|j: int| 0 <= j < bs.len() - 1 implies #[trigger] bs[j] == st.0[j] by {
                if bs != st.0 {
                    assert(bs =~= st.0.update(st.0.len() - 1, bs.last()));
                }
            }
            assert forall|j: int|
                0 <= j < bs.len() implies {
                let b = #[trigger] bs[j];
                &&& 0 <= b.5 < n
                &&& b.1.len() > 0
                &&& legacy_line_text(plain(lines[b.5].fragments@)).len() > 0
            } by {
                assert(bs[j].5 == st.0[j].5);
                assert(bs[j].1.len() >= st.0[j].1.len());
            }
            assert forall|j: int, k: int| 0 <= j < k < bs.len() implies (#[trigger] bs[j]).5 < (
            #[trigger] bs[k]).5 by {
                assert(bs[j].5 == st.0[j].5);
                assert(bs[k].5 == st.0[k].5);
            }
        } else {
            assert forall|j: int| 0 <= j < st.0.len() implies #[trigger] bs[j] == st.0[j] by {}
            assert forall|j: int, k: int| 0 <= j < k < bs.len() implies (#[trigger] bs[j]).5 < (
            #[trigger] bs[k]).5 by {
                assert(bs[j] == st.0[j]);
                if k < st.0.len() {
                    assert(bs[k] == st.0[k]);
                }
            }
        }
    }
}

/// Merges classified lines into blocks: a line joins the block before it,
/// after a space, when it has the same kind and the same bold, italic and
/// underline style as the block's first line.
pub fn merge_into_blocks(lines: &Vec<TextLine>) -> (blocks: Vec<ContentBlock>)
    requires
        forall|i: int| 0 <= i < lines.len() ==> within_limits(#[trigger] plain(lines@[i].fragments@)),
    ensures
        block_views(blocks@) == merge_lines(lines@, lines.len() as int).0,
{
    let mut blocks: Vec<ContentBlock> = Vec::new();
    let mut in_toc = false;
    let toc_pattern = chars_of("Table of Contents");
    let mut i: usize = 0;
    while i < lines.len()
        invariant
            i <= lines.len(),
            forall|k: int| 0 <= k < lines.len() ==> within_limits(#[trigger] plain(lines@[k].fragments@)),
            toc_pattern@ == "Table of Contents"@,
            block_views(blocks@) == merge_lines(lines@, i as int).0,
            in_toc == merge_lines(lines@, i as int).1,
        decreases lines.len() - i,
    {
        let line = &lines[i];
        let merged = line.merged_text();
        let text = chars_of(merged.as_str());
        if text.len() > 0 {
            if contains_chars(text.as_slice(), toc_pattern.as_slice()) {
                in_toc = true;
            }
            let kind = classify_line(line, in_toc);
            let s = line.styled();
            let clean = if kind == BlockKind::ListItem && s.starts_with_bullet() {
                crate::blocks::text_after_bullet(&s.fragments)
            } else if kind == BlockKind::SubListItem && s.starts_with_sub_bullet() {
                crate::blocks::text_after_sub_bullet(&s.fragments)
            } else {
                text.clone()
            };
            if clean.len() > 0 {
                let ghost old_views = block_views(blocks@);
                let bold = s.is_bold();
                let italic = s.is_italic();
                let underlined = s.is_underlined();
                let joins = if blocks.len() > 0 {
                    let last = &blocks[blocks.len() - 1];
                    assert(old_views.last() == block_view(*last));
                    last.kind == kind && last.is_bold == bold && last.is_italic == italic
                        && last.is_underlined == underlined
                } else {
                    false
                };
                if joins {
                    let ghost old_blocks = blocks@;
                    let last = blocks.pop().unwrap();
                    assert(last == old_blocks.last());
                    assert(old_views.last() == block_view(last));
                    let mut joined = chars_of(last.text.as_str());
                    joined.push(' ');
                    let ghost before = joined@;
                    let mut m: usize = 0;
                    while m < clean.len()
                        invariant
                            m <= clean.len(),
                            joined@ == before + clean@.take(m as int),
                        decreases clean.len() - m,
                    {
                        joined.push(clean[m]);
                        m = m + 1;
                        assert(joined@ =~= before + clean@.take(m as int));
                    }
                    assert(clean@.take(clean.len() as int) =~= clean@);
                    assert(joined@ =~= last.text@ + seq![' '] + clean@);
                    let updated = ContentBlock {
                        kind: last.kind,
                        text: string_of(joined.as_slice()),
                        is_bold: last.is_bold,
                        is_italic: last.is_italic,
                        is_underlined: last.is_underlined,
                        line: last.line,
                    };
                    blocks.push(updated);
                    proof {
                        assert(block_views(blocks@)[old_views.len() - 1] == block_view(updated));
                        assert forall|k: int| 0 <= k < old_views.len() - 1 implies #[trigger] block_views(
                            blocks@,
                        )[k] == old_views[k] by {
                            assert(blocks@[k] == old_blocks[k]);
                        }
                    }
                    assert(block_views(blocks@) =~= old_views.update(
                        old_views.len() - 1,
                        (
                            old_views.last().0,
                            old_views.last().1 + seq![' '] + clean@,
                            old_views.last().2,
                            old_views.last().3,
                            old_views.last().4,
                            old_views.last().5,
                        ),
                    ));
                } else {
                    blocks.push(
                        ContentBlock {
                            kind,
                            text: string_of(clean.as_slice()),
                            is_bold: bold,
                            is_italic: italic,
                            is_underlined: underlined,
                            line: i,
                        },
                    );
                    assert(block_views(blocks@) =~= old_views.push(
                        (kind, clean@, bold, italic, underlined, i as int),
                    ));
                }
            }
        }
        i = i + 1;
    }
    blocks
}

} // verus!
