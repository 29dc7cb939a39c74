//! Text fragments and the lines they form, with the per-line style and
//! marker queries that classification relies on.
//!
//! Positions on the page are measured by the geometry layer; a line here
//! holds what classification reads of them: whether the horizontal gap
//! before each fragment is wide, its alignment, and whether its font is at
//! most 11 pt.
use vstd::prelude::*;
use crate::text::{byte_len, byte_len_of, chars_of, contains_chars, has_infix, string_of, trim, trim_chars};

verus! {

broadcast use vstd::string::group_string_axioms;

#[derive(Debug, Clone, Copy, PartialEq, Eq, Structural)]
pub enum TextAlign {
    Left,
    Center,
    Right,
}

/// One run of text with a single style.
#[derive(Debug, Clone)]
pub struct TextFragment {
    pub text: String,
    pub font_name: String,
    pub is_bold: bool,
    pub is_italic: bool,
    pub is_underlined: bool,
}

/// The fragments of one visual line, in reading order.
///
/// `wide_gaps[k]` tells whether the horizontal gap between fragment `k` and
/// the closest earlier fragment with non-empty text exceeds 0.3 times the
/// larger of their font sizes. `small_font` tells whether the line's font
/// size (the largest of its fragments) is at most 11 pt.
#[derive(Debug, Clone)]
pub struct TextLine {
    pub fragments: Vec<TextFragment>,
    pub wide_gaps: Vec<bool>,
    pub alignment: TextAlign,
    pub small_font: bool,
}

/// The gap flag before fragment `k`; absent flags count as narrow gaps.
pub open spec fn gap_at(gaps: Seq<bool>, k: int) -> bool {
    0 <= k < gaps.len() && gaps[k]
}

/// The concatenation of the first `n` fragment texts, skipping empty texts
/// and putting one space before a text after a wide gap, unless the text so
/// far ends with a space or the new text starts with one.
pub open spec fn joined_prefix(frags: Seq<TextFragment>, gaps: Seq<bool>, n: int) -> Seq<char>
    decreases n,
{
    if n <= 0 {
        Seq::empty()
    } else {
        let acc = joined_prefix(frags, gaps, n - 1);
        let t = frags[n - 1].text@;
        if t.len() == 0 {
            acc
        } else if acc.len() > 0 && gap_at(gaps, n - 1) && acc.last() != ' ' && t[0] != ' ' {
            acc + seq![' '] + t
        } else {
            acc + t
        }
    }
}

/// The text of a line: its fragments joined as `joined_prefix` says, trimmed.
pub open spec fn line_text(frags: Seq<TextFragment>, gaps: Seq<bool>) -> Seq<char> {
    trim(joined_prefix(frags, gaps, frags.len() as int))
}

/// Bytes of trimmed text in the first `n` fragments.
pub open spec fn trimmed_bytes(frags: Seq<TextFragment>, n: int) -> nat
    decreases n,
{
    if n <= 0 {
        0
    } else {
        trimmed_bytes(frags, n - 1) + byte_len(trim(frags[n - 1].text@))
    }
}

/// Bytes of trimmed text in the bold fragments among the first `n`.
pub open spec fn bold_bytes(frags: Seq<TextFragment>, n: int) -> nat
    decreases n,
{
    if n <= 0 {
        0
    } else {
        bold_bytes(frags, n - 1) + if frags[n - 1].is_bold {
            byte_len(trim(frags[n - 1].text@))
        } else {
            0
        }
    }
}

/// Bytes of trimmed text in the italic fragments among the first `n`.
pub open spec fn italic_bytes(frags: Seq<TextFragment>, n: int) -> nat
    decreases n,
{
    if n <= 0 {
        0
    } else {
        italic_bytes(frags, n - 1) + if frags[n - 1].is_italic {
            byte_len(trim(frags[n - 1].text@))
        } else {
            0
        }
    }
}

/// Bold when at least half of the line's trimmed text bytes are bold.
pub open spec fn mostly_bold(frags: Seq<TextFragment>) -> bool {
    let total = trimmed_bytes(frags, frags.len() as int);
    total > 0 && bold_bytes(frags, frags.len() as int) * 2 >= total
}

/// Italic when at least half of the line's trimmed text bytes are italic.
pub open spec fn mostly_italic(frags: Seq<TextFragment>) -> bool {
    let total = trimmed_bytes(frags, frags.len() as int);
    total > 0 && italic_bytes(frags, frags.len() as int) * 2 >= total
}

pub open spec fn any_underlined(frags: Seq<TextFragment>) -> bool {
    exists|k: int| 0 <= k < frags.len() && #[trigger] frags[k].is_underlined
}

pub open spec fn is_blank(f: TextFragment) -> bool {
    trim(f.text@).len() == 0
}

/// `i` is the first fragment whose trimmed text is not empty.
pub open spec fn first_nonblank(frags: Seq<TextFragment>, i: int) -> bool {
    &&& 0 <= i < frags.len()
    &&& !is_blank(frags[i])
    &&& forall|j: int| 0 <= j < i ==> is_blank(#[trigger] frags[j])
}

/// A bullet: a Symbol-font fragment, or text starting with `•`.
pub open spec fn is_bullet_fragment(f: TextFragment) -> bool {
    has_infix(f.font_name@, "Symbol"@) || (trim(f.text@).len() > 0 && trim(f.text@)[0] == '•')
}

/// A sub-bullet: a Courier-font fragment whose trimmed text is `o`.
pub open spec fn is_sub_bullet_fragment(f: TextFragment) -> bool {
    has_infix(f.font_name@, "Courier"@) && trim(f.text@) == seq!['o']
}

pub open spec fn begins_with_bullet(frags: Seq<TextFragment>) -> bool {
    exists|i: int| first_nonblank(frags, i) && is_bullet_fragment(frags[i])
}

pub open spec fn begins_with_sub_bullet(frags: Seq<TextFragment>) -> bool {
    exists|i: int| first_nonblank(frags, i) && is_sub_bullet_fragment(frags[i])
}

/// What the style queries of a line need to stay within machine integers:
/// its trimmed text bytes, summed, fit in a `usize`.
pub open spec fn within_limits(frags: Seq<TextFragment>) -> bool {
    trimmed_bytes(frags, frags.len() as int) <= usize::MAX
}

proof fn lemma_style_bytes_bounded(frags: Seq<TextFragment>, n: int)
    ensures
        bold_bytes(frags, n) <= trimmed_bytes(frags, n),
        italic_bytes(frags, n) <= trimmed_bytes(frags, n),
    decreases n,
{
    if n > 0 {
        lemma_style_bytes_bounded(frags, n - 1);
    }
}

proof fn lemma_trimmed_bytes_monotone(frags: Seq<TextFragment>, m: int, n: int)
    requires
        m <= n,
    ensures
        trimmed_bytes(frags, m) <= trimmed_bytes(frags, n),
    decreases n - m,
{
    if m < n {
        lemma_trimmed_bytes_monotone(frags, m, n - 1);
    }
}

/// Bold bytes count all the text when every fragment is bold and none when
/// no fragment is; so a line whose fragments are all bold, with some text,
/// is bold, and a line with no bold fragment is not (and alike for italic).
pub proof fn lemma_uniform_style(frags: Seq<TextFragment>, n: int)
    requires
        0 <= n <= frags.len(),
    ensures
        (forall|k: int| 0 <= k < n ==> (#[trigger] frags[k]).is_bold) ==> bold_bytes(frags, n)
            == trimmed_bytes(frags, n),
        (forall|k: int| 0 <= k < n ==> !(#[trigger] frags[k]).is_bold) ==> bold_bytes(frags, n)
            == 0,
        (forall|k: int| 0 <= k < n ==> (#[trigger] frags[k]).is_italic) ==> italic_bytes(frags, n)
            == trimmed_bytes(frags, n),
        (forall|k: int| 0 <= k < n ==> !(#[trigger] frags[k]).is_italic) ==> italic_bytes(frags, n)
            == 0,
        n == frags.len() && trimmed_bytes(frags, n) > 0 && (forall|k: int|
            0 <= k < n ==> (#[trigger] frags[k]).is_bold) ==> mostly_bold(frags),
        n == frags.len() && (forall|k: int| 0 <= k < n ==> !(#[trigger] frags[k]).is_bold)
            ==> !mostly_bold(frags),
        n == frags.len() && trimmed_bytes(frags, n) > 0 && (forall|k: int|
            0 <= k < n ==> (#[trigger] frags[k]).is_italic) ==> mostly_italic(frags),
        n == frags.len() && (forall|k: int| 0 <= k < n ==> !(#[trigger] frags[k]).is_italic)
            ==> !mostly_italic(frags),
    decreases n,
{
    if n > 0 {
        lemma_uniform_style(frags, n - 1);
    }
}

/// Trimmed text of `f` and its byte length.
fn trimmed_text(f: &TextFragment) -> (r: (Vec<char>, u128))
    ensures
        r.0@ == trim(f.text@),
        r.1 == byte_len(trim(f.text@)),
{
    let s = chars_of(f.text.as_str());
    let t = trim_chars(s.as_slice());
    let n = byte_len_of(t.as_slice());
    (t, n)
}

/// Whether fragment `f` is a bullet marker.
pub fn fragment_is_bullet(f: &TextFragment) -> (b: bool)
    ensures
        b == is_bullet_fragment(*f),
{
    let name = chars_of(f.font_name.as_str());
    let symbol = chars_of("Symbol");
    if contains_chars(name.as_slice(), symbol.as_slice()) {
        return true;
    }
    let (t, _) = trimmed_text(f);
    t.len() > 0 && t[0] == '•'
}

/// Whether fragment `f` is a sub-bullet marker.
pub fn fragment_is_sub_bullet(f: &TextFragment) -> (b: bool)
    ensures
        b == is_sub_bullet_fragment(*f),
{
    let name = chars_of(f.font_name.as_str());
    let courier = chars_of("Courier");
    if !contains_chars(name.as_slice(), courier.as_slice()) {
        return false;
    }
    let (t, _) = trimmed_text(f);
    let r = t.len() == 1 && t[0] == 'o';
    assert(r ==> t@ =~= seq!['o']);
    r
}

impl TextLine {
    /// The line's text: non-empty fragment texts joined, with a space after
    /// each wide gap unless one is already there, then trimmed.
    pub fn merged_text(&self) -> (out: String)
        ensures
            out@ == line_text(self.fragments@, self.wide_gaps@),
    {
        let frags = &self.fragments;
        let mut acc: Vec<char> = Vec::new();
        let mut k: usize = 0;
        while k < frags.len()
            invariant
                k <= frags.len(),
                frags@ == self.fragments@,
                acc@ == joined_prefix(frags@, self.wide_gaps@, k as int),
            decreases frags.len() - k,
        {
            let t = chars_of(frags[k].text.as_str());
            if t.len() > 0 {
                let gap = k < self.wide_gaps.len() && self.wide_gaps[k];
                if acc.len() > 0 && gap && acc[acc.len() - 1] != ' ' && t[0] != ' ' {
                    acc.push(' ');
                }
                let ghost before = acc@;
                let mut m: usize = 0;
                while m < t.len()
                    invariant
                        m <= t.len(),
                        acc@ == before + t@.take(m as int),
                    decreases t.len() - m,
                {
                    acc.push(t[m]);
                    m = m + 1;
                    assert(acc@ =~= before + t@.take(m as int));
                }
                assert(t@.take(t.len() as int) =~= t@);
            }
            k = k + 1;
        }
        let trimmed = trim_chars(acc.as_slice());
        string_of(trimmed.as_slice())
    }

    /// Whether at least half of the trimmed text bytes are bold.
    pub fn is_bold(&self) -> (b: bool)
        requires
            within_limits(self.fragments@),
        ensures
            b == mostly_bold(self.fragments@),
    {
        let (bold, total) = self.style_bytes(true);
        total > 0 && bold * 2 >= total
    }

    /// Whether at least half of the trimmed text bytes are italic.
    pub fn is_italic(&self) -> (b: bool)
        requires
            within_limits(self.fragments@),
        ensures
            b == mostly_italic(self.fragments@),
    {
        let (italic, total) = self.style_bytes(false);
        total > 0 && italic * 2 >= total
    }

    /// Trimmed bytes in bold (or italic) fragments, and in all fragments.
    fn style_bytes(&self, bold: bool) -> (r: (u128, u128))
        requires
            within_limits(self.fragments@),
        ensures
            r.1 == trimmed_bytes(self.fragments@, self.fragments@.len() as int),
            bold ==> r.0 == bold_bytes(self.fragments@, self.fragments@.len() as int),
            !bold ==> r.0 == italic_bytes(self.fragments@, self.fragments@.len() as int),
            r.1 <= usize::MAX,
            r.0 <= r.1,
    {
        let frags = &self.fragments;
        let mut styled: u128 = 0;
        let mut total: u128 = 0;
        let mut k: usize = 0;
        while k < frags.len()
            invariant
                k <= frags.len(),
                frags@ == self.fragments@,
                within_limits(frags@),
                total == trimmed_bytes(frags@, k as int),
                bold ==> styled == bold_bytes(frags@, k as int),
                !bold ==> styled == italic_bytes(frags@, k as int),
            decreases frags.len() - k,
        {
            proof {
                lemma_trimmed_bytes_monotone(frags@, k + 1, frags@.len() as int);
                lemma_style_bytes_bounded(frags@, k + 1);
            }
            let (_, n) = trimmed_text(&frags[k]);
            let marked = if bold {
                frags[k].is_bold
            } else {
                frags[k].is_italic
            };
            if marked {
                styled = styled + n;
            }
            total = total + n;
            k = k + 1;
        }
        proof {
            lemma_style_bytes_bounded(frags@, k as int);
        }
        (styled, total)
    }

    /// Whether any fragment is underlined.
    pub fn is_underlined(&self) -> (b: bool)
        ensures
            b == any_underlined(self.fragments@),
    {
        let frags = &self.fragments;
        let mut k: usize = 0;
        while k < frags.len()
            invariant
                k <= frags.len(),
                frags@ == self.fragments@,
                forall|j: int| 0 <= j < k ==> !(#[trigger] frags@[j]).is_underlined,
            decreases frags.len() - k,
        {
            if frags[k].is_underlined {
                assert(frags@[k as int].is_underlined);
                return true;
            }
            k = k + 1;
        }
        false
    }

    pub fn alignment(&self) -> (a: TextAlign)
        ensures
            a == self.alignment,
    {
        self.alignment
    }

    /// Index of the first fragment with non-blank text, if any.
    pub fn first_nonblank_index(&self) -> (r: Option<usize>)
        ensures
            match r {
                Some(i) => first_nonblank(self.fragments@, i as int),
                None => forall|j: int| 0 <= j < self.fragments@.len() ==> is_blank(#[trigger] self.fragments@[j]),
            },
    {
        let frags = &self.fragments;
        let mut k: usize = 0;
        while k < frags.len()
            invariant
                k <= frags.len(),
                frags@ == self.fragments@,
                forall|j: int| 0 <= j < k ==> is_blank(#[trigger] frags@[j]),
            decreases frags.len() - k,
        {
            let (t, _) = trimmed_text(&frags[k]);
            if t.len() > 0 {
                assert(!is_blank(frags@[k as int]));
                return Some(k);
            }
            k = k + 1;
        }
        None
    }

    /// Whether the first non-blank fragment is a bullet.
    pub fn starts_with_bullet(&self) -> (b: bool)
        ensures
            b == begins_with_bullet(self.fragments@),
    {
        match self.first_nonblank_index() {
            Some(i) => fragment_is_bullet(&self.fragments[i]),
            None => false,
        }
    }

    /// Whether the first non-blank fragment is a sub-bullet.
    pub fn starts_with_sub_bullet(&self) -> (b: bool)
        ensures
            b == begins_with_sub_bullet(self.fragments@),
    {
        match self.first_nonblank_index() {
            Some(i) => fragment_is_sub_bullet(&self.fragments[i]),
            None => false,
        }
    }
}


/// The lowercase form of a string, as `str::to_lowercase` computes it.
pub uninterp spec fn lowercase(s: Seq<char>) -> Seq<char>;

/// Lowercases through `str::to_lowercase`; the contract names the result
/// `lowercase` of the input's characters (Unicode case mapping, which
/// depends on the characters alone).
#[verifier::external_body]
fn to_lowercase(s: &str) -> (out: String)
    ensures
        out@ == lowercase(s@),
{
    s.to_lowercase()
}

/// Bold when a lowercased font name mentions "bold" or "heavy".
pub open spec fn bold_style_name(lower: Seq<char>) -> bool {
    has_infix(lower, "bold"@) || has_infix(lower, "heavy"@)
}

/// Italic when a lowercased font name mentions "italic" or "oblique".
pub open spec fn italic_style_name(lower: Seq<char>) -> bool {
    has_infix(lower, "italic"@) || has_infix(lower, "oblique"@)
}

/// Bold when the lowercased font name mentions "bold" or "heavy".
pub open spec fn bold_font_name(name: Seq<char>) -> bool {
    bold_style_name(lowercase(name))
}

/// Italic when the lowercased font name mentions "italic" or "oblique".
pub open spec fn italic_font_name(name: Seq<char>) -> bool {
    italic_style_name(lowercase(name))
}

/// A lowercased font name reads as italic exactly when it contains
/// "italic" or "oblique", and as bold exactly when it contains "bold" or
/// "heavy": a name with neither word is never read so. Through `font_style`
/// the same holds of a font name's lowercase form.
pub proof fn lemma_style_words(lower: Seq<char>, name: Seq<char>)
    ensures
        italic_style_name(lower) <==> (exists|i: int|
            0 <= i && i + 6 <= lower.len() && #[trigger] lower.subrange(i, i + 6) == seq![
                'i',
                't',
                'a',
                'l',
                'i',
                'c',
            ]) || (exists|i: int|
            0 <= i && i + 7 <= lower.len() && #[trigger] lower.subrange(i, i + 7) == seq![
                'o',
                'b',
                'l',
                'i',
                'q',
                'u',
                'e',
            ]),
        bold_style_name(lower) <==> (exists|i: int|
            0 <= i && i + 4 <= lower.len() && #[trigger] lower.subrange(i, i + 4) == seq![
                'b',
                'o',
                'l',
                'd',
            ]) || (exists|i: int|
            0 <= i && i + 5 <= lower.len() && #[trigger] lower.subrange(i, i + 5) == seq![
                'h',
                'e',
                'a',
                'v',
                'y',
            ]),
        italic_font_name(name) == italic_style_name(lowercase(name)),
        bold_font_name(name) == bold_style_name(lowercase(name)),
{
    reveal_strlit("italic");
    reveal_strlit("oblique");
    reveal_strlit("bold");
    reveal_strlit("heavy");
    assert("italic"@ =~= seq!['i', 't', 'a', 'l', 'i', 'c']);
    assert("oblique"@ =~= seq!['o', 'b', 'l', 'i', 'q', 'u', 'e']);
    assert("bold"@ =~= seq!['b', 'o', 'l', 'd']);
    assert("heavy"@ =~= seq!['h', 'e', 'a', 'v', 'y']);
}

/// Bold and italic style read from a font name already in lowercase.
pub fn style_of_lowercase_name(lower: &str) -> (style: (bool, bool))
    ensures
        style.0 == bold_style_name(lower@),
        style.1 == italic_style_name(lower@),
{
    let l = chars_of(lower);
    let bold = contains_chars(l.as_slice(), chars_of("bold").as_slice()) || contains_chars(
        l.as_slice(),
        chars_of("heavy").as_slice(),
    );
    let italic = contains_chars(l.as_slice(), chars_of("italic").as_slice()) || contains_chars(
        l.as_slice(),
        chars_of("oblique").as_slice(),
    );
    (bold, italic)
}

/// Bold and italic style read from a font's name.
pub fn font_style(font_name: &str) -> (style: (bool, bool))
    ensures
        style.0 == bold_font_name(font_name@),
        style.1 == italic_font_name(font_name@),
{
    let lower = to_lowercase(font_name);
    style_of_lowercase_name(lower.as_str())
}


/// What the geometry says of fragment `k` (of a line, left to right) and
/// the fragment `s` that starts the run it might join, indexed `[k][s]`:
/// - `same_size[k][s]`: their font sizes differ by less than 0.5 pt;
/// - `wide_gap[k][s]`: the gap between fragment `k - 1` and fragment `k`
///   exceeds 0.3 times the larger of the font sizes of `s` and `k`.
/// A missing entry reads as `false`.
#[derive(Debug, Clone)]
pub struct RunFacts {
    pub same_size: Vec<Vec<bool>>,
    pub wide_gap: Vec<Vec<bool>>,
}

pub open spec fn run_fact(m: Seq<Vec<bool>>, k: int, s: int) -> bool {
    0 <= k < m.len() && 0 <= s < m[k]@.len() && m[k]@[s]
}

/// Consecutive same-styled fragments folded into one: the style of the
/// first, their texts joined, and the range `first..=last` they came from.
#[derive(Debug, Clone)]
pub struct MergedRun {
    pub fragment: TextFragment,
    pub first: usize,
    pub last: usize,
}

/// A run as a value: text, font name, bold, italic, underlined, first, last.
pub type RunView = (Seq<char>, Seq<char>, bool, bool, bool, int, int);

pub open spec fn run_view(r: MergedRun) -> RunView {
    (
        r.fragment.text@,
        r.fragment.font_name@,
        r.fragment.is_bold,
        r.fragment.is_italic,
        r.fragment.is_underlined,
        r.first as int,
        r.last as int,
    )
}

pub open spec fn run_views(rs: Seq<MergedRun>) -> Seq<RunView> {
    rs.map_values(|r: MergedRun| run_view(r))
}

/// Fragment `k` may join run `r`: same font name, size and style.
pub open spec fn joins_run(r: RunView, f: TextFragment, facts: RunFacts, k: int) -> bool {
    &&& r.1 == f.font_name@
    &&& run_fact(facts.same_size@, k, r.5)
    &&& r.2 == f.is_bold
    &&& r.3 == f.is_italic
    &&& r.4 == f.is_underlined
}

/// The runs formed by the first `n` fragments.
pub open spec fn runs_of(frags: Seq<TextFragment>, facts: RunFacts, n: int) -> Seq<RunView>
    decreases n,
{
    if n <= 0 {
        Seq::empty()
    } else {
        let acc = runs_of(frags, facts, n - 1);
        let f = frags[n - 1];
        if acc.len() > 0 && joins_run(acc.last(), f, facts, n - 1) {
            let r = acc.last();
            let spaced = run_fact(facts.wide_gap@, n - 1, r.5) && !(r.0.len() > 0 && r.0.last()
                == ' ') && !(f.text@.len() > 0 && f.text@[0] == ' ');
            let text = if spaced {
                r.0 + seq![' '] + f.text@
            } else {
                r.0 + f.text@
            };
            acc.update(acc.len() - 1, (text, r.1, r.2, r.3, r.4, r.5, n - 1))
        } else {
            acc.push(
                (f.text@, f.font_name@, f.is_bold, f.is_italic, f.is_underlined, n - 1, n - 1),
            )
        }
    }
}

/// Run `r` with fragment `k` folded into it.
fn extend_run(r: MergedRun, f: &TextFragment, facts: &RunFacts, k: usize) -> (out: MergedRun)
    ensures
        ({
            let v = run_view(r);
            let spaced = run_fact(facts.wide_gap@, k as int, v.5) && !(v.0.len() > 0 && v.0.last()
                == ' ') && !(f.text@.len() > 0 && f.text@[0] == ' ');
            run_view(out) == (
                if spaced {
                    v.0 + seq![' '] + f.text@
                } else {
                    v.0 + f.text@
                },
                v.1,
                v.2,
                v.3,
                v.4,
                v.5,
                k as int,
            )
        }),
{
    let mut text = chars_of(r.fragment.text.as_str());
    let t = chars_of(f.text.as_str());
    let gap = k < facts.wide_gap.len() && r.first < facts.wide_gap[k].len()
        && facts.wide_gap[k][r.first];
    let ends_space = text.len() > 0 && text[text.len() - 1] == ' ';
    let starts_space = t.len() > 0 && t[0] == ' ';
    if gap && !ends_space && !starts_space {
        text.push(' ');
    }
    let ghost before = text@;
    let mut m: usize = 0;
    while m < t.len()
        invariant
            m <= t.len(),
            text@ == before + t@.take(m as int),
        decreases t.len() - m,
    {
        text.push(t[m]);
        m = m + 1;
        assert(text@ =~= before + t@.take(m as int));
    }
    assert(t@.take(t.len() as int) =~= t@);
    MergedRun {
        fragment: TextFragment {
            text: string_of(text.as_slice()),
            font_name: r.fragment.font_name,
            is_bold: r.fragment.is_bold,
            is_italic: r.fragment.is_italic,
            is_underlined: r.fragment.is_underlined,
        },
        first: r.first,
        last: k,
    }
}

/// Folds each fragment into the run before it when they share font name,
/// size and style, so per-glyph fragments become word-level ones; a space
/// goes between them after a wide gap unless one is already there.
pub fn merge_line_fragments(frags: &Vec<TextFragment>, facts: &RunFacts) -> (out: Vec<MergedRun>)
    ensures
        run_views(out@) == runs_of(frags@, *facts, frags@.len() as int),
{
    let mut out: Vec<MergedRun> = Vec::new();
    let mut k: usize = 0;
    while k < frags.len()
        invariant
            k <= frags.len(),
            run_views(out@) == runs_of(frags@, *facts, k as int),
        decreases frags.len() - k,
    {
        let f = &frags[k];
        let ghost old_views = run_views(out@);
        let joins = if out.len() > 0 {
            let r = &out[out.len() - 1];
            proof {
                assert(old_views.last() == run_view(*r));
            }
            r.fragment.font_name == f.font_name && k < facts.same_size.len() && r.first
                < facts.same_size[k].len() && facts.same_size[k][r.first] && r.fragment.is_bold
                == f.is_bold && r.fragment.is_italic == f.is_italic && r.fragment.is_underlined
                == f.is_underlined
        } else {
            false
        };
        if joins {
            let ghost old_runs = out@;
            let r = out.pop().unwrap();
            assert(r == old_runs.last());
            assert(old_views.last() == run_view(r));
            assert(joins_run(old_views.last(), *f, *facts, k as int));
            let merged = extend_run(r, f, facts, k);
            out.push(merged);
            proof {
                let nv = runs_of(frags@, *facts, k + 1);
                assert(frags@[k as int] == *f);
                assert(run_views(out@)[old_views.len() - 1] == nv[old_views.len() - 1]);
                assert forall|j: int| 0 <= j < old_views.len() - 1 implies #[trigger] run_views(
                    out@,
                )[j] == nv[j] by {
                    assert(out@[j] == old_runs[j]);
                }
                assert(run_views(out@) =~= nv);
            }
        } else {
            let run = MergedRun {
                fragment: TextFragment {
                    text: f.text.clone(),
                    font_name: f.font_name.clone(),
                    is_bold: f.is_bold,
                    is_italic: f.is_italic,
                    is_underlined: f.is_underlined,
                },
                first: k,
                last: k,
            };
            out.push(run);
            assert(run_views(out@) =~= old_views.push(
                (f.text@, f.font_name@, f.is_bold, f.is_italic, f.is_underlined, k as int, k as int),
            ));
        }
        k = k + 1;
    }
    out
}

/// Fragment `f` has the font name and style of run `r`.
pub open spec fn has_run_style(f: TextFragment, r: RunView) -> bool {
    &&& f.font_name@ == r.1
    &&& f.is_bold == r.2
    &&& f.is_italic == r.3
    &&& f.is_underlined == r.4
}

/// The runs of the first `n` fragments cover them in order: each run is a
/// range `first..=last`, the first run starts at 0, each next run starts
/// right after the one before, and the last ends at `n - 1`.
pub open spec fn runs_cover(rs: Seq<RunView>, n: int) -> bool {
    &&& (rs.len() == 0) == (n <= 0)
    &&& rs.len() > 0 ==> rs[0].5 == 0 && rs.last().6 == n - 1
    &&& forall|j: int| 0 <= j < rs.len() ==> (#[trigger] rs[j]).5 <= rs[j].6
    &&& forall|j: int| 0 < j < rs.len() ==> (#[trigger] rs[j]).5 == rs[j - 1].6 + 1
}

/// Merging never mixes styles or sizes: the runs cover the fragments in
/// order, every fragment of a run has the run's font name, bold, italic and
/// underline, and every later fragment of a run has the size of its first.
pub proof fn lemma_runs_cover_fragments(frags: Seq<TextFragment>, facts: RunFacts, n: int)
    requires
        0 <= n <= frags.len(),
    ensures
        runs_cover(runs_of(frags, facts, n), n),
        forall|j: int, k: int|
            0 <= j < runs_of(frags, facts, n).len() && runs_of(frags, facts, n)[j].5 <= k
                <= runs_of(frags, facts, n)[j].6 ==> #[trigger] has_run_style(
                frags[k],
                runs_of(frags, facts, n)[j],
            ),
        forall|j: int, k: int|
            0 <= j < runs_of(frags, facts, n).len() && runs_of(frags, facts, n)[j].5 < k
                <= runs_of(frags, facts, n)[j].6 ==> #[trigger] run_fact(
                facts.same_size@,
                k,
                runs_of(frags, facts, n)[j].5,
            ),
    decreases n,
{
    if n > 0 {
        lemma_runs_cover_fragments(frags, facts, n - 1);
        let acc = runs_of(frags, facts, n - 1);
        let rs = runs_of(frags, facts, n);
        let f = frags[n - 1];
        if acc.len() > 0 && joins_run(acc.last(), f, facts, n - 1) {
            let last = acc.len() - 1;
            assert(rs.len() == acc.len());
            assert forall|j: int| 0 <= j < rs.len() implies (#[trigger] rs[j]).5 <= rs[j].6 by {
                if j < last {
                    assert(rs[j] == acc[j]);
                }
            }
            assert forall|j: int| 0 < j < rs.len() implies (#[trigger] rs[j]).5 == rs[j - 1].6
                + 1 by {
                if j < last {
                    assert(rs[j] == acc[j]);
                }
                assert(rs[j - 1] == acc[j - 1]);
            }
            assert forall|j: int, k: int|
                0 <= j < rs.len() && rs[j].5 <= k <= rs[j].6 implies #[trigger] has_run_style(
                frags[k],
                rs[j],
            ) by {
                if j < last {
                    assert(rs[j] == acc[j]);
                } else if k < n - 1 {
                    assert(has_run_style(frags[k], acc[j]));
                }
            }
            assert forall|j: int, k: int|
                0 <= j < rs.len() && rs[j].5 < k <= rs[j].6 implies #[trigger] run_fact(
                facts.same_size@,
                k,
                rs[j].5,
            ) by {
                if j < last {
                    assert(rs[j] == acc[j]);
                } else if k < n - 1 {
                    assert(run_fact(facts.same_size@, k, acc[j].5));
                }
            }
        } else {
            assert(rs == acc.push(
                (f.text@, f.font_name@, f.is_bold, f.is_italic, f.is_underlined, n - 1, n - 1),
            ));
            assert forall|j: int| 0 < j < rs.len() implies (#[trigger] rs[j]).5 == rs[j - 1].6
                + 1 by {
                assert(rs[j - 1] == acc[j - 1]);
                if j < acc.len() {
                    assert(rs[j] == acc[j]);
                }
            }
            assert forall|j: int, k: int|
                0 <= j < rs.len() && rs[j].5 <= k <= rs[j].6 implies #[trigger] has_run_style(
                frags[k],
                rs[j],
            ) by {
                if j < acc.len() {
                    assert(rs[j] == acc[j]);
                    assert(has_run_style(frags[k], acc[j]));
                }
            }
            assert forall|j: int, k: int|
                0 <= j < rs.len() && rs[j].5 < k <= rs[j].6 implies #[trigger] run_fact(
                facts.same_size@,
                k,
                rs[j].5,
            ) by {
                if j < acc.len() {
                    assert(rs[j] == acc[j]);
                    assert(run_fact(facts.same_size@, k, acc[j].5));
                }
            }
        }
    }
}

/// A copy of a fragment.
pub fn copy_fragment(f: &TextFragment) -> (out: TextFragment)
    ensures
        out == *f,
{
    TextFragment {
        text: f.text.clone(),
        font_name: f.font_name.clone(),
        is_bold: f.is_bold,
        is_italic: f.is_italic,
        is_underlined: f.is_underlined,
    }
}

/// A copy of a list of fragments.
pub fn copy_fragments(v: &Vec<TextFragment>) -> (out: Vec<TextFragment>)
    ensures
        out@ == v@,
{
    let mut out: Vec<TextFragment> = Vec::new();
    let mut k: usize = 0;
    while k < v.len()
        invariant
            k <= v.len(),
            out@ == v@.take(k as int),
        decreases v.len() - k,
    {
        out.push(copy_fragment(&v[k]));
        k = k + 1;
        assert(out@ =~= v@.take(k as int));
    }
    assert(v@.take(v.len() as int) =~= v@);
    out
}

} // verus!
