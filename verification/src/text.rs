//! Character-level text handling: whitespace trimming, UTF-8 byte length,
//! substring search, and the ordered-list marker grammar.
use vstd::prelude::*;

verus! {

broadcast use vstd::string::group_string_axioms;

/// Unicode `White_Space` property, as `char::is_whitespace` defines it.
pub open spec fn spec_is_whitespace(c: char) -> bool {
    let u = c as u32;
    ||| (0x09 <= u && u <= 0x0d)
    ||| u == 0x20
    ||| u == 0x85
    ||| u == 0xa0
    ||| u == 0x1680
    ||| (0x2000 <= u && u <= 0x200a)
    ||| u == 0x2028
    ||| u == 0x2029
    ||| u == 0x202f
    ||| u == 0x205f
    ||| u == 0x3000
}

/// `s` with leading whitespace removed (`str::trim_start`).
pub open spec fn trim_start(s: Seq<char>) -> Seq<char>
    decreases s.len(),
{
    if s.len() > 0 && spec_is_whitespace(s[0]) {
        trim_start(s.drop_first())
    } else {
        s
    }
}

/// `s` with trailing whitespace removed (`str::trim_end`).
pub open spec fn trim_end(s: Seq<char>) -> Seq<char>
    decreases s.len(),
{
    if s.len() > 0 && spec_is_whitespace(s.last()) {
        trim_end(s.drop_last())
    } else {
        s
    }
}

/// `s` with leading and trailing whitespace removed (`str::trim`).
pub open spec fn trim(s: Seq<char>) -> Seq<char> {
    trim_end(trim_start(s))
}

/// Number of bytes of the UTF-8 encoding of `c` (`char::len_utf8`).
pub open spec fn utf8_width(c: char) -> nat {
    let u = c as u32;
    if u < 0x80 {
        1
    } else if u < 0x800 {
        2
    } else if u < 0x10000 {
        3
    } else {
        4
    }
}

/// Number of bytes of the UTF-8 encoding of `s` (`str::len`).
pub open spec fn byte_len(s: Seq<char>) -> nat
    decreases s.len(),
{
    if s.len() == 0 {
        0
    } else {
        byte_len(s.drop_last()) + utf8_width(s.last())
    }
}

/// `pat` occurs in `s` as a contiguous run (`str::contains`).
pub open spec fn has_infix(s: Seq<char>, pat: Seq<char>) -> bool {
    exists|i: int| 0 <= i && i + pat.len() <= s.len() && #[trigger] s.subrange(i, i + pat.len()) == pat
}

#[verifier::when_used_as_spec(spec_is_whitespace)]
pub fn is_whitespace(c: char) -> (b: bool)
    ensures
        b == spec_is_whitespace(c),
{
    let u = c as u32;
    (0x09 <= u && u <= 0x0d) || u == 0x20 || u == 0x85 || u == 0xa0 || u == 0x1680 || (0x2000 <= u
        && u <= 0x200a) || u == 0x2028 || u == 0x2029 || u == 0x202f || u == 0x205f || u == 0x3000
}

/// Appends `c` to `s` through `String::push`, which adds exactly that
/// character at the end.
#[verifier::external_body]
fn push_char(s: &mut String, c: char)
    ensures
        final(s)@ == old(s)@.push(c),
{
    s.push(c);
}

/// The characters of `s`, in order.
pub fn chars_of(s: &str) -> (out: Vec<char>)
    ensures
        out@ == s@,
{
    let mut out: Vec<char> = Vec::new();
    for c in it: s.chars()
        invariant
            out@ == it.seq().take(it.index() as int),
            it.seq() == s@,
    {
        out.push(c);
    }
    out
}

/// A `String` holding exactly the characters of `v`.
pub fn string_of(v: &[char]) -> (s: String)
    ensures
        s@ == v@,
{
    let mut s = String::new();
    let mut i: usize = 0;
    while i < v.len()
        invariant
            i <= v.len(),
            s@ == v@.take(i as int),
        decreases v.len() - i,
    {
        push_char(&mut s, v[i]);
        i = i + 1;
        assert(s@ =~= v@.take(i as int));
    }
    assert(v@.take(v.len() as int) =~= v@);
    s
}

/// Index of the first non-whitespace character of `s` (or `s.len()`).
fn trim_start_index(s: &[char]) -> (i: usize)
    ensures
        i <= s.len(),
        trim_start(s@) == s@.skip(i as int),
{
    let mut i: usize = 0;
    assert(s@.skip(0) =~= s@);
    while i < s.len() && is_whitespace(s[i])
        invariant
            i <= s.len(),
            trim_start(s@) == trim_start(s@.skip(i as int)),
        decreases s.len() - i,
    {
        assert(s@.skip(i as int).drop_first() =~= s@.skip(i + 1));
        i = i + 1;
    }
    i
}

/// Index one past the last non-whitespace character of `s` (or `0`).
fn trim_end_index(s: &[char]) -> (j: usize)
    ensures
        j <= s.len(),
        trim_end(s@) == s@.take(j as int),
{
    let mut j: usize = s.len();
    assert(s@.take(j as int) =~= s@);
    while j > 0 && is_whitespace(s[j - 1])
        invariant
            j <= s.len(),
            trim_end(s@) == trim_end(s@.take(j as int)),
        decreases j,
    {
        assert(s@.take(j as int).drop_last() =~= s@.take(j - 1));
        j = j - 1;
    }
    j
}

/// `s` with leading whitespace removed.
pub fn trim_start_chars(s: &[char]) -> (out: Vec<char>)
    ensures
        out@ == trim_start(s@),
{
    let i = trim_start_index(s);
    let out = slice_to_vec(s, i, s.len());
    assert(out@ =~= s@.skip(i as int));
    out
}

/// `s` with leading and trailing whitespace removed.
pub fn trim_chars(s: &[char]) -> (out: Vec<char>)
    ensures
        out@ == trim(s@),
{
    let t = trim_start_chars(s);
    let j = trim_end_index(t.as_slice());
    let out = slice_to_vec(t.as_slice(), 0, j);
    assert(out@ =~= t@.take(j as int));
    out
}

/// The characters `s[from..to]` as a new vector.
pub fn slice_to_vec(s: &[char], from: usize, to: usize) -> (out: Vec<char>)
    requires
        from <= to <= s.len(),
    ensures
        out@ == s@.subrange(from as int, to as int),
{
    let mut out: Vec<char> = Vec::new();
    let mut k: usize = from;
    while k < to
        invariant
            from <= k <= to <= s.len(),
            out@ == s@.subrange(from as int, k as int),
        decreases to - k,
    {
        out.push(s[k]);
        k = k + 1;
        assert(out@ =~= s@.subrange(from as int, k as int));
    }
    out
}

/// Number of bytes in the UTF-8 encoding of `s`.
pub fn byte_len_of(s: &[char]) -> (n: u128)
    ensures
        n == byte_len(s@),
        n <= 4 * s.len(),
{
    let mut n: u128 = 0;
    let mut i: usize = 0;
    while i < s.len()
        invariant
            i <= s.len(),
            n == byte_len(s@.take(i as int)),
            n <= 4 * i,
        decreases s.len() - i,
    {
        let u = s[i] as u32;
        let w: u128 = if u < 0x80 {
            1
        } else if u < 0x800 {
            2
        } else if u < 0x10000 {
            3
        } else {
            4
        };
        assert(s@.take(i + 1).drop_last() =~= s@.take(i as int));
        n = n + w;
        i = i + 1;
    }
    assert(s@.take(s.len() as int) =~= s@);
    n
}

/// Whether `pat` occurs in `s`.
pub fn contains_chars(s: &[char], pat: &[char]) -> (b: bool)
    ensures
        b == has_infix(s@, pat@),
{
    if pat.len() > s.len() {
        return false;
    }
    let last = s.len() - pat.len();
    let mut i: usize = 0;
    loop
        invariant
            pat.len() <= s.len(),
            last == s.len() - pat.len(),
            i <= last,
            forall|k: int| 0 <= k < i ==> #[trigger] s@.subrange(k, k + pat.len()) != pat@,
        ensures
            forall|k: int| 0 <= k <= last ==> #[trigger] s@.subrange(k, k + pat.len()) != pat@,
        decreases last - i,
    {
        if starts_at(s, pat, i) {
            assert(s@.subrange(i as int, i + pat.len()) == pat@);
            return true;
        }
        if i == last {
            break;
        }
        i = i + 1;
    }
    assert forall|k: int| 0 <= k && k + pat.len() <= s.len() implies #[trigger] s@.subrange(
        k,
        k + pat.len(),
    ) != pat@ by {}
    false
}

/// Whether `pat` occurs in `s` starting at position `i`.
fn starts_at(s: &[char], pat: &[char], i: usize) -> (b: bool)
    requires
        i + pat.len() <= s.len(),
    ensures
        b == (s@.subrange(i as int, i + pat.len()) == pat@),
{
    let mut k: usize = 0;
    while k < pat.len()
        invariant
            i + pat.len() <= s.len(),
            k <= pat.len(),
            forall|m: int| 0 <= m < k ==> s@[i + m] == pat@[m],
        decreases pat.len() - k,
    {
        if s[i + k] != pat[k] {
            assert(s@.subrange(i as int, i + pat.len())[k as int] != pat@[k as int]);
            return false;
        }
        k = k + 1;
    }
    assert(s@.subrange(i as int, i + pat.len()) =~= pat@);
    true
}

pub open spec fn is_ascii_digit(c: char) -> bool {
    '0' <= c && c <= '9'
}

/// Number of ASCII digits at the start of `s`.
pub open spec fn leading_digits(s: Seq<char>) -> nat
    decreases s.len(),
{
    if s.len() > 0 && is_ascii_digit(s[0]) {
        1 + leading_digits(s.drop_first())
    } else {
        0
    }
}

/// Number of space characters (U+0020) at the start of `s`.
pub open spec fn leading_spaces(s: Seq<char>) -> nat
    decreases s.len(),
{
    if s.len() > 0 && s[0] == ' ' {
        1 + leading_spaces(s.drop_first())
    } else {
        0
    }
}

/// Length of an ordered-list marker at the start of `s`: one to three
/// digits, optional spaces, then `.` or `)`, which must be followed by some
/// non-whitespace text. The length counts up to and including the
/// delimiter; it is the same in bytes and in characters, as every character
/// of the marker is ASCII.
pub open spec fn marker_len(s: Seq<char>) -> Option<nat> {
    let d = leading_digits(s);
    if d == 0 || d > 3 {
        None
    } else {
        let i = d + leading_spaces(s.skip(d as int));
        if i >= s.len() {
            None
        } else if s[i as int] != '.' && s[i as int] != ')' {
            None
        } else if trim_start(s.skip((i + 1) as int)).len() == 0 {
            None
        } else {
            Some((i + 1) as nat)
        }
    }
}

/// An ordered-list marker starts with a digit, ends with `.` or `)`, lies
/// within the text, and is followed by some non-whitespace text.
pub proof fn lemma_marker_shape(s: Seq<char>)
    ensures
        marker_len(s) matches Some(n) ==> {
            &&& 2 <= n <= s.len()
            &&& is_ascii_digit(s[0])
            &&& (s[n - 1] == '.' || s[n - 1] == ')')
            &&& trim_start(s.skip(n as int)).len() > 0
        },
{
    if marker_len(s) is Some {
        let d = leading_digits(s);
        assert(d > 0);
        assert(s.len() > 0 && is_ascii_digit(s[0]));
    }
}

/// The text of an ordered-list item rewritten as `<digits><delim> <rest>`.
pub open spec fn normalized_marker_text(s: Seq<char>) -> Seq<char> {
    match marker_len(s) {
        None => s,
        Some(len) => s.take(leading_digits(s) as int) + seq![s[len - 1], ' '] + trim_start(
            s.skip(len as int),
        ),
    }
}

/// Whether the trimmed text ends in sentence punctuation.
pub open spec fn ends_sentence(s: Seq<char>) -> bool {
    let t = trim(s);
    t.len() > 0 && (t.last() == '.' || t.last() == '!' || t.last() == '?' || t.last() == ':'
        || t.last() == ';')
}

/// Decimal value of a run of ASCII digits.
pub open spec fn decimal_value(d: Seq<char>) -> nat
    decreases d.len(),
{
    if d.len() == 0 {
        0
    } else {
        decimal_value(d.drop_last()) * 10 + (d.last() as nat - '0' as nat) as nat
    }
}

/// Whether `s` is accepted by `u32::from_str`: an optional `+`, then one or
/// more ASCII digits whose value fits in a `u32`.
pub open spec fn parses_as_u32(s: Seq<char>) -> bool {
    &&& s.len() > 0
    &&& unsigned_digits(s).len() > 0
    &&& forall|i: int|
        0 <= i < unsigned_digits(s).len() ==> #[trigger] is_ascii_digit(unsigned_digits(s)[i])
    &&& decimal_value(unsigned_digits(s)) <= u32::MAX
}

/// `s` without a leading `+` sign.
pub open spec fn unsigned_digits(s: Seq<char>) -> Seq<char> {
    if s.len() > 0 && s[0] == '+' {
        s.drop_first()
    } else {
        s
    }
}

/// Index of the first non-digit character of `s` (or `s.len()`).
fn leading_digits_of(s: &[char]) -> (n: usize)
    ensures
        n == leading_digits(s@),
        n <= s.len(),
{
    let mut i: usize = 0;
    assert(s@.skip(0) =~= s@);
    while i < s.len() && '0' <= s[i] && s[i] <= '9'
        invariant
            i <= s.len(),
            leading_digits(s@) == i + leading_digits(s@.skip(i as int)),
        decreases s.len() - i,
    {
        assert(s@.skip(i as int).drop_first() =~= s@.skip(i + 1));
        i = i + 1;
    }
    i
}

/// Index of the first non-space character of `s` at or after `from`.
fn skip_spaces(s: &[char], from: usize) -> (n: usize)
    requires
        from <= s.len(),
    ensures
        n == from + leading_spaces(s@.skip(from as int)),
        n <= s.len(),
{
    let mut i: usize = from;
    while i < s.len() && s[i] == ' '
        invariant
            from <= i <= s.len(),
            from + leading_spaces(s@.skip(from as int)) == i + leading_spaces(s@.skip(i as int)),
        decreases s.len() - i,
    {
        assert(s@.skip(i as int).drop_first() =~= s@.skip(i + 1));
        i = i + 1;
    }
    i
}

fn marker_len_of(s: &[char]) -> (r: Option<usize>)
    ensures
        match r {
            None => marker_len(s@) is None,
            Some(n) => marker_len(s@) == Some(n as nat),
        },
{
    let d = leading_digits_of(s);
    if d == 0 || d > 3 {
        return None;
    }
    let i = skip_spaces(s, d);
    if i >= s.len() {
        return None;
    }
    if s[i] != '.' && s[i] != ')' {
        return None;
    }
    let rest = slice_to_vec(s, i + 1, s.len());
    assert(rest@ =~= s@.skip(i + 1));
    let trimmed = trim_start_chars(rest.as_slice());
    if trimmed.len() == 0 {
        return None;
    }
    Some(i + 1)
}

/// Length, in bytes, of the ordered-list marker (`12.`, `3 )`, ...) at the
/// start of `text`, when `text` begins with one and has content after it.
pub fn ordered_marker_len(text: &str) -> (r: Option<usize>)
    ensures
        match r {
            None => marker_len(text@) is None,
            Some(n) => marker_len(text@) == Some(n as nat),
        },
{
    let s = chars_of(text);
    marker_len_of(s.as_slice())
}

/// `text` with its ordered-list marker rewritten as `<digits><delim> `;
/// `text` unchanged when it has no marker.
pub fn normalize_ordered_marker(text: &str) -> (out: String)
    ensures
        out@ == normalized_marker_text(text@),
{
    let s = chars_of(text);
    match marker_len_of(s.as_slice()) {
        None => string_of(s.as_slice()),
        Some(len) => {
            let digits = leading_digits_of(s.as_slice());
            let mut out = slice_to_vec(s.as_slice(), 0, digits);
            out.push(s[len - 1]);
            out.push(' ');
            let rest = slice_to_vec(s.as_slice(), len, s.len());
            let rest = trim_start_chars(rest.as_slice());
            let ghost before = out@;
            let mut k: usize = 0;
            while k < rest.len()
                invariant
                    k <= rest.len(),
                    out@ == before + rest@.take(k as int),
                decreases rest.len() - k,
            {
                out.push(rest[k]);
                k = k + 1;
                assert(out@ =~= before + rest@.take(k as int));
            }
            assert(rest@.take(rest.len() as int) =~= rest@);
            assert(s@.subrange(len as int, s.len() as int) =~= s@.skip(len as int));
            assert(s@.subrange(0, digits as int) =~= s@.take(digits as int));
            string_of(out.as_slice())
        },
    }
}

/// Whether `text`, trimmed, ends in `.`, `!`, `?`, `:` or `;`.
pub fn looks_complete(text: &str) -> (b: bool)
    ensures
        b == ends_sentence(text@),
{
    let s = chars_of(text);
    let t = trim_chars(s.as_slice());
    if t.len() == 0 {
        return false;
    }
    let c = t[t.len() - 1];
    c == '.' || c == '!' || c == '?' || c == ':' || c == ';'
}

/// Whether `s` is accepted by `u32::from_str`.
pub fn parses_as_u32_chars(s: &[char]) -> (b: bool)
    ensures
        b == parses_as_u32(s@),
{
    if s.len() == 0 {
        return false;
    }
    let start: usize = if s[0] == '+' {
        1
    } else {
        0
    };
    let ghost d = unsigned_digits(s@);
    assert(d =~= s@.skip(start as int));
    if start == s.len() {
        return false;
    }
    let mut v: u64 = 0;
    let mut i: usize = start;
    while i < s.len()
        invariant
            start <= i <= s.len(),
            d == s@.skip(start as int),
            d == unsigned_digits(s@),
            forall|k: int| 0 <= k < i - start ==> #[trigger] is_ascii_digit(d[k]),
            v == decimal_value(d.take(i - start)),
            v <= u32::MAX,
        decreases s.len() - i,
    {
        let c = s[i];
        if !('0' <= c && c <= '9') {
            assert(!is_ascii_digit(d[i - start]));
            return false;
        }
        assert(d.take(i - start + 1).drop_last() =~= d.take(i - start));
        assert(d.take(i - start + 1).last() == c);
        v = v * 10 + (c as u64 - '0' as u64);
        i = i + 1;
        assert(v == decimal_value(d.take(i - start)));
        if v > 0xffff_ffff {
            proof {
                lemma_decimal_value_prefix(d, i - start);
            }
            return false;
        }
    }
    assert(d.take(d.len() as int) =~= d);
    true
}

/// A prefix of a digit run has no larger value than the whole run.
proof fn lemma_decimal_value_prefix(d: Seq<char>, k: int)
    requires
        0 <= k <= d.len(),
    ensures
        decimal_value(d.take(k)) <= decimal_value(d),
    decreases d.len() - k,
{
    if k < d.len() {
        lemma_decimal_value_prefix(d, k + 1);
        assert(d.take(k + 1).drop_last() =~= d.take(k));
    } else {
        assert(d.take(k) =~= d);
    }
}

} // verus!
