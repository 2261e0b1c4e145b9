//! Incremental search over the text of the rendered lines.
//!
//! Matching is smartcase (case-insensitive unless the query contains an
//! uppercase character) and runs over every line, including lines a fold
//! hides: the pager expands the fold to reveal a hit.
use vstd::prelude::*;

verus! {

/// One match, in display columns of its row.
#[derive(Clone, Copy, Debug, PartialEq, Eq, Structural)]
pub struct Match {
    pub line: usize,
    pub start: usize,
    pub end: usize,
}

/// Direction of the last search.
#[derive(Clone, Copy, Debug, PartialEq, Eq, Structural)]
pub enum Dir {
    Forward,
    Backward,
}

impl Dir {
    /// The other direction.
    pub fn flip(self) -> (d: Dir)
        ensures
            d == match self {
                Dir::Forward => Dir::Backward,
                Dir::Backward => Dir::Forward,
            },
    {
        match self {
            Dir::Forward => Dir::Backward,
            Dir::Backward => Dir::Forward,
        }
    }
}

/// Whether a character has the Unicode `Uppercase` property.
pub uninterp spec fn uppercase(c: char) -> bool;

/// What lowercasing a character gives: one to three characters.
pub uninterp spec fn lowercase(c: char) -> Seq<char>;

/// `char::is_uppercase`: whether `c` has the Unicode `Uppercase` property. The
/// property is a Unicode table; of ASCII characters, exactly `A` to `Z` have it.
#[verifier::external_body]
fn is_upper(c: char) -> (b: bool)
    ensures
        b == uppercase(c),
        (c as u32) < 128 ==> (b <==> ('A' <= c && c <= 'Z')),
{
    c.is_uppercase()
}

/// `char::to_lowercase`, collected: the characters `c` lowercases to, from the
/// Unicode tables. There are one to three of them; an ASCII character
/// lowercases to itself but for `A` to `Z`, which become `a` to `z`.
#[verifier::external_body]
fn lower(c: char) -> (v: Vec<char>)
    ensures
        v@ == lowercase(c),
        1 <= v@.len() <= 3,
        (c as u32) < 128 ==> v@ == seq![ascii_lower(c)],
{
    c.to_lowercase().collect()
}

/// Every character of `s` is ASCII.
pub open spec fn is_ascii_text(s: Seq<char>) -> bool {
    forall|i: int| 0 <= i < s.len() ==> (#[trigger] s[i] as u32) < 128
}

/// An ASCII letter's lower case: `A` to `Z` become `a` to `z`, and every
/// other character stays.
pub open spec fn ascii_lower(c: char) -> char {
    if 'A' <= c && c <= 'Z' {
        ((c as u32) + 32) as char
    } else {
        c
    }
}

/// ASCII text as it is compared: as it is, or with `A` to `Z` lowered.
pub open spec fn ascii_folded(s: Seq<char>, sensitive: bool) -> Seq<char> {
    if sensitive {
        s
    } else {
        s.map_values(|c: char| ascii_lower(c))
    }
}

/// Whether ASCII text holds a letter from `A` to `Z`.
pub open spec fn has_ascii_upper(s: Seq<char>) -> bool {
    exists|i: int| 0 <= i < s.len() && 'A' <= #[trigger] s[i] && s[i] <= 'Z'
}

/// The characters of `s`, in order.
fn chars_of(s: &str) -> (v: Vec<char>)
    ensures
        v@ == s@,
{
    let n = s.unicode_len();
    let mut v: Vec<char> = Vec::new();
    let mut i: usize = 0;
    while i < n
        invariant
            i <= n,
            n == s@.len(),
            v@ == s@.take(i as int),
        decreases n - i,
    {
        v.push(s.get_char(i));
        proof {
            assert(s@.take(i + 1) =~= s@.take(i as int).push(s@[i as int]));
        }
        i = i + 1;
    }
    proof {
        assert(s@.take(n as int) =~= s@);
    }
    v
}

/// Case-sensitive only when the query itself carries an uppercase character.
pub open spec fn spec_case_sensitive(query: Seq<char>) -> bool {
    exists|i: int| 0 <= i < query.len() && #[trigger] uppercase(query[i])
}

/// Case-sensitive only when the query itself carries an uppercase character.
/// An ASCII query is case-sensitive exactly when it holds a letter from `A`
/// to `Z`: `model` matches `Model`, and `Model` matches only itself.
pub fn case_sensitive(query: &str) -> (b: bool)
    ensures
        b == spec_case_sensitive(query@),
        is_ascii_text(query@) ==> (b <==> has_ascii_upper(query@)),
{
    let cs = chars_of(query);
    let mut i: usize = 0;
    while i < cs.len()
        invariant
            i <= cs@.len(),
            cs@ == query@,
            forall|j: int| 0 <= j < i ==> !#[trigger] uppercase(query@[j]),
            forall|j: int|
                0 <= j < i ==> ((#[trigger] query@[j] as u32) < 128 ==> !('A' <= query@[j] && query@[j] <= 'Z')),
        decreases cs@.len() - i,
    {
        if is_upper(cs[i]) {
            proof {
                assert(query@[i as int] == cs@[i as int]);
            }
            return true;
        }
        i = i + 1;
    }
    proof {
        if is_ascii_text(query@) {
            assert forall|j: int| 0 <= j < query@.len() implies !('A' <= #[trigger] query@[j] && query@[j] <= 'Z') by {
                assert((query@[j] as u32) < 128);
            }
        }
    }
    false
}

/// A character two columns wide on a terminal: the East Asian wide and
/// fullwidth blocks.
pub open spec fn wide(c: char) -> bool {
    let u = c as u32;
    ||| 0x1100 <= u <= 0x115f
    ||| 0x2e80 <= u <= 0x303e
    ||| 0x3041 <= u <= 0x33ff
    ||| 0x3400 <= u <= 0x4dbf
    ||| 0x4e00 <= u <= 0x9fff
    ||| 0xa000 <= u <= 0xa4cf
    ||| 0xac00 <= u <= 0xd7a3
    ||| 0xf900 <= u <= 0xfaff
    ||| 0xfe30 <= u <= 0xfe4f
    ||| 0xff00 <= u <= 0xff60
    ||| 0xffe0 <= u <= 0xffe6
    ||| 0x1f300 <= u <= 0x1f64f
    ||| 0x1f900 <= u <= 0x1f9ff
    ||| 0x20000 <= u <= 0x3fffd
}

/// Display columns a character takes.
pub open spec fn spec_width(c: char) -> nat {
    if wide(c) {
        2
    } else {
        1
    }
}

/// Display columns a character takes.
pub fn char_width(c: char) -> (w: usize)
    ensures
        w == spec_width(c),
{
    let u = c as u32;
    if (0x1100 <= u && u <= 0x115f) || (0x2e80 <= u && u <= 0x303e) || (0x3041 <= u && u <= 0x33ff)
        || (0x3400 <= u && u <= 0x4dbf) || (0x4e00 <= u && u <= 0x9fff) || (0xa000 <= u && u
        <= 0xa4cf) || (0xac00 <= u && u <= 0xd7a3) || (0xf900 <= u && u <= 0xfaff) || (0xfe30 <= u
        && u <= 0xfe4f) || (0xff00 <= u && u <= 0xff60) || (0xffe0 <= u && u <= 0xffe6) || (0x1f300
        <= u && u <= 0x1f64f) || (0x1f900 <= u && u <= 0x1f9ff) || (0x20000 <= u && u <= 0x3fffd) {
        2
    } else {
        1
    }
}

/// The display column character `i` of `s` starts at.
pub open spec fn column(s: Seq<char>, i: int) -> nat
    decreases i,
{
    if i <= 0 {
        0
    } else {
        column(s, i - 1) + spec_width(s[i - 1])
    }
}

/// Display columns `s` takes. A string holds at most `isize::MAX` bytes, so
/// twice its length in characters still fits a `usize`.
pub fn str_width(s: &str) -> (w: usize)
    requires
        s@.len() <= usize::MAX / 2,
    ensures
        w == column(s@, s@.len() as int),
{
    let n = s.unicode_len();
    let mut w: usize = 0;
    let mut i: usize = 0;
    while i < n
        invariant
            i <= n,
            n == s@.len(),
            n <= usize::MAX / 2,
            w == column(s@, i as int),
            w <= 2 * i,
        decreases n - i,
    {
        w = w + char_width(s.get_char(i));
        i = i + 1;
    }
    w
}

/// Characters of `s` that fit in `cols` display columns: the longest prefix
/// no wider than that.
pub open spec fn fits_in(s: Seq<char>, cols: nat, k: nat) -> bool {
    &&& k <= s.len()
    &&& column(s, k as int) <= cols
    &&& (k < s.len() ==> column(s, k + 1int) > cols)
}

/// Is `s` no wider than `limit` columns? Stops reading at the first
/// character past the limit.
pub fn width_within(s: &str, limit: usize) -> (b: bool)
    ensures
        b == (column(s@, s@.len() as int) <= limit),
{
    let n = s.unicode_len();
    let mut w: usize = 0;
    let mut i: usize = 0;
    while i < n
        invariant
            i <= n,
            n == s@.len(),
            w == column(s@, i as int),
            w <= limit,
        decreases n - i,
    {
        let c = char_width(s.get_char(i));
        if c > limit - w {
            proof {
                super::jsonrow::lemma_column_mono(s@, i + 1, n as int);
            }
            return false;
        }
        w = w + c;
        i = i + 1;
    }
    true
}

/// How wide `s` is, counted no further than `cap` columns: its width when
/// that is less than `cap`, and `cap` otherwise.
pub fn width_upto(s: &str, cap: usize) -> (w: usize)
    ensures
        w == if column(s@, s@.len() as int) < cap {
            column(s@, s@.len() as int)
        } else {
            cap as nat
        },
{
    let n = s.unicode_len();
    let mut w: usize = 0;
    let mut i: usize = 0;
    while i < n
        invariant
            i <= n,
            n == s@.len(),
            w == column(s@, i as int),
            w < cap || (w == cap && i == 0 && cap == 0),
        decreases n - i,
    {
        let c = char_width(s.get_char(i));
        if c >= cap - w {
            proof {
                super::jsonrow::lemma_column_mono(s@, i + 1, n as int);
            }
            return cap;
        }
        w = w + c;
        i = i + 1;
    }
    if w >= cap {
        return cap;
    }
    w
}

/// The longest prefix of `s` no wider than `cols` display columns.
pub fn truncate_width(s: &str, cols: usize) -> (r: &str)
    ensures
        fits_in(s@, cols as nat, r@.len()),
        r@ == s@.subrange(0, r@.len() as int),
{
    let n = s.unicode_len();
    let mut w: usize = 0;
    let mut i: usize = 0;
    while i < n
        invariant
            i <= n,
            n == s@.len(),
            w == column(s@, i as int),
            w <= cols,
        decreases n - i,
    {
        let cw = char_width(s.get_char(i));
        if cw > cols - w {
            return s.substring_char(0, i);
        }
        w = w + cw;
        i = i + 1;
    }
    s.substring_char(0, n)
}

/// The text as it is compared: as it is, or lowercased character by character.
pub open spec fn folded(s: Seq<char>, sensitive: bool) -> Seq<char>
    decreases s.len(),
{
    if sensitive || s.len() == 0 {
        s
    } else {
        folded(s.drop_last(), false) + lowercase(s.last())
    }
}

/// The non-overlapping occurrences of `needle` in `hay` from character `i`
/// on, leftmost first, each as its column range.
pub open spec fn scan(hay: Seq<char>, needle: Seq<char>, i: int) -> Seq<(usize, usize)>
    decreases hay.len() - i,
{
    if needle.len() == 0 || i < 0 || i + needle.len() > hay.len() {
        Seq::empty()
    } else if hay.subrange(i, i + needle.len()) == needle {
        seq![(column(hay, i) as usize, column(hay, i + needle.len()) as usize)] + scan(
            hay,
            needle,
            i + needle.len(),
        )
    } else {
        scan(hay, needle, i + 1)
    }
}

/// Every non-overlapping occurrence of `query` in `text`, as column ranges.
pub open spec fn spec_find_in(text: Seq<char>, query: Seq<char>, sensitive: bool) -> Seq<
    (usize, usize),
> {
    if query.len() == 0 {
        Seq::empty()
    } else {
        scan(folded(text, sensitive), folded(query, sensitive), 0)
    }
}

/// Every non-overlapping occurrence of an ASCII `query` in ASCII `text`, as
/// column ranges, with `A` to `Z` lowered on both sides unless `sensitive`.
pub open spec fn spec_find_ascii(text: Seq<char>, query: Seq<char>, sensitive: bool) -> Seq<(usize, usize)> {
    if query.len() == 0 {
        Seq::empty()
    } else {
        scan(ascii_folded(text, sensitive), ascii_folded(query, sensitive), 0)
    }
}

/// The characters of `s`, lowercased unless `sensitive`.
fn fold_chars(s: &str, sensitive: bool) -> (v: Vec<char>)
    requires
        s@.len() <= usize::MAX / 4,
    ensures
        v@ == folded(s@, sensitive),
        v@.len() <= 3 * s@.len(),
        is_ascii_text(s@) ==> v@ == ascii_folded(s@, sensitive),
{
    let cs = chars_of(s);
    if sensitive {
        return cs;
    }
    let mut out: Vec<char> = Vec::new();
    let mut i: usize = 0;
    proof {
        assert(s@.take(0) =~= Seq::<char>::empty());
    }
    while i < cs.len()
        invariant
            i <= cs@.len(),
            cs@ == s@,
            s@.len() <= usize::MAX / 4,
            out@ == folded(s@.take(i as int), false),
            out@.len() <= 3 * i,
            is_ascii_text(s@) ==> out@ == ascii_folded(s@.take(i as int), false),
        decreases cs@.len() - i,
    {
        let low = lower(cs[i]);
        let ghost pre = out@;
        let mut j: usize = 0;
        let ghost before = out@;
        while j < low.len()
            invariant
                j <= low@.len(),
                low@.len() <= 3,
                out@ == before + low@.take(j as int),
                before.len() <= 3 * i,
                i < cs@.len(),
                s@.len() <= usize::MAX / 4,
            decreases low@.len() - j,
        {
            out.push(low[j]);
            proof {
                assert(low@.take(j + 1) =~= low@.take(j as int).push(low@[j as int]));
            }
            j = j + 1;
        }
        proof {
            assert(low@.take(low@.len() as int) =~= low@);
            assert(s@.take(i + 1).drop_last() =~= s@.take(i as int));
            assert(s@.take(i + 1).last() == cs@[i as int]);
            assert(out@ == pre + low@);
            if is_ascii_text(s@) {
                assert((s@[i as int] as u32) < 128);
                assert(ascii_folded(s@.take(i + 1), false) =~= ascii_folded(s@.take(i as int), false).push(
                    ascii_lower(s@[i as int]),
                ));
                assert(out@ =~= ascii_folded(s@.take(i + 1), false));
            }
        }
        i = i + 1;
    }
    proof {
        assert(s@.take(cs@.len() as int) =~= s@);
        assert(s@.take(0) =~= Seq::<char>::empty());
    }
    out
}

/// Column ranges of every non-overlapping occurrence of `query` in `text`.
pub fn find_in(text: &str, query: &str, sensitive: bool) -> (out: Vec<(usize, usize)>)
    requires
        text@.len() <= usize::MAX / 8,
        query@.len() <= usize::MAX / 8,
    ensures
        out@ == spec_find_in(text@, query@, sensitive),
        is_ascii_text(text@) && is_ascii_text(query@) ==> out@ == spec_find_ascii(text@, query@, sensitive),
{
    let mut out: Vec<(usize, usize)> = Vec::new();
    if query.unicode_len() == 0 {
        return out;
    }
    let hay = fold_chars(text, sensitive);
    let needle = fold_chars(query, sensitive);
    let m = needle.len();
    let n = hay.len();
    if m == 0 || m > n {
        proof {
            assert(scan(hay@, needle@, 0) == Seq::<(usize, usize)>::empty());
        }
        return out;
    }
    let mut cols: Vec<usize> = Vec::new();
    let mut col: usize = 0;
    let mut k: usize = 0;
    while k < n
        invariant
            k <= n,
            n == hay@.len(),
            n <= 3 * (usize::MAX / 8),
            cols@.len() == k,
            col == column(hay@, k as int),
            col <= 2 * k,
            forall|j: int| 0 <= j < k ==> #[trigger] cols@[j] == column(hay@, j),
        decreases n - k,
    {
        cols.push(col);
        col = col + char_width(hay[k]);
        k = k + 1;
    }
    cols.push(col);
    let mut i: usize = 0;
    while i + m <= n
        invariant
            0 < m <= n,
            i <= n,
            n <= 3 * (usize::MAX / 8),
            m == needle@.len(),
            n == hay@.len(),
            cols@.len() == n + 1,
            forall|j: int| 0 <= j <= n ==> #[trigger] cols@[j] == column(hay@, j),
            out@ + scan(hay@, needle@, i as int) == scan(hay@, needle@, 0),
        decreases n - i,
    {
        let mut same = true;
        let mut j: usize = 0;
        while j < m
            invariant
                j <= m,
                i + m <= n,
                m == needle@.len(),
                n == hay@.len(),
                same == (forall|t: int| 0 <= t < j ==> hay@[i + t] == #[trigger] needle@[t]),
            decreases m - j,
        {
            if hay[i + j] != needle[j] {
                same = false;
            }
            j = j + 1;
        }
        proof {
            if same {
                assert(hay@.subrange(i as int, i + m) =~= needle@);
            } else {
                let t = choose|t: int| 0 <= t < m && hay@[i + t] != #[trigger] needle@[t];
                assert(hay@.subrange(i as int, i + m)[t] != needle@[t]);
            }
        }
        if same {
            let ghost rest = scan(hay@, needle@, i + m);
            out.push((cols[i], cols[i + m]));
            proof {
                assert(scan(hay@, needle@, i as int) == seq![
                    (column(hay@, i as int) as usize, column(hay@, i + m) as usize),
                ] + rest);
                assert(out@ + rest =~= (out@.drop_last() + scan(hay@, needle@, i as int)));
            }
            i = i + m;
        } else {
            i = i + 1;
        }
    }
    proof {
        assert(scan(hay@, needle@, i as int) == Seq::<(usize, usize)>::empty());
        assert(out@ + Seq::<(usize, usize)>::empty() =~= out@);
    }
    out
}


/// The matches on one line, as `Match`es on line `line`.
pub open spec fn on_row(line: int, ranges: Seq<(usize, usize)>) -> Seq<Match> {
    Seq::new(ranges.len(), |k: int| Match { line: line as usize, start: ranges[k].0, end: ranges[k].1 })
}

/// Every match in the first `k` lines, ordered by line and then column.
pub open spec fn spec_find_all(lines: Seq<String>, query: Seq<char>, k: int) -> Seq<Match>
    decreases k,
{
    if k <= 0 || query.len() == 0 {
        Seq::empty()
    } else {
        spec_find_all(lines, query, k - 1) + on_row(
            k - 1,
            spec_find_in(lines[k - 1]@, query, spec_case_sensitive(query)),
        )
    }
}

/// Every range a scan reports is an occurrence of the needle, at the
/// columns it starts and ends at.
proof fn lemma_scan_occurrence(hay: Seq<char>, needle: Seq<char>, i: int, j: int)
    requires
        0 <= j < scan(hay, needle, i).len(),
    ensures
        exists|p: int|
            #![trigger hay.subrange(p, p + needle.len())]
            i <= p && p + needle.len() <= hay.len() && hay.subrange(p, p + needle.len()) == needle
                && scan(hay, needle, i)[j] == (column(hay, p) as usize, column(hay, p + needle.len()) as usize),
    decreases hay.len() - i,
{
    if needle.len() == 0 || i < 0 || i + needle.len() > hay.len() {
    } else if hay.subrange(i, i + needle.len()) == needle {
        let head = seq![(column(hay, i) as usize, column(hay, i + needle.len()) as usize)];
        let rest = scan(hay, needle, i + needle.len());
        assert(scan(hay, needle, i) == head + rest);
        if j == 0 {
            assert(hay.subrange(i, i + needle.len()) == needle);
        } else {
            lemma_scan_occurrence(hay, needle, i + needle.len(), j - 1);
            assert(scan(hay, needle, i)[j] == rest[j - 1]);
        }
    } else {
        lemma_scan_occurrence(hay, needle, i + 1, j);
    }
}

/// **Smartcase: a query with an uppercase character matches only itself.**
/// Every match [`find_all`] reports for such a query lies on one of the
/// lines and covers text equal to the query character for character, from
/// the column the match starts at to the column it ends at: `Model` finds
/// `Model` and never `model` or `MODEL`.
pub proof fn lemma_uppercase_query_matches_exactly(lines: Seq<String>, query: Seq<char>, j: int)
    requires
        spec_case_sensitive(query),
        lines.len() <= usize::MAX,
        0 <= j < spec_find_all(lines, query, lines.len() as int).len(),
    ensures
        ({
            let m = spec_find_all(lines, query, lines.len() as int)[j];
            let line = lines[m.line as int]@;
            &&& m.line < lines.len()
            &&& exists|p: int|
                #![trigger line.subrange(p, p + query.len())]
                0 <= p && p + query.len() <= line.len() && line.subrange(p, p + query.len()) == query
                    && m.start == column(line, p) as usize && m.end == column(line, p + query.len()) as usize
        }),
{
    lemma_find_all_exact(lines, query, lines.len() as int, j);
}

proof fn lemma_find_all_exact(lines: Seq<String>, query: Seq<char>, k: int, j: int)
    requires
        spec_case_sensitive(query),
        0 <= k <= lines.len(),
        lines.len() <= usize::MAX,
        0 <= j < spec_find_all(lines, query, k).len(),
    ensures
        ({
            let m = spec_find_all(lines, query, k)[j];
            let line = lines[m.line as int]@;
            &&& m.line < k
            &&& exists|p: int|
                #![trigger line.subrange(p, p + query.len())]
                0 <= p && p + query.len() <= line.len() && line.subrange(p, p + query.len()) == query
                    && m.start == column(line, p) as usize && m.end == column(line, p + query.len()) as usize
        }),
    decreases k,
{
    if k <= 0 || query.len() == 0 {
    } else {
        let before = spec_find_all(lines, query, k - 1);
        let text = lines[k - 1]@;
        let ranges = spec_find_in(text, query, spec_case_sensitive(query));
        assert(folded(text, true) == text);
        assert(folded(query, true) == query);
        assert(ranges == scan(text, query, 0));
        if j < before.len() {
            lemma_find_all_exact(lines, query, k - 1, j);
            assert(spec_find_all(lines, query, k)[j] == before[j]);
        } else {
            let t = j - before.len();
            assert(spec_find_all(lines, query, k)[j] == on_row(k - 1, ranges)[t]);
            lemma_scan_occurrence(text, query, 0, t);
            let p = choose|p: int|
                #![trigger text.subrange(p, p + query.len())]
                0 <= p && p + query.len() <= text.len() && text.subrange(p, p + query.len()) == query
                    && scan(text, query, 0)[t] == (column(text, p) as usize, column(text, p + query.len()) as usize);
            let m = spec_find_all(lines, query, k)[j];
            assert(m.line as int == k - 1);
            assert(lines[m.line as int]@ == text);
            assert(text.subrange(p, p + query.len()) == query);
        }
    }
}

/// Every match in the document, ordered by line and then column.
pub fn find_all(lines: &[String], query: &str) -> (out: Vec<Match>)
    requires
        query@.len() <= usize::MAX / 8,
        forall|i: int| 0 <= i < lines@.len() ==> (#[trigger] lines@[i])@.len() <= usize::MAX / 8,
    ensures
        out@ == spec_find_all(lines@, query@, lines@.len() as int),
        is_ascii_text(query@) && (forall|i: int| 0 <= i < lines@.len() ==> is_ascii_text(#[trigger] lines@[i]@))
            ==> out@ == spec_find_all_ascii(lines@, query@, lines@.len() as int),
{
    let mut out: Vec<Match> = Vec::new();
    if query.unicode_len() == 0 {
        return out;
    }
    let sensitive = case_sensitive(query);
    let mut i: usize = 0;
    while i < lines.len()
        invariant
            i <= lines@.len(),
            query@.len() > 0,
            query@.len() <= usize::MAX / 8,
            sensitive == spec_case_sensitive(query@),
            forall|j: int| 0 <= j < lines@.len() ==> (#[trigger] lines@[j])@.len() <= usize::MAX / 8,
            out@ == spec_find_all(lines@, query@, i as int),
            is_ascii_text(query@) ==> sensitive == has_ascii_upper(query@),
            is_ascii_text(query@) && (forall|j: int| 0 <= j < i ==> is_ascii_text(#[trigger] lines@[j]@)) ==> out@
                == spec_find_all_ascii(lines@, query@, i as int),
        decreases lines@.len() - i,
    {
        let found = find_in(lines[i].as_str(), query, sensitive);
        let ghost before = out@;
        let mut k: usize = 0;
        while k < found.len()
            invariant
                k <= found@.len(),
                out@ == before + on_row(i as int, found@.take(k as int)),
            decreases found@.len() - k,
        {
            let (start, end) = found[k];
            out.push(Match { line: i, start, end });
            proof {
                assert(on_row(i as int, found@.take(k + 1)) =~= on_row(i as int, found@.take(k as int)).push(
                    Match { line: i, start, end },
                ));
            }
            k = k + 1;
        }
        proof {
            assert(found@.take(found@.len() as int) =~= found@);
            if is_ascii_text(query@) && (forall|j: int| 0 <= j < i + 1 ==> is_ascii_text(#[trigger] lines@[j]@)) {
                assert(is_ascii_text(lines@[i as int]@));
                assert forall|j: int| 0 <= j < i implies is_ascii_text(#[trigger] lines@[j]@) by {}
            }
        }
        i = i + 1;
    }
    out
}

/// **Smartcase: a query without an uppercase letter ignores case.** Two
/// documents of ASCII lines that differ only in the case of their letters
/// give the same matches, at the same columns, for an ASCII query with no
/// letter from `A` to `Z`: `model` finds `Model`, `model` and `MODEL` alike.
pub proof fn lemma_lowercase_query_ignores_case(a: Seq<String>, b: Seq<String>, query: Seq<char>)
    requires
        !has_ascii_upper(query),
        a.len() == b.len(),
        forall|i: int| 0 <= i < a.len() ==> ascii_folded(#[trigger] a[i]@, false) == ascii_folded(b[i]@, false),
    ensures
        spec_find_all_ascii(a, query, a.len() as int) == spec_find_all_ascii(b, query, b.len() as int),
{
    lemma_ignores_case_upto(a, b, query, a.len() as int);
}

proof fn lemma_ignores_case_upto(a: Seq<String>, b: Seq<String>, query: Seq<char>, k: int)
    requires
        !has_ascii_upper(query),
        a.len() == b.len(),
        k <= a.len(),
        forall|i: int| 0 <= i < a.len() ==> ascii_folded(#[trigger] a[i]@, false) == ascii_folded(b[i]@, false),
    ensures
        spec_find_all_ascii(a, query, k) == spec_find_all_ascii(b, query, k),
    decreases k,
{
    if k > 0 && query.len() > 0 {
        lemma_ignores_case_upto(a, b, query, k - 1);
        assert(ascii_folded(a[k - 1]@, false) == ascii_folded(b[k - 1]@, false));
    }
}

/// Every match in the first `k` ASCII lines for an ASCII query: a query with a
/// letter from `A` to `Z` matches only itself, and any other matches whatever
/// the case of the letters it meets.
pub open spec fn spec_find_all_ascii(lines: Seq<String>, query: Seq<char>, k: int) -> Seq<Match>
    decreases k,
{
    if k <= 0 || query.len() == 0 {
        Seq::empty()
    } else {
        spec_find_all_ascii(lines, query, k - 1) + on_row(
            k - 1,
            spec_find_ascii(lines[k - 1]@, query, has_ascii_upper(query)),
        )
    }
}

/// A match sits after `(line, col)`, or on it when `inclusive`.
pub open spec fn after(m: Match, line: usize, col: usize, inclusive: bool) -> bool {
    m.line > line || (m.line == line && m.start > col) || (inclusive && m.line == line && m.start
        >= col)
}

/// A match sits before `(line, col)`, or on it when `inclusive`.
pub open spec fn before(m: Match, line: usize, col: usize, inclusive: bool) -> bool {
    m.line < line || (m.line == line && m.start < col) || (inclusive && m.line == line && m.start
        <= col)
}

/// `r` is where a forward search from `(line, col)` lands: the first match
/// after the position, or, wrapping, the first match of all.
pub open spec fn seek_forward(ms: Seq<Match>, line: usize, col: usize, inclusive: bool, r: Option<
    (usize, bool),
>) -> bool {
    match r {
        Some((i, false)) => i < ms.len() && after(ms[i as int], line, col, inclusive) && forall|j: int|
            0 <= j < i ==> !after(#[trigger] ms[j], line, col, inclusive),
        Some((i, true)) => i == 0 && forall|j: int|
            0 <= j < ms.len() ==> !after(#[trigger] ms[j], line, col, inclusive),
        None => true,
    }
}

/// `r` is where a backward search from `(line, col)` lands: the last match
/// before the position, or, wrapping, the last match of all.
pub open spec fn seek_backward(ms: Seq<Match>, line: usize, col: usize, inclusive: bool, r: Option<
    (usize, bool),
>) -> bool {
    match r {
        Some((i, false)) => i < ms.len() && before(ms[i as int], line, col, inclusive) && forall|
            j: int,
        |
            i < j < ms.len() ==> !before(#[trigger] ms[j], line, col, inclusive),
        Some((i, true)) => i == ms.len() - 1 && forall|j: int|
            0 <= j < ms.len() ==> !before(#[trigger] ms[j], line, col, inclusive),
        None => true,
    }
}

/// The index of the match after (`Forward`) or before (`Backward`) the
/// position `(line, col)`, and whether the search wrapped around the document
/// to find it. `matches` is in document order, as [`find_all`] makes it.
pub fn seek(matches: &[Match], line: usize, col: usize, dir: Dir, inclusive: bool) -> (r: Option<
    (usize, bool),
>)
    ensures
        matches@.len() == 0 <==> r is None,
        dir == Dir::Forward ==> seek_forward(matches@, line, col, inclusive, r),
        dir == Dir::Backward ==> seek_backward(matches@, line, col, inclusive, r),
{
    let n = matches.len();
    if n == 0 {
        return None;
    }
    match dir {
        Dir::Forward => {
            let mut i: usize = 0;
            while i < n
                invariant
                    dir == Dir::Forward,
                    i <= n,
                    n == matches@.len(),
                    forall|j: int| 0 <= j < i ==> !after(#[trigger] matches@[j], line, col, inclusive),
                decreases n - i,
            {
                let m = matches[i];
                if m.line > line || (m.line == line && m.start > col) || (inclusive && m.line == line
                    && m.start >= col) {
                    return Some((i, false));
                }
                i = i + 1;
            }
            Some((0, true))
        },
        Dir::Backward => {
            let mut i: usize = n;
            while i > 0
                invariant
                    dir == Dir::Backward,
                    i <= n,
                    n == matches@.len(),
                    forall|j: int| i <= j < n ==> !before(#[trigger] matches@[j], line, col, inclusive),
                decreases i,
            {
                let m = matches[i - 1];
                if m.line < line || (m.line == line && m.start < col) || (inclusive && m.line == line
                    && m.start <= col) {
                    return Some((i - 1, false));
                }
                i = i - 1;
            }
            Some((n - 1, true))
        },
    }
}

/// The column ranges of the matches on `line`, in order.
pub open spec fn spec_on_line(matches: Seq<Match>, line: usize) -> Seq<(usize, usize)>
    decreases matches.len(),
{
    if matches.len() == 0 {
        Seq::empty()
    } else {
        let rest = spec_on_line(matches.drop_last(), line);
        if matches.last().line == line {
            rest.push((matches.last().start, matches.last().end))
        } else {
            rest
        }
    }
}

/// The matches that fall on `line`, as `(start, end)` column ranges.
pub fn on_line(matches: &[Match], line: usize) -> (r: Vec<(usize, usize)>)
    ensures
        r@ == spec_on_line(matches@, line),
{
    let mut out: Vec<(usize, usize)> = Vec::new();
    let mut i: usize = 0;
    while i < matches.len()
        invariant
            i <= matches@.len(),
            out@ == spec_on_line(matches@.take(i as int), line),
        decreases matches@.len() - i,
    {
        let m = matches[i];
        proof {
            assert(matches@.take(i + 1).drop_last() =~= matches@.take(i as int));
            assert(matches@.take(i + 1).last() == m);
        }
        if m.line == line {
            out.push((m.start, m.end));
        }
        i = i + 1;
    }
    proof {
        assert(matches@.take(matches@.len() as int) =~= matches@);
    }
    out
}

/// Where a sweep's `k`th probe would land before wrapping: the record after
/// (or before) `start`, or `start` itself when the sweep is inclusive, then
/// one record further in `dir` for each probe.
pub open spec fn sweep_raw(start: int, dir: Dir, inclusive: bool, k: int) -> int {
    let step: int = match dir {
        Dir::Forward => 1,
        Dir::Backward => -1,
    };
    let first: int = if inclusive {
        start
    } else {
        start + step
    };
    match dir {
        Dir::Forward => first + k,
        Dir::Backward => first - k,
    }
}

/// The record a sweep over `n` records probes `k`th: it wraps round the ends.
pub open spec fn sweep_at(n: int, start: int, dir: Dir, inclusive: bool, k: int) -> int {
    sweep_raw(start, dir, inclusive, k) % n
}

/// Whether the sweep had wrapped round an end by its `k`th probe.
pub open spec fn sweep_wrapped(n: int, start: int, dir: Dir, inclusive: bool, k: int) -> bool {
    let r = sweep_raw(start, dir, inclusive, k);
    r < 0 || r >= n
}

/// How many probes a sweep makes at most: one per record up to `limit`, and
/// one more, so an inclusive sweep over every record comes back to its start.
pub open spec fn sweep_probes(n: int, limit: int) -> int {
    (if limit < n {
        limit
    } else {
        n
    }) + 1
}

/// One step round a ring of `n`: the remainder moves by one and wraps.
proof fn lemma_ring_step(r: int, n: int)
    requires
        n > 0,
    ensures
        (r + 1) % n == if r % n + 1 == n {
            0
        } else {
            r % n + 1
        },
        (r - 1) % n == if r % n == 0 {
            n - 1
        } else {
            r % n - 1
        },
{
    vstd::arithmetic::div_mod::lemma_add_mod_noop(r, 1, n);
    vstd::arithmetic::div_mod::lemma_sub_mod_noop(r, 1, n);
    vstd::arithmetic::div_mod::lemma_mod_self_0(n);
    vstd::arithmetic::div_mod::lemma_mod_add_multiples_vanish(-1, n);
    vstd::arithmetic::div_mod::lemma_mod_add_multiples_vanish(r % n - 1, n);
    if n > 1 {
        vstd::arithmetic::div_mod::lemma_small_mod(1, n as nat);
    } else {
        assert(1int % 1int == 0) by (nonlinear_arith);
    }
    if r % n + 1 < n {
        vstd::arithmetic::div_mod::lemma_small_mod((r % n + 1) as nat, n as nat);
    }
    if r % n > 0 {
        vstd::arithmetic::div_mod::lemma_small_mod((r % n - 1) as nat, n as nat);
    }
    vstd::arithmetic::div_mod::lemma_small_mod((n - 1) as nat, n as nat);
}

/// **A sweep that may read every record reaches each one**: among its first
/// `n` probes every record of the `n` is probed, whichever way it runs and
/// wherever it starts, so a hit anywhere in reach is found.
pub proof fn lemma_sweep_reaches_all(n: int, start: int, dir: Dir, inclusive: bool, r: int)
    requires
        0 <= start < n,
        0 <= r < n,
    ensures
        exists|k: int| 0 <= k < n && #[trigger] sweep_at(n, start, dir, inclusive, k) == r,
{
    let first = sweep_raw(start, dir, inclusive, 0);
    let k = match dir {
        Dir::Forward => (r - first) % n,
        Dir::Backward => (first - r) % n,
    };
    vstd::arithmetic::div_mod::lemma_mod_bound(r - first, n);
    vstd::arithmetic::div_mod::lemma_mod_bound(first - r, n);
    match dir {
        Dir::Forward => {
            assert(sweep_raw(start, dir, inclusive, k) == first + k);
            vstd::arithmetic::div_mod::lemma_add_mod_noop_right(first, r - first, n);
            vstd::arithmetic::div_mod::lemma_small_mod(r as nat, n as nat);
            assert(first + (r - first) == r);
        },
        Dir::Backward => {
            assert(sweep_raw(start, dir, inclusive, k) == first - k);
            vstd::arithmetic::div_mod::lemma_sub_mod_noop_right(first, first - r, n);
            vstd::arithmetic::div_mod::lemma_small_mod(r as nat, n as nat);
            assert(first - (first - r) == r);
        },
    }
    assert(sweep_at(n, start, dir, inclusive, k) == r);
}

/// What a sweep over `n` records from `start` came to: the record of the
/// first probe that `hits` said yes to, and whether the sweep had wrapped to
/// reach it, after a no from every probe before it; or a no from every probe
/// it makes.
pub open spec fn swept<F: Fn(usize) -> bool>(
    r: Option<(usize, bool)>,
    n: int,
    start: int,
    dir: Dir,
    inclusive: bool,
    limit: int,
    hits: F,
) -> bool {
    match r {
        Some((record, wrapped)) => exists|k: int|
            0 <= k < sweep_probes(n, limit) && record == sweep_at(n, start, dir, inclusive, k)
                && wrapped == sweep_wrapped(n, start, dir, inclusive, k) && call_ensures(hits, (record,), true)
                && forall|j: int| 0 <= j < k ==> call_ensures(hits, ((sweep_at(n, start, dir, inclusive, j)) as usize,), false),
        None => forall|k: int|
            0 <= k < sweep_probes(n, limit) ==> call_ensures(hits, ((sweep_at(n, start, dir, inclusive, k)) as usize,), false),
    }
}

/// Look for a hit from record `start` of `n`, one record at a time in `dir`,
/// wrapping round the ends, and at most one probe more than `limit` (or than
/// `n`, where that is less): a hit further away is reported as none rather
/// than as a freeze. The first probe is `start` itself when `inclusive`, the
/// record beside it otherwise. Gives the record of the first probe that
/// `hits`, and whether the sweep had wrapped to reach it.
pub fn sweep<F: Fn(usize) -> bool>(n: usize, start: usize, dir: Dir, inclusive: bool, limit: usize, hits: F) -> (r: Option<(usize, bool)>)
    requires
        start < n,
        forall|i: usize| i < n ==> call_requires(hits, (i,)),
    ensures
        swept(r, n as int, start as int, dir, inclusive, limit as int, hits),
{
    let forward = match dir {
        Dir::Forward => true,
        Dir::Backward => false,
    };
    let probes: usize = if limit < n {
        limit
    } else {
        n
    };
    let ghost first: int = sweep_raw(start as int, dir, inclusive, 0);
    let mut record: usize = start;
    let mut wrapped = false;
    if !inclusive {
        proof {
            lemma_ring_step(start as int, n as int);
            vstd::arithmetic::div_mod::lemma_small_mod(start as nat, n as nat);
        }
        if forward {
            if record + 1 == n {
                record = 0;
                wrapped = true;
            } else {
                record = record + 1;
            }
        } else {
            if record == 0 {
                record = n - 1;
                wrapped = true;
            } else {
                record = record - 1;
            }
        }
    } else {
        proof {
            vstd::arithmetic::div_mod::lemma_small_mod(start as nat, n as nat);
        }
    }
    let mut k: usize = 0;
    loop
        invariant
            start < n,
            forall|i: usize| i < n ==> call_requires(hits, (i,)),
            forward == (dir == Dir::Forward),
            probes as int + 1 == sweep_probes(n as int, limit as int),
            probes <= n,
            k <= probes,
            first == sweep_raw(start as int, dir, inclusive, 0),
            record < n,
            record as int == sweep_at(n as int, start as int, dir, inclusive, k as int),
            wrapped == sweep_wrapped(n as int, start as int, dir, inclusive, k as int),
            forall|j: int| 0 <= j < k ==> call_ensures(hits, ((sweep_at(n as int, start as int, dir, inclusive, j)) as usize,), false),
        decreases probes - k,
    {
        if hits(record) {
            return Some((record, wrapped));
        }
        if k == probes {
            assert forall|j: int| 0 <= j < sweep_probes(n as int, limit as int) implies call_ensures(hits, ((sweep_at(n as int, start as int, dir, inclusive, j)) as usize,), false) by {}
            return None;
        }
        let ghost raw: int = sweep_raw(start as int, dir, inclusive, k as int);
        proof {
            lemma_ring_step(raw, n as int);
            if 0 <= raw < n {
                vstd::arithmetic::div_mod::lemma_small_mod(raw as nat, n as nat);
            }
            assert(sweep_raw(start as int, dir, inclusive, k + 1) == if forward {
                raw + 1
            } else {
                raw - 1
            });
        }
        if forward {
            if record + 1 == n {
                record = 0;
                wrapped = true;
            } else {
                record = record + 1;
            }
        } else {
            if record == 0 {
                record = n - 1;
                wrapped = true;
            } else {
                record = record - 1;
            }
        }
        k = k + 1;
    }
}

} // verus!
