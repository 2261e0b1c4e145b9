//! How a line of a plain text file is painted.
//!
//! A tab is expanded to the next [`TAB`]-column stop rather than dotted: a
//! Makefile, a Go file and an indented shell script are mostly tabs, and the
//! terminal itself would advance to the stop. Every other control character is
//! shown as [`CONTROL`], because a `\x1b` painted raw would let a document
//! repaint the screen. Everything else is left as it is.
use vstd::prelude::*;

use super::jsonrow::{decimal, push_decimal};
use super::search::{
    ascii_lower, case_sensitive, char_width, is_ascii_text, spec_case_sensitive, spec_width, sweep, swept, Dir,
};
use super::types::End;
use vstd::utf8::{encode_scalar, encode_utf8, has_width_1_encoding, has_width_2_encoding, has_width_3_encoding};

verus! {

/// Columns between tab stops.
pub const TAB: usize = 8;

/// What a control character is painted as.
pub const CONTROL: char = '\u{b7}';

/// The Unicode general category `Cc`: U+0000 to U+001F and U+007F to U+009F.
pub open spec fn spec_is_control(c: char) -> bool {
    (c as u32) < 0x20 || (0x7f <= (c as u32) && (c as u32) <= 0x9f)
}

/// Whether `c` is a control character (general category `Cc`).
pub fn is_control(c: char) -> (b: bool)
    ensures
        b == spec_is_control(c),
{
    let u = c as u32;
    u < 0x20 || (0x7f <= u && u <= 0x9f)
}

/// `n` spaces.
pub open spec fn spaces(n: nat) -> Seq<char> {
    Seq::new(n, |i: int| ' ')
}

/// Append `n` spaces to `s`.
pub fn push_spaces(s: &mut String, n: usize)
    ensures
        final(s)@ == old(s)@ + spaces(n as nat),
{
    let ghost start = s@;
    let mut k: usize = 0;
    while k < n
        invariant
            k <= n,
            s@ == start + spaces(k as nat),
        decreases n - k,
    {
        proof {
            reveal_strlit(" ");
        }
        s.append(" ");
        proof {
            assert(s@ =~= start + spaces((k + 1) as nat));
        }
        k = k + 1;
    }
}

/// One character painted after the painted text `acc.0`, whose width in
/// columns is `acc.1`.
pub open spec fn paint_step(acc: (Seq<char>, nat), c: char) -> (Seq<char>, nat) {
    if c == '\t' {
        let stop = (TAB - acc.1 % (TAB as nat)) as nat;
        (acc.0 + spaces(stop), acc.1 + stop)
    } else if spec_is_control(c) {
        (acc.0.push(CONTROL), acc.1 + 1)
    } else {
        (acc.0.push(c), acc.1 + spec_width(c))
    }
}

/// The first `i` characters of `s` painted, and the columns they take.
pub open spec fn painted(s: Seq<char>, i: nat) -> (Seq<char>, nat)
    decreases i,
{
    if i == 0 || i > s.len() {
        (Seq::empty(), 0)
    } else {
        paint_step(painted(s, (i - 1) as nat), s[i - 1])
    }
}

/// A line as it is painted.
pub open spec fn spec_display(s: Seq<char>) -> Seq<char> {
    painted(s, s.len()).0
}

/// One line as it is painted: tabs to the next [`TAB`] stop, every other
/// control character as [`CONTROL`], everything else untouched.
pub fn display(raw: &str) -> (out: String)
    ensures
        out@ == spec_display(raw@),
{
    let n = raw.unicode_len();
    let mut out = String::from_str("");
    // The column modulo the tab width: all a tab needs to know.
    let mut m: usize = 0;
    let mut i: usize = 0;
    proof {
        reveal_strlit("");
        reveal_strlit(" ");
    }
    while i < n
        invariant
            i <= n,
            n == raw@.len(),
            out@ == painted(raw@, i as nat).0,
            m == painted(raw@, i as nat).1 % (TAB as nat),
        decreases n - i,
    {
        let c = raw.get_char(i);
        let ghost acc = painted(raw@, i as nat);
        proof {
            reveal_strlit(" ");
            reveal_strlit("\u{b7}");
        }
        if c == '\t' {
            let stop = TAB - m;
            let mut k: usize = 0;
            while k < stop
                invariant
                    k <= stop,
                    stop <= TAB,
                    out@ == acc.0 + spaces(k as nat),
                decreases stop - k,
            {
                proof {
                    reveal_strlit(" ");
                }
                out.append(" ");
                proof {
                    assert(out@ =~= acc.0 + spaces((k + 1) as nat));
                }
                k = k + 1;
            }
            proof {
                assert((acc.1 + stop as int) % 8 == 0) by {
                    vstd::arithmetic::div_mod::lemma_fundamental_div_mod(acc.1 as int, TAB as int);
                    vstd::arithmetic::div_mod::lemma_mod_multiples_basic(acc.1 as int / 8 + 1, 8);
                }
            }
            m = 0;
        } else if is_control(c) {
            out.append("\u{b7}");
            proof {
                assert(out@ =~= acc.0.push(CONTROL));
                vstd::arithmetic::div_mod::lemma_add_mod_noop(acc.1 as int, 1, 8);
            }
            m = (m + 1) % TAB;
        } else {
            let one = raw.substring_char(i, i + 1);
            out.append(one);
            let w = char_width(c);
            proof {
                assert(one@ =~= seq![c]);
                assert(out@ =~= acc.0.push(c));
                vstd::arithmetic::div_mod::lemma_add_mod_noop(acc.1 as int, w as int, 8);
            }
            m = (m + w) % TAB;
        }
        proof {
            assert(painted(raw@, (i + 1) as nat) == paint_step(acc, raw@[i as int]));
        }
        i = i + 1;
    }
    out
}

/// A line with every control character shown as [`CONTROL`]: the shared
/// sanitiser, so a document can never write an escape sequence to the screen.
pub open spec fn spec_visible(s: Seq<char>) -> Seq<char> {
    s.map_values(|c: char| if spec_is_control(c) { CONTROL } else { c })
}

/// The line with every control character shown as [`CONTROL`].
pub fn visible(s: &str) -> (out: String)
    ensures
        out@ == spec_visible(s@),
{
    let n = s.unicode_len();
    let mut out = String::from_str("");
    let mut i: usize = 0;
    proof {
        reveal_strlit("");
    }
    while i < n
        invariant
            i <= n,
            n == s@.len(),
            out@ == spec_visible(s@.take(i as int)),
        decreases n - i,
    {
        let c = s.get_char(i);
        proof {
            reveal_strlit("\u{b7}");
            assert(s@.take(i + 1) =~= s@.take(i as int).push(c));
        }
        if is_control(c) {
            out.append("\u{b7}");
        } else {
            out.append(s.substring_char(i, i + 1));
        }
        proof {
            assert(out@ =~= spec_visible(s@.take(i + 1)));
        }
        i = i + 1;
    }
    proof {
        assert(s@.take(n as int) =~= s@);
    }
    out
}

/// Bytes `c` takes in UTF-8.
pub open spec fn spec_utf8_len(c: char) -> nat {
    let u = c as u32;
    if u < 0x80 {
        1
    } else if u < 0x800 {
        2
    } else if u < 0x10000 {
        3
    } else {
        4
    }
}

/// Bytes `c` takes in UTF-8.
pub fn utf8_len(c: char) -> (n: usize)
    ensures
        n == spec_utf8_len(c),
{
    let u = c as u32;
    if u < 0x80 {
        1
    } else if u < 0x800 {
        2
    } else if u < 0x10000 {
        3
    } else {
        4
    }
}

/// Bytes `s` takes in UTF-8.
pub open spec fn bytes_of(s: Seq<char>) -> nat {
    encode_utf8(s).len()
}

/// Encoding two runs of characters one after the other is encoding each.
pub proof fn lemma_encode_concat(a: Seq<char>, b: Seq<char>)
    ensures
        encode_utf8(a + b) == encode_utf8(a) + encode_utf8(b),
    decreases a.len(),
{
    if a.len() == 0 {
        assert(a + b =~= b);
        assert(encode_utf8(a) =~= Seq::<u8>::empty());
        assert(encode_utf8(a) + encode_utf8(b) =~= encode_utf8(b));
    } else {
        lemma_encode_concat(a.drop_first(), b);
        assert((a + b).drop_first() =~= a.drop_first() + b);
        assert((a + b)[0] == a[0]);
        assert(encode_utf8(a + b) =~= encode_scalar(a[0] as u32) + encode_utf8(a.drop_first() + b));
        assert(encode_utf8(a) =~= encode_scalar(a[0] as u32) + encode_utf8(a.drop_first()));
    }
}

/// One more character is its UTF-8 length more bytes.
pub proof fn lemma_bytes_push(s: Seq<char>, c: char)
    ensures
        bytes_of(s.push(c)) == bytes_of(s) + spec_utf8_len(c),
{
    lemma_encode_concat(s, seq![c]);
    assert(s.push(c) =~= s + seq![c]);
    assert(seq![c].drop_first() =~= Seq::<char>::empty());
    assert(encode_utf8(seq![c]) =~= encode_scalar(c as u32) + encode_utf8(Seq::<char>::empty()));
    assert(encode_utf8(Seq::<char>::empty()) =~= Seq::<u8>::empty());
    let u = c as u32;
    assert(vstd::utf8::is_scalar(u)) by {
        vstd::utf8::char_is_scalar(c);
    }
    if has_width_1_encoding(u) {
    } else if has_width_2_encoding(u) {
    } else if has_width_3_encoding(u) {
    } else {
    }
}

/// The first `i` characters of a line with no control character paint as
/// themselves.
proof fn lemma_plain_prefix(s: Seq<char>, i: nat)
    requires
        i <= s.len(),
        forall|k: int| 0 <= k < s.len() ==> !spec_is_control(#[trigger] s[k]),
    ensures
        painted(s, i).0 == s.take(i as int),
    decreases i,
{
    if i == 0 {
        assert(s.take(0) =~= Seq::<char>::empty());
    } else {
        lemma_plain_prefix(s, (i - 1) as nat);
        let c = s[i - 1];
        assert(c != '\t');
        assert(s.take(i as int) =~= s.take(i - 1).push(c));
    }
}

/// **Only control characters are changed.** A line with none is painted
/// exactly as it is, and the sanitiser leaves it alone too.
pub proof fn lemma_plain_is_unchanged(s: Seq<char>)
    requires
        forall|k: int| 0 <= k < s.len() ==> !spec_is_control(#[trigger] s[k]),
    ensures
        spec_display(s) == s,
        spec_visible(s) == s,
{
    lemma_plain_prefix(s, s.len());
    assert(s.take(s.len() as int) =~= s);
    assert(spec_visible(s) =~= s);
}

/// **The sanitiser changes characters one for one**: a line keeps its length,
/// and nothing it shows is a control character.
pub proof fn lemma_visible_is_clean(s: Seq<char>)
    ensures
        spec_visible(s).len() == s.len(),
        forall|k: int| 0 <= k < s.len() ==> !spec_is_control(#[trigger] spec_visible(s)[k]),
{
}

/// No painted prefix holds a control character.
proof fn lemma_painted_clean(s: Seq<char>, i: nat)
    ensures
        forall|k: int| 0 <= k < painted(s, i).0.len() ==> !spec_is_control(#[trigger] painted(s, i).0[k]),
    decreases i,
{
    if i > 0 && i <= s.len() {
        lemma_painted_clean(s, (i - 1) as nat);
        let acc = painted(s, (i - 1) as nat);
        let c = s[i - 1];
        let out = paint_step(acc, c).0;
        assert forall|k: int| 0 <= k < out.len() implies !spec_is_control(#[trigger] out[k]) by {
            if k < acc.0.len() {
                assert(out[k] == acc.0[k]);
            }
        }
    }
}

/// **Nothing painted is a control character**: a document can never write an
/// escape sequence to the screen through a line of text.
pub proof fn lemma_display_is_clean(s: Seq<char>)
    ensures
        forall|k: int| 0 <= k < spec_display(s).len() ==> !spec_is_control(#[trigger] spec_display(s)[k]),
{
    lemma_painted_clean(s, s.len());
}

/// Lines one search sweep reads before giving up: a sweep must fit inside a
/// keystroke, so search covers the neighbourhood of the cursor rather than a
/// whole multi-gigabyte file.
pub const SEARCH_LINES: usize = 20_000;

/// The line the cursor is on, counted from 1, of `known` lines: none of
/// none.
pub open spec fn current_line(row: nat, known: nat) -> nat {
    if known == 0 {
        0
    } else if row < known {
        row + 1
    } else {
        known
    }
}

/// The status bar's position in a text file: how far through the file and
/// `line N/M` once the index has read it all, and `line N/≥M` with how far
/// the index got while it is still reading, since a share of a total that is
/// still growing would move backwards under the reader.
pub open spec fn spec_position_text(row: nat, known: nat, complete: bool, percent: u8) -> Seq<char> {
    let cur = current_line(row, known);
    if !complete {
        "line "@ + decimal(cur) + "/\u{2265}"@ + decimal(known) + " (indexing "@ + decimal(percent as nat) + "%)"@
    } else {
        let pct: nat = if known <= 1 {
            100
        } else {
            ((cur - 1) * 100 / (known - 1)) as nat
        };
        decimal(pct) + "%  \u{b7}  line "@ + decimal(cur) + "/"@ + decimal(known)
    }
}

/// The status bar's position in a text file: [`spec_position_text`].
pub fn position_text(row: usize, known: usize, complete: bool, percent: u8) -> (s: String)
    ensures
        s@ == spec_position_text(row as nat, known as nat, complete, percent),
{
    proof {
        reveal_strlit("line ");
        reveal_strlit("/\u{2265}");
        reveal_strlit(" (indexing ");
        reveal_strlit("%)");
        reveal_strlit("%  \u{b7}  line ");
        reveal_strlit("/");
    }
    let cur: usize = if known == 0 {
        0
    } else if row < known {
        row + 1
    } else {
        known
    };
    if !complete {
        let mut s = String::from_str("line ");
        push_decimal(&mut s, cur);
        s.append("/\u{2265}");
        push_decimal(&mut s, known);
        s.append(" (indexing ");
        push_decimal(&mut s, percent as usize);
        s.append("%)");
        return s;
    }
    let pct: usize = if known <= 1 {
        100
    } else {
        let wide: u128 = ((cur - 1) as u128) * 100 / ((known - 1) as u128);
        proof {
            assert((cur - 1) * 100 / (known - 1) <= 100) by (nonlinear_arith)
                requires
                    1 <= cur <= known,
                    known > 1,
            ;
        }
        wide as usize
    };
    let mut s = String::from_str("");
    proof {
        reveal_strlit("");
    }
    push_decimal(&mut s, pct);
    s.append("%  \u{b7}  line ");
    push_decimal(&mut s, cur);
    s.append("/");
    push_decimal(&mut s, known);
    s
}

/// `G` in a text file: the last line once the index has read the whole
/// file, and how far it got until then, since there is no honest answer
/// before.
pub fn end(lines: usize, complete: bool, percent: u8) -> (e: End)
    ensures
        e == if complete {
            End::At(if lines > 0 {
                (lines - 1) as usize
            } else {
                0
            })
        } else {
            End::Scanning(percent)
        },
{
    if !complete {
        return End::Scanning(percent);
    }
    End::At(lines.saturating_sub(1))
}

/// `str::to_lowercase`'s result: the whole text lowercased from the Unicode
/// tables, `Σ` at the end of a word included.
pub uninterp spec fn lowercase_text(s: Seq<char>) -> Seq<char>;

/// `str::to_lowercase`: the text lowercased by the Unicode tables, as a
/// function of the text alone. Of ASCII text it lowers `A` to `Z` and leaves
/// every other character, as its documentation says.
#[verifier::external_body]
fn lower_text(s: &str) -> (t: String)
    ensures
        t@ == lowercase_text(s@),
        is_ascii_text(s@) ==> t@ == s@.map_values(|c: char| ascii_lower(c)),
{
    s.to_lowercase()
}

/// `needle` occurs somewhere in `hay`.
pub open spec fn occurs(hay: Seq<char>, needle: Seq<char>) -> bool {
    exists|i: int| 0 <= i && i + needle.len() <= hay.len() && #[trigger] hay.subrange(i, i + needle.len()) == needle
}

/// Does `needle` occur in `hay`? The characters compared one for one, which
/// for UTF-8 text is the byte comparison the standard library makes.
fn contains(hay: &str, needle: &str) -> (b: bool)
    ensures
        b == occurs(hay@, needle@),
{
    let n = hay.unicode_len();
    let m = needle.unicode_len();
    if m > n {
        return false;
    }
    let mut i: usize = 0;
    while i <= n - m
        invariant
            n == hay@.len(),
            m == needle@.len(),
            m <= n,
            i <= n - m + 1,
            forall|j: int| 0 <= j < i ==> #[trigger] hay@.subrange(j, j + m) != needle@,
        decreases n - i,
    {
        let mut same = true;
        let mut k: usize = 0;
        while k < m
            invariant
                k <= m,
                i + m <= n,
                n == hay@.len(),
                m == needle@.len(),
                same == (forall|t: int| 0 <= t < k ==> hay@[i + t] == #[trigger] needle@[t]),
            decreases m - k,
        {
            if hay.get_char(i + k) != needle.get_char(k) {
                same = false;
            }
            k = k + 1;
        }
        if same {
            proof {
                assert(hay@.subrange(i as int, i + m) =~= needle@);
            }
            return true;
        }
        proof {
            let t = choose|t: int| 0 <= t < m && hay@[i + t] != #[trigger] needle@[t];
            assert(hay@.subrange(i as int, i + m)[t] != needle@[t]);
        }
        i = i + 1;
    }
    proof {
        assert forall|j: int| 0 <= j && j + m <= n implies #[trigger] hay@.subrange(j, j + m) != needle@ by {
            assert(j < i);
        }
    }
    false
}

/// What a query is compared as: itself when it is case-sensitive (it holds
/// an uppercase character), and lowercased otherwise.
pub open spec fn spec_needle(query: Seq<char>) -> (Seq<char>, bool) {
    if spec_case_sensitive(query) {
        (query, true)
    } else {
        (lowercase_text(query), false)
    }
}

/// The needle a query is swept for, and whether it is case-sensitive:
/// [`spec_needle`], worked out once per search rather than once per line.
pub fn needle_of(query: &str) -> (r: (String, bool))
    ensures
        r.0@ == spec_needle(query@).0,
        r.1 == spec_needle(query@).1,
{
    let sensitive = case_sensitive(query);
    if sensitive {
        (query.to_string(), true)
    } else {
        (lower_text(query), false)
    }
}

/// Does a line match? Its source text, lowercased unless the search is
/// case-sensitive, holds the needle: so a hit off the right-hand side of the
/// viewport still lands on the right line, and a tab in the file matches a
/// tab in the query.
pub fn line_hits(text: &str, needle: &str, sensitive: bool) -> (b: bool)
    ensures
        b == occurs(
            if sensitive {
                text@
            } else {
                lowercase_text(text@)
            },
            needle@,
        ),
{
    if sensitive {
        contains(text, needle)
    } else {
        let low = lower_text(text);
        contains(low.as_str(), needle)
    }
}

/// A search sweep over the `lines` lines of a text file from line `from`
/// (past the last line, from the last): nothing for an empty query or an
/// empty file, and otherwise [`sweep`] from there, reading at most
/// [`SEARCH_LINES`] lines, `hits` telling whether a line matches.
pub fn sweep_lines<F: Fn(usize) -> bool>(query: &str, lines: usize, from: usize, dir: Dir, inclusive: bool, hits: F) -> (r:
    Option<(usize, bool)>)
    requires
        forall|i: usize| i < lines ==> call_requires(hits, (i,)),
    ensures
        query@.len() == 0 || lines == 0 ==> r is None,
        query@.len() > 0 && lines > 0 ==> swept(
            r,
            lines as int,
            if from < lines {
                from as int
            } else {
                lines - 1
            },
            dir,
            inclusive,
            SEARCH_LINES as int,
            hits,
        ),
{
    if query.unicode_len() == 0 || lines == 0 {
        return None;
    }
    let start = if from < lines {
        from
    } else {
        lines - 1
    };
    let r = sweep(lines, start, dir, inclusive, SEARCH_LINES, hits);
    proof {
        assert(start as int == (if from < lines {
            from as int
        } else {
            lines - 1
        }));
    }
    r
}

} // verus!
