//! The vocabulary both JSON sources speak about tree rows: fold ids, path
//! steps, and the notes a row shows instead of a value.
//!
//! A fold id is a `/`-separated path of *member indices* from the root: `/0/3`
//! is member 3 of member 0, and the root itself is the empty string. Indices
//! rather than keys, because duplicate keys are kept and a fold id has to be
//! unique. A record file's root is the implicit list of records, so record 4 is
//! `/4`.
use vstd::prelude::*;

use super::search::{column, fits_in, truncate_width, width_within};
use super::text::{push_spaces, spaces};
use crate::json::value::{lemma_member_decreases, Member, Value};

verus! {

/// Display columns one level of nesting indents by.
pub const INDENT: usize = 2;

/// The fold id that marks a state whose default is open.
pub const ALL_OPEN: &'static str = "*";

/// Columns a single scalar may occupy on its row before it is cut.
pub const MAX_VALUE: usize = 4096;

/// The deepest container either source will open.
pub const MAX_DEPTH: usize = 256;

/// Levels of nesting the indent keeps growing for.
pub const MAX_INDENT: usize = 64;

/// What a JSON value is, as far as a tree row needs to know: a container that
/// opens, or one of the four kinds of scalar.
#[derive(Clone, Copy, Debug, PartialEq, Eq, Structural)]
pub enum Shape {
    Object,
    Array,
    Str,
    Number,
    Bool,
    Null,
}

impl Shape {
    /// An object or an array: something with members, and so something a fold
    /// can open.
    pub open spec fn spec_is_container(self) -> bool {
        self is Object || self is Array
    }

    /// The opening and closing bracket of a container.
    pub open spec fn spec_brackets(self) -> (Seq<char>, Seq<char>) {
        match self {
            Shape::Object => (seq!['{'], seq!['}']),
            _ => (seq!['['], seq![']']),
        }
    }

    /// What a container counts, singular for one and plural otherwise.
    pub open spec fn spec_unit(self, n: nat) -> Seq<char> {
        match (self, n == 1) {
            (Shape::Object, true) => seq!['k', 'e', 'y'],
            (Shape::Object, false) => seq!['k', 'e', 'y', 's'],
            (_, true) => seq!['i', 't', 'e', 'm'],
            (_, false) => seq!['i', 't', 'e', 'm', 's'],
        }
    }

    /// An object or an array.
    pub fn is_container(self) -> (b: bool)
        ensures
            b == self.spec_is_container(),
    {
        match self {
            Shape::Object | Shape::Array => true,
            _ => false,
        }
    }

    /// `{` and `}` for an object, `[` and `]` for an array.
    pub fn brackets(self) -> (r: (&'static str, &'static str))
        requires
            self.spec_is_container(),
        ensures
            r.0@ == self.spec_brackets().0,
            r.1@ == self.spec_brackets().1,
    {
        proof {
            reveal_strlit("{");
            reveal_strlit("}");
            reveal_strlit("[");
            reveal_strlit("]");
        }
        match self {
            Shape::Object => ("{", "}"),
            _ => ("[", "]"),
        }
    }

    /// `key` or `keys`, `item` or `items`.
    pub fn unit(self, n: usize) -> (u: &'static str)
        requires
            self.spec_is_container(),
        ensures
            u@ == self.spec_unit(n as nat),
    {
        proof {
            reveal_strlit("key");
            reveal_strlit("keys");
            reveal_strlit("item");
            reveal_strlit("items");
        }
        match (self, n == 1) {
            (Shape::Object, true) => "key",
            (Shape::Object, false) => "keys",
            (_, true) => "item",
            (_, false) => "items",
        }
    }
}

/// The gutter in front of a row: a fold marker, or the two columns that keep a
/// leaf lined up with its foldable siblings.
#[derive(Clone, Copy, Debug, PartialEq, Eq, Structural)]
pub enum Mark {
    Open,
    Closed,
    Leaf,
}

impl Mark {
    /// The marker a row of `shape` gets: a scalar is never foldable, so it is
    /// a leaf whatever the fold state says.
    pub open spec fn spec_of(shape: Shape, open: bool) -> Mark {
        if !shape.spec_is_container() {
            Mark::Leaf
        } else if open {
            Mark::Open
        } else {
            Mark::Closed
        }
    }

    /// The marker a container of `shape` gets.
    pub fn of(shape: Shape, open: bool) -> (m: Mark)
        ensures
            m == Mark::spec_of(shape, open),
    {
        match (shape.is_container(), open) {
            (false, _) => Mark::Leaf,
            (true, true) => Mark::Open,
            (true, false) => Mark::Closed,
        }
    }
}

/// `{…5 keys}` / `[…120 items]`, `{}` / `[]` for a container that is genuinely
/// empty, and a `≥` before the count while it is still being walked.
pub open spec fn spec_summary_text(shape: Shape, n: nat, done: bool) -> Seq<char> {
    let (l, r) = shape.spec_brackets();
    if done && n == 0 {
        l + r
    } else {
        l + seq!['\u{2026}'] + (if done { Seq::empty() } else { seq!['\u{2265}'] }) + decimal(n)
            + seq![' '] + shape.spec_unit(n) + r
    }
}

/// What a collapsed container shows in place of its members.
pub fn summary_text(shape: Shape, n: usize, done: bool) -> (s: String)
    requires
        shape.spec_is_container(),
    ensures
        s@ == spec_summary_text(shape, n as nat, done),
{
    proof {
        reveal_strlit("\u{2026}");
        reveal_strlit("\u{2265}");
        reveal_strlit(" ");
    }
    let (l, r) = shape.brackets();
    let mut s = String::from_str(l);
    if done && n == 0 {
        s.append(r);
        return s;
    }
    s.append("\u{2026}");
    if !done {
        s.append("\u{2265}");
    }
    push_decimal(&mut s, n);
    s.append(" ");
    s.append(shape.unit(n));
    s.append(r);
    s
}

/// The character for decimal digit `d`.
pub open spec fn digit_char(d: nat) -> char {
    (d + 48) as char
}

/// `n` written in decimal, most significant digit first, with no sign and no
/// leading zeros.
pub open spec fn decimal(n: nat) -> Seq<char>
    decreases n,
{
    if n < 10 {
        seq![digit_char(n)]
    } else {
        decimal(n / 10).push(digit_char(n % 10))
    }
}

/// An ASCII decimal digit.
pub open spec fn is_digit(c: char) -> bool {
    '0' <= c && c <= '9'
}

/// The value of a run of decimal digits.
pub open spec fn digits_value(s: Seq<char>) -> nat
    decreases s.len(),
{
    if s.len() == 0 {
        0
    } else {
        digits_value(s.drop_last()) * 10 + (s.last() as nat - 48) as nat
    }
}

/// The digits of an unsigned number as text: an optional `+`, then one or more
/// decimal digits.
pub open spec fn unsigned_digits(s: Seq<char>) -> Seq<char> {
    if s.len() > 0 && s[0] == '+' {
        s.subrange(1, s.len() as int)
    } else {
        s
    }
}

/// Text read as a `usize` the way the standard library reads one: an optional
/// `+`, then at least one decimal digit, and nothing that does not fit.
pub open spec fn parse_usize(s: Seq<char>) -> Option<usize> {
    parse_usize_digits(unsigned_digits(s))
}

/// The one-character string for decimal digit `d`.
fn digit(d: usize) -> (s: &'static str)
    requires
        d < 10,
    ensures
        s@ == seq![digit_char(d as nat)],
{
    proof {
        reveal_strlit("0");
        reveal_strlit("1");
        reveal_strlit("2");
        reveal_strlit("3");
        reveal_strlit("4");
        reveal_strlit("5");
        reveal_strlit("6");
        reveal_strlit("7");
        reveal_strlit("8");
        reveal_strlit("9");
    }
    match d {
        0 => "0",
        1 => "1",
        2 => "2",
        3 => "3",
        4 => "4",
        5 => "5",
        6 => "6",
        7 => "7",
        8 => "8",
        _ => "9",
    }
}

/// Append `n` in decimal to `s`.
pub fn push_decimal(s: &mut String, n: usize)
    ensures
        final(s)@ == old(s)@ + decimal(n as nat),
    decreases n,
{
    if n >= 10 {
        push_decimal(s, n / 10);
    }
    s.append(digit(n % 10));
    proof {
        if n < 10 {
            assert(n % 10 == n);
        }
    }
}

/// Append `n` in decimal to `s`, for a count held in 64 bits whatever the
/// width of `usize`.
pub fn push_decimal64(s: &mut String, n: u64)
    ensures
        final(s)@ == old(s)@ + decimal(n as nat),
    decreases n,
{
    if n >= 10 {
        push_decimal64(s, n / 10);
    }
    s.append(digit((n % 10) as usize));
    proof {
        if n < 10 {
            assert(n % 10 == n);
        }
    }
}

/// A longer run of digits is worth at least as much as its prefix.
proof fn lemma_digits_grow(s: Seq<char>, j: int, k: int)
    requires
        0 <= j <= k <= s.len(),
        forall|i: int| 0 <= i < s.len() ==> is_digit(#[trigger] s[i]),
    ensures
        digits_value(s.take(j)) <= digits_value(s.take(k)),
    decreases k - j,
{
    if j < k {
        lemma_digits_grow(s, j, k - 1);
        assert(s.take(k).drop_last() =~= s.take(k - 1));
    }
}

/// A run of digits whose prefix is already too big for a `usize` is too big.
proof fn lemma_overflow(d: Seq<char>, k: int)
    requires
        0 < k <= d.len(),
        digits_value(d.take(k)) > usize::MAX,
    ensures
        parse_usize_digits(d) is None,
{
    if forall|i: int| 0 <= i < d.len() ==> is_digit(#[trigger] d[i]) {
        lemma_digits_grow(d, k, d.len() as int);
        assert(d.take(d.len() as int) =~= d);
    }
}

/// A run of text read as one or more decimal digits that fit a `usize`.
pub open spec fn parse_usize_digits(d: Seq<char>) -> Option<usize> {
    if d.len() > 0 && (forall|i: int| 0 <= i < d.len() ==> is_digit(#[trigger] d[i]))
        && digits_value(d) <= usize::MAX {
        Some(digits_value(d) as usize)
    } else {
        None
    }
}

/// Read `s` as a `usize` the way the standard library does.
pub fn parse_decimal(s: &str) -> (r: Option<usize>)
    ensures
        r == parse_usize(s@),
{
    let n = s.unicode_len();
    let mut i: usize = 0;
    if n > 0 && s.get_char(0) == '+' {
        i = 1;
    }
    let start = i;
    let ghost d = unsigned_digits(s@);
    assert(d =~= s@.subrange(start as int, n as int));
    if i == n {
        return None;
    }
    let mut v: usize = 0;
    while i < n
        invariant
            start <= i <= n,
            n == s@.len(),
            d == s@.subrange(start as int, n as int),
            d == unsigned_digits(s@),
            forall|j: int| 0 <= j < i - start ==> is_digit(#[trigger] d[j]),
            v == digits_value(d.take(i - start)),
        decreases n - i,
    {
        let c = s.get_char(i);
        if !('0' <= c && c <= '9') {
            assert(!is_digit(d[i - start]));
            return None;
        }
        let k: u32 = c as u32 - 48;
        assert(d.take(i - start + 1).drop_last() =~= d.take(i - start));
        assert(d.take(i - start + 1).last() == c);
        assert(digits_value(d.take(i - start + 1)) == v * 10 + k);
        match v.checked_mul(10) {
            Some(t) => match t.checked_add(k as usize) {
                Some(w) => {
                    v = w;
                },
                None => {
                    proof {
                        lemma_overflow(d, i - start + 1);
                    }
                    return None;
                },
            },
            None => {
                proof {
                    lemma_overflow(d, i - start + 1);
                }
                return None;
            },
        }
        i = i + 1;
    }
    assert(d.take(n - start) =~= d);
    Some(v)
}


/// The fold id of member `i` of the node with id `parent`.
pub fn child_id(parent: &str, i: usize) -> (id: String)
    ensures
        id@ == parent@ + seq!['/'] + decimal(i as nat),
{
    let mut id = parent.to_owned();
    id.append("/");
    push_decimal(&mut id, i);
    proof {
        reveal_strlit("/");
    }
    id
}

/// The member index a top-level fold id names, or `None` when it is not one:
/// a record file reads its own ids back with this.
pub fn top_index(id: &str) -> (r: Option<usize>)
    ensures
        r == if id@.len() > 0 && id@[0] == '/' {
            parse_usize(id@.subrange(1, id@.len() as int))
        } else {
            None
        },
{
    let n = id.unicode_len();
    if n == 0 || id.get_char(0) != '/' {
        return None;
    }
    parse_decimal(id.substring_char(1, n))
}

/// A character a plain key may hold.
pub open spec fn key_char(c: char) -> bool {
    ('a' <= c && c <= 'z') || ('A' <= c && c <= 'Z') || is_digit(c) || c == '_' || c == '-'
}

/// A key that can be written `.like_this` rather than `["like this"]`.
pub open spec fn plain(k: Seq<char>) -> bool {
    &&& k.len() > 0
    &&& forall|i: int| 0 <= i < k.len() ==> key_char(#[trigger] k[i])
    &&& !is_digit(k[0])
}

/// Is `k` a plain key?
fn plain_key(k: &str) -> (b: bool)
    ensures
        b == plain(k@),
{
    let n = k.unicode_len();
    if n == 0 {
        return false;
    }
    let mut i: usize = 0;
    while i < n
        invariant
            i <= n,
            n == k@.len(),
            forall|j: int| 0 <= j < i ==> key_char(#[trigger] k@[j]),
        decreases n - i,
    {
        let c = k.get_char(i);
        let ok = ('a' <= c && c <= 'z') || ('A' <= c && c <= 'Z') || ('0' <= c && c <= '9') || c
            == '_' || c == '-';
        if !ok {
            return false;
        }
        i = i + 1;
    }
    let c = k.get_char(0);
    !('0' <= c && c <= '9')
}

/// The lowercase hexadecimal digit for `d`.
pub open spec fn hex_char(d: nat) -> char {
    if d < 10 {
        digit_char(d)
    } else {
        (d + 87) as char
    }
}

/// One character as it is written inside a JSON string literal.
pub open spec fn escaped_char(c: char) -> Seq<char> {
    if c == '"' {
        seq!['\\', '"']
    } else if c == '\\' {
        seq!['\\', '\\']
    } else if c == '\n' {
        seq!['\\', 'n']
    } else if c == '\r' {
        seq!['\\', 'r']
    } else if c == '\t' {
        seq!['\\', 't']
    } else if c == '\u{8}' {
        seq!['\\', 'b']
    } else if c == '\u{c}' {
        seq!['\\', 'f']
    } else if (c as nat) < 32 {
        seq!['\\', 'u', '0', '0', hex_char(c as nat / 16), hex_char(c as nat % 16)]
    } else {
        seq![c]
    }
}

/// Text as it is written inside a JSON string literal.
pub open spec fn escaped(s: Seq<char>) -> Seq<char>
    decreases s.len(),
{
    if s.len() == 0 {
        Seq::empty()
    } else {
        escaped(s.drop_last()) + escaped_char(s.last())
    }
}

/// The one-character string for hexadecimal digit `d`.
fn hex(d: u32) -> (s: &'static str)
    requires
        d < 16,
    ensures
        s@ == seq![hex_char(d as nat)],
{
    if d < 10 {
        return digit(d as usize);
    }
    proof {
        reveal_strlit("a");
        reveal_strlit("b");
        reveal_strlit("c");
        reveal_strlit("d");
        reveal_strlit("e");
        reveal_strlit("f");
    }
    match d {
        10 => "a",
        11 => "b",
        12 => "c",
        13 => "d",
        14 => "e",
        _ => "f",
    }
}

/// Append `k` to `out` as it is written inside a JSON string literal.
fn push_escaped(out: &mut String, k: &str)
    ensures
        final(out)@ == old(out)@ + escaped(k@),
{
    let n = k.unicode_len();
    let mut i: usize = 0;
    proof {
        assert(k@.take(0) =~= Seq::<char>::empty());
    }
    while i < n
        invariant
            i <= n,
            n == k@.len(),
            out@ == old(out)@ + escaped(k@.take(i as int)),
        decreases n - i,
    {
        let c = k.get_char(i);
        let ghost before = out@;
        proof {
            reveal_strlit("\\\"");
            reveal_strlit("\\\\");
            reveal_strlit("\\n");
            reveal_strlit("\\r");
            reveal_strlit("\\t");
            reveal_strlit("\\b");
            reveal_strlit("\\f");
            reveal_strlit("\\u00");
        }
        let code = c as u32;
        assert(code as nat == c as nat);
        if c == '"' {
            out.append("\\\"");
        } else if c == '\\' {
            out.append("\\\\");
        } else if c == '\n' {
            out.append("\\n");
        } else if c == '\r' {
            out.append("\\r");
        } else if c == '\t' {
            out.append("\\t");
        } else if c == '\u{8}' {
            out.append("\\b");
        } else if c == '\u{c}' {
            out.append("\\f");
        } else if code < 32 {
            out.append("\\u00");
            let ghost mid = out@;
            out.append(hex(code / 16));
            out.append(hex(code % 16));
            proof {
                assert(mid == before + seq!['\\', 'u', '0', '0']);
                assert(escaped_char(c) == seq!['\\', 'u', '0', '0', hex_char(c as nat / 16), hex_char(c as nat % 16)]);
                assert(out@ =~= before + escaped_char(c));
            }
        } else {
            let one = k.substring_char(i, i + 1);
            proof {
                assert(one@ =~= seq![c]);
                assert(escaped_char(c) == seq![c]);
            }
            out.append(one);
        }
        proof {
            assert(out@ =~= before + escaped_char(c));
            assert(k@.take(i + 1).drop_last() =~= k@.take(i as int));
            assert(k@.take(i + 1).last() == c);
            assert(escaped(k@.take(i + 1)) == escaped(k@.take(i as int)) + escaped_char(c));
        }
        i = i + 1;
    }
    proof {
        assert(k@.take(n as int) =~= k@);
    }
}

/// The step a member adds to the path the status bar shows: `.name`,
/// `["odd key"]` for a key that cannot be written with a dot, or `[3]` for an
/// array element.
pub open spec fn spec_path_step(key: Option<Seq<char>>, index: nat) -> Seq<char> {
    match key {
        None => seq!['['] + decimal(index) + seq![']'],
        Some(k) => if plain(k) {
            seq!['.'] + k
        } else {
            seq!['[', '"'] + escaped(k) + seq!['"', ']']
        },
    }
}

/// The step a member adds to the path the status bar shows.
pub fn path_step(key: Option<&str>, index: usize) -> (s: String)
    ensures
        s@ == spec_path_step(
            match key {
                Some(k) => Some(k@),
                None => None,
            },
            index as nat,
        ),
{
    proof {
        reveal_strlit("[");
        reveal_strlit("]");
        reveal_strlit(".");
        reveal_strlit("[\"");
        reveal_strlit("\"]");
    }
    match key {
        None => {
            let mut s = String::from_str("[");
            push_decimal(&mut s, index);
            s.append("]");
            s
        },
        Some(k) => {
            if plain_key(k) {
                let mut s = String::from_str(".");
                s.append(k);
                s
            } else {
                let mut s = String::from_str("[\"");
                push_escaped(&mut s, k);
                s.append("\"]");
                s
            }
        },
    }
}

/// `x / d` rounded to the nearest whole number, a tie going to the even one.
pub open spec fn round_half_even(x: nat, d: nat) -> nat
    recommends
        d > 0,
{
    let q = x / d;
    let r = x % d;
    if 2 * r > d || (2 * r == d && q % 2 == 1) {
        q + 1
    } else {
        q
    }
}

/// `n / scale` to one decimal place, a tie going to the even tenth.
pub open spec fn one_decimal(n: nat, scale: nat) -> Seq<char> {
    let t = round_half_even(n * 10, scale);
    decimal(t / 10) + seq!['.', digit_char(t % 10)]
}

/// A byte count a person can read: whole bytes below a kilobyte, then
/// kilobytes, megabytes or gigabytes to one decimal place.
pub open spec fn spec_size(n: nat) -> Seq<char> {
    if n >= 0x4000_0000 {
        one_decimal(n, 0x4000_0000) + seq![' ', 'G', 'B']
    } else if n >= 0x10_0000 {
        one_decimal(n, 0x10_0000) + seq![' ', 'M', 'B']
    } else if n >= 0x400 {
        one_decimal(n, 0x400) + seq![' ', 'K', 'B']
    } else {
        decimal(n) + seq![' ', 'b', 'y', 't', 'e', 's']
    }
}

/// Append `n / scale` to one decimal place.
fn push_one_decimal(s: &mut String, n: u64, scale: u64)
    requires
        scale == 0x400 || scale == 0x10_0000 || scale == 0x4000_0000,
    ensures
        final(s)@ == old(s)@ + one_decimal(n as nat, scale as nat),
{
    let x: u128 = (n as u128) * 10;
    let q: u128 = x / (scale as u128);
    let r: u128 = x % (scale as u128);
    let t: u128 = if 2 * r > scale as u128 || (2 * r == scale as u128 && q % 2 == 1) {
        q + 1
    } else {
        q
    };
    assert(t <= u64::MAX) by {
        assert(q <= x / 0x400) by {
            vstd::arithmetic::div_mod::lemma_div_is_ordered_by_denominator(x as int, 0x400, scale as int);
        }
    }
    push_decimal64(s, (t / 10) as u64);
    proof {
        reveal_strlit(".");
    }
    s.append(".");
    s.append(digit((t % 10) as usize));
}

/// A byte count a person can read.
pub fn size(n: u64) -> (s: String)
    ensures
        s@ == spec_size(n as nat),
{
    proof {
        reveal_strlit("");
        reveal_strlit(" GB");
        reveal_strlit(" MB");
        reveal_strlit(" KB");
        reveal_strlit(" bytes");
    }
    let mut s = String::from_str("");
    if n >= 0x4000_0000 {
        push_one_decimal(&mut s, n, 0x4000_0000);
        s.append(" GB");
    } else if n >= 0x10_0000 {
        push_one_decimal(&mut s, n, 0x10_0000);
        s.append(" MB");
    } else if n >= 0x400 {
        push_one_decimal(&mut s, n, 0x400);
        s.append(" KB");
    } else {
        push_decimal64(&mut s, n);
        s.append(" bytes");
    }
    s
}

/// The note a member too large to display shows instead of its value.
pub fn oversize(len: u64, cap: u64) -> (s: String)
    ensures
        s@ == seq!['\u{27e8}'] + spec_size(len as nat) + " \u{2014} over the "@ + spec_size(
            cap as nat,
        ) + " display limit\u{27e9}"@,
{
    proof {
        reveal_strlit("\u{27e8}");
    }
    let mut s = String::from_str("\u{27e8}");
    let a = size(len);
    s.append(a.as_str());
    s.append(" \u{2014} over the ");
    let b = size(cap);
    s.append(b.as_str());
    s.append(" display limit\u{27e9}");
    s
}

/// The note a container nested past the reader's depth limit shows instead of
/// a fold marker that would not open.
pub fn too_deep(limit: usize) -> (s: String)
    ensures
        s@ == "\u{27e8}nested deeper than "@ + decimal(limit as nat) + " levels \u{2014} not opened\u{27e9}"@,
{
    let mut s = String::from_str("\u{27e8}nested deeper than ");
    push_decimal(&mut s, limit);
    s.append(" levels \u{2014} not opened\u{27e9}");
    s
}


/// Decimal digits read back as what they were written from.
proof fn lemma_decimal_digits(n: nat)
    ensures
        decimal(n).len() > 0,
        forall|i: int| 0 <= i < decimal(n).len() ==> is_digit(#[trigger] decimal(n)[i]),
        digits_value(decimal(n)) == n,
    decreases n,
{
    if n < 10 {
        assert(decimal(n).drop_last() =~= Seq::<char>::empty());
        assert(digits_value(Seq::<char>::empty()) == 0);
        assert(digit_char(n) as nat == n + 48);
    } else {
        lemma_decimal_digits(n / 10);
        let d = decimal(n);
        assert(d.drop_last() =~= decimal(n / 10));
        assert(digit_char(n % 10) as nat == n % 10 + 48);
        assert forall|i: int| 0 <= i < d.len() implies is_digit(#[trigger] d[i]) by {
            if i < d.len() - 1 {
                assert(d[i] == decimal(n / 10)[i]);
            }
        }
        assert(n == (n / 10) * 10 + n % 10) by (nonlinear_arith);
        assert(digits_value(d) == digits_value(d.drop_last()) * 10 + (d.last() as nat - 48) as nat);
    }
}

/// **Fold ids read back.** A number written as a decimal id reads back as the
/// same number, and no `+` is ever written.
pub proof fn lemma_decimal_round_trip(n: usize)
    ensures
        parse_usize(decimal(n as nat)) == Some(n),
        decimal(n as nat)[0] != '+',
{
    lemma_decimal_digits(n as nat);
    assert(is_digit(decimal(n as nat)[0]));
}

/// **A record's fold id reads back as its index**: `top_index(child_id("", i))`
/// is `i`, and a nested id is no top-level one.
pub proof fn lemma_top_index_round_trip(i: usize, parent: Seq<char>)
    ensures
        ({
            let id = seq!['/'] + decimal(i as nat);
            parse_usize(id.subrange(1, id.len() as int)) == Some(i)
        }),
        parent.len() > 0 ==> ({
            let id = parent + seq!['/'] + decimal(i as nat);
            !(id.len() > 0 && id[0] == '/' && parse_usize(id.subrange(1, id.len() as int)) is Some)
                || parent[0] != '/'
                || parse_usize(id.subrange(1, id.len() as int)) is None
        }),
{
    let id = seq!['/'] + decimal(i as nat);
    assert(id.subrange(1, id.len() as int) =~= decimal(i as nat));
    lemma_decimal_round_trip(i);
    if parent.len() > 0 && parent[0] == '/' {
        let long = parent + seq!['/'] + decimal(i as nat);
        let rest = long.subrange(1, long.len() as int);
        let d = unsigned_digits(rest);
        if parse_usize(rest) is Some {
            // The `/` before `i` lies inside the digits, and is not one.
            let at = parent.len() - 1;
            if rest.len() > 0 && rest[0] == '+' {
                assert(d[at - 1] == '/');
            } else {
                assert(d[at] == '/');
            }
        }
    }
}

/// The longest prefix of `s` no wider than `cols` columns.
pub open spec fn spec_truncated(s: Seq<char>, cols: nat) -> Seq<char> {
    s.subrange(0, (choose|k: nat| fits_in(s, cols, k)) as int)
}

/// Only one prefix is the longest that fits.
proof fn lemma_fits_unique(s: Seq<char>, cols: nat, k: nat, j: nat)
    requires
        fits_in(s, cols, k),
        fits_in(s, cols, j),
    ensures
        k == j,
{
    if k < j {
        lemma_column_mono(s, k + 1int, j as int);
    } else if j < k {
        lemma_column_mono(s, j + 1int, k as int);
    }
}

/// Columns only grow along a string.
pub proof fn lemma_column_mono(s: Seq<char>, i: int, j: int)
    requires
        0 <= i <= j,
    ensures
        column(s, i) <= column(s, j),
    decreases j - i,
{
    if i < j {
        lemma_column_mono(s, i, j - 1);
    }
}

/// What [`truncate_width`] gives is [`spec_truncated`].
proof fn lemma_truncated(s: Seq<char>, cols: nat, r: Seq<char>)
    requires
        fits_in(s, cols, r.len()),
        r == s.subrange(0, r.len() as int),
    ensures
        r == spec_truncated(s, cols),
{
    let k = choose|k: nat| fits_in(s, cols, k);
    lemma_fits_unique(s, cols, k, r.len());
}

/// `s` without the backslashes it ends in.
pub open spec fn trim_backslashes(s: Seq<char>) -> Seq<char>
    decreases s.len(),
{
    if s.len() > 0 && s.last() == '\\' {
        trim_backslashes(s.drop_last())
    } else {
        s
    }
}

/// A scalar too wide even for a scrollable row, cut to [`MAX_VALUE`]
/// columns with an ellipsis.
pub open spec fn spec_cut(text: Seq<char>) -> Seq<char> {
    if column(text, text.len() as int) <= MAX_VALUE {
        text
    } else {
        spec_truncated(text, (MAX_VALUE - 1) as nat).push('\u{2026}')
    }
}

/// A string literal cut the same way but kept a literal: the cut falls
/// inside the quotes, the closing quote stays, and no lone backslash is left
/// to claim the ellipsis as escaped.
pub open spec fn spec_cut_literal(lit: Seq<char>) -> Seq<char> {
    if column(lit, lit.len() as int) <= MAX_VALUE {
        lit
    } else {
        trim_backslashes(spec_truncated(lit, (MAX_VALUE - 2) as nat)) + "\u{2026}\""@
    }
}

/// Cut a scalar that is too wide even for a scrollable row: [`spec_cut`].
pub fn cut(text: &str) -> (s: String)
    ensures
        s@ == spec_cut(text@),
{
    if width_within(text, MAX_VALUE) {
        return text.to_string();
    }
    let kept = truncate_width(text, MAX_VALUE - 1);
    proof {
        lemma_truncated(text@, (MAX_VALUE - 1) as nat, kept@);
        reveal_strlit("\u{2026}");
    }
    let mut s = kept.to_string();
    s.append("\u{2026}");
    s
}

/// Cut a string literal, keeping it a literal: [`spec_cut_literal`].
pub fn cut_literal(lit: &str) -> (s: String)
    ensures
        s@ == spec_cut_literal(lit@),
{
    if width_within(lit, MAX_VALUE) {
        return lit.to_string();
    }
    let kept = truncate_width(lit, MAX_VALUE - 2);
    proof {
        lemma_truncated(lit@, (MAX_VALUE - 2) as nat, kept@);
        reveal_strlit("\u{2026}\"");
    }
    let mut k: usize = kept.unicode_len();
    proof {
        assert(kept@.subrange(0, k as int) =~= kept@);
    }
    while k > 0 && kept.get_char(k - 1) == '\\'
        invariant
            k <= kept@.len(),
            trim_backslashes(kept@) == trim_backslashes(kept@.subrange(0, k as int)),
        decreases k,
    {
        proof {
            assert(kept@.subrange(0, k as int).drop_last() =~= kept@.subrange(0, k - 1));
        }
        k = k - 1;
    }
    proof {
        assert(kept@.subrange(0, k as int) == trim_backslashes(kept@.subrange(0, k as int)));
    }
    let mut s = kept.substring_char(0, k).to_string();
    s.append("\u{2026}\"");
    s
}

/// What a parsed value is, in the vocabulary the tree rows use: the bridge
/// that lets a row built from a value and one built from a byte range ask
/// the same questions.
pub fn shape_of(v: &Value) -> (s: Shape)
    ensures
        s == v.spec_shape(),
{
    v.shape()
}

/// A string as a JSON literal: quoted, and escaped inside the quotes.
pub open spec fn spec_quoted(s: Seq<char>) -> Seq<char> {
    seq!['"'] + escaped(s) + seq!['"']
}

/// A value written as compact JSON: no space anywhere, members in document
/// order, strings quoted and escaped, numbers as they were written.
pub open spec fn spec_json(v: Value) -> Seq<char>
    decreases v, v.spec_len() + 1,
{
    match v {
        Value::Null => "null"@,
        Value::Bool(b) => if b {
            "true"@
        } else {
            "false"@
        },
        Value::Number(n) => n@,
        Value::Str(t) => spec_quoted(t@),
        Value::Array(_) => seq!['['] + json_members(v, 0) + seq![']'],
        Value::Object(_) => seq!['{'] + json_members(v, 0) + seq!['}'],
    }
}

/// Members `i..` of a container as compact JSON, each after a comma but the
/// first; an object's member is its quoted key, a colon and its value.
pub open spec fn json_members(v: Value, i: nat) -> Seq<char>
    decreases v, v.spec_len() - i,
    via json_members_decreases
{
    if i < v.spec_len() {
        let sep: Seq<char> = if i > 0 {
            seq![',']
        } else {
            Seq::empty()
        };
        let one = match v {
            Value::Array(items) => spec_json(items@[i as int]),
            Value::Object(ms) => spec_quoted(ms@[i as int].key@) + seq![':'] + spec_json(ms@[i as int].value),
            _ => Seq::empty(),
        };
        sep + one + json_members(v, i + 1)
    } else {
        Seq::empty()
    }
}

#[via_fn]
proof fn json_members_decreases(v: Value, i: nat) {
    lemma_member_decreases(v, i as int);
}

/// Append `v` as compact JSON: [`spec_json`].
fn write_json(v: &Value, out: &mut String)
    ensures
        final(out)@ == old(out)@ + spec_json(*v),
    decreases v,
{
    proof {
        reveal_strlit("null");
        reveal_strlit("true");
        reveal_strlit("false");
        reveal_strlit("\"");
        reveal_strlit(",");
        reveal_strlit(":");
        reveal_strlit("[");
        reveal_strlit("]");
        reveal_strlit("{");
        reveal_strlit("}");
    }
    match v {
        Value::Null => out.append("null"),
        Value::Bool(b) => {
            if *b {
                out.append("true")
            } else {
                out.append("false")
            }
        },
        Value::Number(n) => out.append(n.as_str()),
        Value::Str(t) => {
            out.append("\"");
            push_escaped(out, t.as_str());
            out.append("\"");
            proof {
                assert(final(out)@ =~= old(out)@ + spec_json(*v));
            }
        },
        Value::Array(items) => {
            let ghost start = out@;
            out.append("[");
            let mut i: usize = 0;
            while i < items.len()
                invariant
                    i <= items@.len(),
                    *v == Value::Array(*items),
                    out@ + json_members(*v, i as nat) == start + spec_json(*v).drop_last(),
                decreases items@.len() - i,
            {
                let ghost before = out@;
                let ghost sep: Seq<char> = if i > 0 {
                    seq![',']
                } else {
                    Seq::empty()
                };
                if i > 0 {
                    out.append(",");
                }
                proof {
                    lemma_member_decreases(*v, i as int);
                    reveal_strlit(",");
                    reveal_strlit("\"");
                    reveal_strlit("\":");
                }
                write_json(&items[i], out);
                proof {
                    assert(json_members(*v, i as nat) == sep + spec_json(items@[i as int]) + json_members(
                        *v,
                        (i + 1) as nat,
                    ));
                    assert(out@ =~= before + sep + spec_json(items@[i as int]));
                    assert(out@ + json_members(*v, (i + 1) as nat) =~= before + json_members(*v, i as nat));
                }
                i = i + 1;
            }
            out.append("]");
            proof {
                assert(spec_json(*v) =~= spec_json(*v).drop_last().push(']'));
            }
        },
        Value::Object(ms) => {
            let ghost start = out@;
            out.append("{");
            let mut i: usize = 0;
            while i < ms.len()
                invariant
                    i <= ms@.len(),
                    *v == Value::Object(*ms),
                    out@ + json_members(*v, i as nat) == start + spec_json(*v).drop_last(),
                decreases ms@.len() - i,
            {
                let ghost before = out@;
                let ghost sep: Seq<char> = if i > 0 {
                    seq![',']
                } else {
                    Seq::empty()
                };
                if i > 0 {
                    out.append(",");
                }
                let m: &Member = &ms[i];
                out.append("\"");
                push_escaped(out, m.key.as_str());
                out.append("\":");
                proof {
                    lemma_member_decreases(*v, i as int);
                    reveal_strlit(",");
                    reveal_strlit("\"");
                    reveal_strlit("\":");
                }
                write_json(&m.value, out);
                proof {
                    let one = spec_quoted(m.key@) + seq![':'] + spec_json(m.value);
                    assert(json_members(*v, i as nat) == sep + one + json_members(*v, (i + 1) as nat));
                    assert(out@ =~= before + sep + one);
                    assert(out@ + json_members(*v, (i + 1) as nat) =~= before + json_members(*v, i as nat));
                }
                i = i + 1;
            }
            out.append("}");
            proof {
                assert(spec_json(*v) =~= spec_json(*v).drop_last().push('}'));
            }
        },
    }
}

/// A value written as compact JSON: [`spec_json`].
pub fn to_json(v: &Value) -> (s: String)
    ensures
        s@ == spec_json(*v),
{
    let mut s = String::new();
    write_json(v, &mut s);
    proof {
        assert(Seq::<char>::empty() + spec_json(*v) =~= spec_json(*v));
    }
    s
}

/// A scalar as its row shows it: a string as its JSON literal, so what is
/// shown parses back to the value; a number as it was written; each cut to
/// [`MAX_VALUE`] columns. A container reaching here shows as compact JSON.
pub open spec fn spec_scalar_text(v: Value) -> Seq<char> {
    match v {
        Value::Str(t) => spec_cut_literal(spec_quoted(t@)),
        Value::Number(n) => spec_cut(n@),
        Value::Bool(b) => if b {
            "true"@
        } else {
            "false"@
        },
        Value::Null => "null"@,
        _ => spec_cut(spec_json(v)),
    }
}

/// A scalar value's text, as its row shows it: [`spec_scalar_text`]. The
/// colour it is painted in is the theme's.
pub fn scalar_spans(v: &Value) -> (s: String)
    ensures
        s@ == spec_scalar_text(*v),
{
    proof {
        reveal_strlit("true");
        reveal_strlit("false");
        reveal_strlit("null");
        reveal_strlit("\"");
    }
    match v {
        Value::Str(t) => {
            let mut lit = String::from_str("\"");
            push_escaped(&mut lit, t.as_str());
            lit.append("\"");
            proof {
                assert(lit@ =~= spec_quoted(t@));
            }
            cut_literal(lit.as_str())
        },
        Value::Number(n) => cut(n.as_str()),
        Value::Bool(b) => {
            if *b {
                String::from_str("true")
            } else {
                String::from_str("false")
            }
        },
        Value::Null => String::from_str("null"),
        _ => {
            let j = to_json(v);
            cut(j.as_str())
        },
    }
}

/// What sits to the right of the label on a tree row.
pub enum Body<'a> {
    /// An open container's own line: `{`.
    Bracket(Shape),
    /// An open container's closing line: `}`.
    Close(Shape),
    /// A collapsed container: `{…5 keys}`; `done` is false while the count is
    /// still being walked, which shows as `≥`.
    Summary(Shape, usize, bool),
    /// A scalar.
    Scalar(&'a Value),
    /// Something the reader is told rather than shown.
    Note(String),
}

/// A body whose shape is drawn with brackets is a container's.
pub open spec fn body_ok(b: Body) -> bool {
    match b {
        Body::Bracket(s) => s.spec_is_container(),
        Body::Close(s) => s.spec_is_container(),
        Body::Summary(s, _, _) => s.spec_is_container(),
        _ => true,
    }
}

/// The text of a row's body.
pub open spec fn spec_body_text(b: Body) -> Seq<char> {
    match b {
        Body::Bracket(s) => s.spec_brackets().0,
        Body::Close(s) => s.spec_brackets().1,
        Body::Summary(s, n, done) => spec_summary_text(s, n as nat, done),
        Body::Scalar(v) => spec_scalar_text(*v),
        Body::Note(t) => t@,
    }
}

/// Just the body of a row, with no indent and no gutter: its text,
/// [`spec_body_text`].
pub fn body_spans(body: Body) -> (s: String)
    requires
        body_ok(body),
    ensures
        s@ == spec_body_text(body),
{
    match body {
        Body::Bracket(sh) => sh.brackets().0.to_string(),
        Body::Close(sh) => sh.brackets().1.to_string(),
        Body::Summary(sh, n, done) => summary_text(sh, n, done),
        Body::Scalar(v) => scalar_spans(v),
        Body::Note(t) => t,
    }
}

/// The gutter of a row: the open or the shut fold marker and a space, or two
/// spaces that keep a leaf in line with its foldable siblings.
pub open spec fn spec_marker(mark: Mark) -> Seq<char> {
    match mark {
        Mark::Open => "\u{25be} "@,
        Mark::Closed => "\u{25b8} "@,
        Mark::Leaf => "  "@,
    }
}

/// The indent of a row at `depth`: [`INDENT`] columns a level, growing no
/// further past [`MAX_INDENT`] levels.
pub open spec fn spec_indent(depth: nat) -> Seq<char> {
    spaces(
        (if depth < MAX_INDENT {
            depth
        } else {
            MAX_INDENT as nat
        }) * INDENT as nat,
    )
}

/// A tree row's text: the indent, the gutter, the key as a JSON literal and
/// a colon when the row has one, then the body.
pub open spec fn spec_row_text(depth: nat, mark: Mark, key: Option<Seq<char>>, body: Body) -> Seq<char> {
    spec_row_prefix(depth, mark, key) + spec_body_text(body)
}

/// What comes before a row's body: the indent, the gutter, and the key as a
/// JSON literal and a colon when the row has one.
pub open spec fn spec_row_prefix(depth: nat, mark: Mark, key: Option<Seq<char>>) -> Seq<char> {
    spec_indent(depth) + spec_marker(mark) + match key {
        Some(k) => spec_quoted(k) + ": "@,
        None => Seq::empty(),
    }
}

/// The note a container nested past the depth limit shows.
pub open spec fn spec_too_deep(limit: nat) -> Seq<char> {
    "\u{27e8}nested deeper than "@ + decimal(limit) + " levels \u{2014} not opened\u{27e9}"@
}

/// One tree row's text: [`spec_row_text`]. The only way either source builds
/// a tree row; the colours are the theme's.
pub fn spans(depth: usize, mark: Mark, key: Option<&str>, body: Body) -> (s: String)
    requires
        body_ok(body),
    ensures
        s@ == spec_row_text(
            depth as nat,
            mark,
            match key {
                Some(k) => Some(k@),
                None => None,
            },
            body,
        ),
{
    proof {
        reveal_strlit("\u{25be} ");
        reveal_strlit("\u{25b8} ");
        reveal_strlit("  ");
        reveal_strlit("\"");
        reveal_strlit("\": ");
    }
    let d: usize = if depth < MAX_INDENT {
        depth
    } else {
        MAX_INDENT
    };
    let mut out = String::new();
    push_spaces(&mut out, d * INDENT);
    match mark {
        Mark::Open => out.append("\u{25be} "),
        Mark::Closed => out.append("\u{25b8} "),
        Mark::Leaf => out.append("  "),
    }
    let ghost head = out@;
    match key {
        Some(k) => {
            out.append("\"");
            push_escaped(&mut out, k);
            out.append("\": ");
        },
        None => {},
    }
    let ghost keyed = out@;
    let b = body_spans(body);
    out.append(b.as_str());
    proof {
        match key {
            Some(k) => {
                reveal_strlit(": ");
                assert("\": "@ =~= seq!['"'] + ": "@);
                assert(keyed =~= head + spec_quoted(k@) + ": "@);
            },
            None => assert(keyed =~= head),
        }
        assert(out@ =~= spec_row_text(
            depth as nat,
            mark,
            match key {
                Some(k) => Some(k@),
                None => None,
            },
            body,
        ));
    }
    out
}

} // verus!
