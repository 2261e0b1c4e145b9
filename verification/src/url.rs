//! The two URL questions the reader asks before handing a link to the
//! operating system: what its scheme is, and whether that scheme is on an
//! allowlist.
use vstd::prelude::*;

verus! {

/// An ASCII letter.
pub open spec fn ascii_alpha(c: char) -> bool {
    ('a' <= c <= 'z') || ('A' <= c <= 'Z')
}

/// A character RFC 3986 allows after a scheme's first letter.
pub open spec fn scheme_char(c: char) -> bool {
    ascii_alpha(c) || ('0' <= c <= '9') || c == '+' || c == '-' || c == '.'
}

/// `s[..k]` is a scheme and `s[k]` the colon that ends it.
pub open spec fn scheme_ends_at(s: Seq<char>, k: int) -> bool {
    &&& 0 < k < s.len()
    &&& s[k] == ':'
    &&& ascii_alpha(s[0])
    &&& forall|i: int| 1 <= i < k ==> scheme_char(#[trigger] s[i])
}

/// The code point of one character, ASCII-lower-cased; everything else is
/// left alone.
pub open spec fn ascii_lower(c: char) -> u32 {
    if 'A' <= c <= 'Z' {
        ((c as u32) + 32) as u32
    } else {
        c as u32
    }
}

/// Two strings equal up to ASCII case, as URL schemes compare.
pub open spec fn eq_ignore_ascii_case(a: Seq<char>, b: Seq<char>) -> bool {
    a.len() == b.len() && forall|i: int| 0 <= i < a.len() ==> ascii_lower(#[trigger] a[i])
        == ascii_lower(b[i])
}

fn is_ascii_alpha(c: char) -> (b: bool)
    ensures
        b == ascii_alpha(c),
{
    ('a' <= c && c <= 'z') || ('A' <= c && c <= 'Z')
}

fn is_scheme_char(c: char) -> (b: bool)
    ensures
        b == scheme_char(c),
{
    is_ascii_alpha(c) || ('0' <= c && c <= '9') || c == '+' || c == '-' || c == '.'
}

fn lower(c: char) -> (r: u32)
    ensures
        r == ascii_lower(c),
{
    let u: u32 = c as u32;
    if 'A' <= c && c <= 'Z' {
        u + 32
    } else {
        u
    }
}

/// The scheme of `url`: the letters before its first colon, when they form
/// one (a letter, then letters, digits, `+`, `-` or `.`). `None` for a path, a
/// fragment or an empty string.
pub fn scheme_of<'a>(url: &'a str) -> (r: Option<&'a str>)
    ensures
        r matches Some(s) ==> exists|k: int| scheme_ends_at(url@, k) && s@ == url@.subrange(0, k),
        r is None ==> forall|k: int| !scheme_ends_at(url@, k),
{
    let n = url.unicode_len();
    if n == 0 {
        return None;
    }
    if !is_ascii_alpha(url.get_char(0)) {
        return None;
    }
    let mut i: usize = 1;
    while i < n
        invariant
            1 <= i <= n,
            n == url@.len(),
            ascii_alpha(url@[0]),
            forall|j: int| 1 <= j < i ==> scheme_char(#[trigger] url@[j]),
        decreases n - i,
    {
        let c = url.get_char(i);
        if c == ':' {
            assert(scheme_ends_at(url@, i as int));
            return Some(url.substring_char(0, i));
        }
        if !is_scheme_char(c) {
            assert forall|k: int| !scheme_ends_at(url@, k) by {
                if scheme_ends_at(url@, k) {
                    if k < i {
                        assert(scheme_char(url@[k]));
                    } else if k > i {
                        assert(scheme_char(url@[i as int]));
                    }
                }
            }
            return None;
        }
        i = i + 1;
    }
    assert forall|k: int| !scheme_ends_at(url@, k) by {
        if scheme_ends_at(url@, k) {
            assert(scheme_char(url@[k]));
        }
    }
    None
}

fn same_ignoring_ascii_case(a: &str, b: &str) -> (r: bool)
    ensures
        r == eq_ignore_ascii_case(a@, b@),
{
    let n = a.unicode_len();
    if n != b.unicode_len() {
        return false;
    }
    let mut i: usize = 0;
    while i < n
        invariant
            i <= n,
            n == a@.len(),
            n == b@.len(),
            forall|j: int| 0 <= j < i ==> ascii_lower(#[trigger] a@[j]) == ascii_lower(b@[j]),
        decreases n - i,
    {
        if lower(a.get_char(i)) != lower(b.get_char(i)) {
            return false;
        }
        i = i + 1;
    }
    true
}

/// Is `scheme` on `allowed`, ASCII case-insensitively, as URL schemes are?
pub fn scheme_allowed(scheme: &str, allowed: &[&str]) -> (r: bool)
    ensures
        r == exists|i: int| 0 <= i < allowed@.len() && eq_ignore_ascii_case(
            #[trigger] allowed@[i]@,
            scheme@,
        ),
{
    let mut i: usize = 0;
    while i < allowed.len()
        invariant
            i <= allowed@.len(),
            forall|j: int| 0 <= j < i ==> !eq_ignore_ascii_case(#[trigger] allowed@[j]@, scheme@),
        decreases allowed@.len() - i,
    {
        if same_ignoring_ascii_case(allowed[i], scheme) {
            return true;
        }
        i = i + 1;
    }
    false
}

} // verus!
