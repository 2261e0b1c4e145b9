//! The message under a summary row: how tall it is, and what it paints.
//!
//! A lens row is a headline, and for a record that said something the
//! headline is the message's own first line. What follows goes under it,
//! wrapped to the view width and indented to the column the message starts
//! in. One wrap, split in two: [`first_line`] is the summary row's text and
//! [`rows`] paints the rest, so the opening words appear once.
//!
//! A body is clipped to [`CLIP`] rows until the reader opens it, and the last
//! row then says what is not on screen: in the message's own lines when whole
//! ones are missing, in bytes when what is left is the tail of one long line.
//! A clip that did not say what it left out would hide something, which a lens
//! may never do.
//!
//! The wrap is plain: a message is text that happens to contain newlines, and
//! the only decisions are the word break and the hard split of a word longer
//! than the column.
use vstd::prelude::*;

use super::super::jsonrow::{decimal, push_decimal, size, spec_size};
use super::super::search::{char_width, column, spec_width, str_width};
use super::super::text::{
    bytes_of, lemma_bytes_push, lemma_encode_concat, push_spaces, spaces, spec_utf8_len, spec_visible,
    utf8_len, visible,
};

verus! {

/// Rows a clipped message occupies in total, the summary row it starts on
/// included, before it says how much more there is.
pub const CLIP: usize = 6;

/// Columns before the message text: the gutter, the actor column, the clock
/// and two spaces.
pub const INDENT: usize = 21;

/// Columns of message text at a view width. Never below eight: a terminal
/// narrower than the indent still gets a body rather than an empty column.
pub open spec fn spec_columns(width: nat) -> nat {
    let c: nat = if width > INDENT {
        (width - INDENT) as nat
    } else {
        0
    };
    if c < 8 {
        8
    } else {
        c
    }
}

/// Columns of message text at a view width.
pub fn columns(width: usize) -> (c: usize)
    ensures
        c == spec_columns(width as nat),
{
    let c = width.saturating_sub(INDENT);
    if c < 8 {
        8
    } else {
        c
    }
}

/// Display columns of a run of characters.
pub open spec fn width_of(s: Seq<char>) -> nat {
    column(s, s.len() as int)
}

/// The words of a line: the runs between single spaces, an empty one between
/// two spaces in a row, as `str::split(' ')` gives them.
pub open spec fn words_of(s: Seq<char>) -> Seq<Seq<char>>
    decreases s.len(),
{
    if s.len() == 0 {
        seq![Seq::empty()]
    } else {
        let w = words_of(s.drop_last());
        if s.last() == ' ' {
            w.push(Seq::empty())
        } else {
            w.update(w.len() - 1, w.last().push(s.last()))
        }
    }
}

/// The state of a wrap: the rows finished, the row being filled, and its
/// width.
pub type WrapState = (Seq<Seq<char>>, Seq<char>, nat);

/// Finish the row being filled and start an empty one.
pub open spec fn break_row(st: WrapState) -> WrapState {
    (st.0.push(st.1), Seq::empty(), 0)
}

/// How many characters from the front of `s` fit in `room` columns.
pub open spec fn fit(s: Seq<char>, room: nat) -> nat
    decreases s.len(),
{
    if s.len() == 0 || spec_width(s[0]) > room {
        0
    } else {
        1 + fit(s.drop_first(), (room - spec_width(s[0])) as nat)
    }
}

/// A word wider than the column, split into whole characters across rows.
pub open spec fn split_word(st: WrapState, rest: Seq<char>, cols: nat) -> WrapState
    decreases rest.len(), (if st.2 > 0 {
        1nat
    } else {
        0nat
    }),
{
    if rest.len() == 0 {
        st
    } else {
        let room: nat = if st.2 <= cols {
            (cols - st.2) as nat
        } else {
            0
        };
        let k = fit(rest, room);
        if k == 0 {
            if st.2 > 0 {
                split_word(break_row(st), rest, cols)
            } else {
                st
            }
        } else if k <= rest.len() {
            let piece = rest.take(k as int);
            let st2 = (st.0, st.1 + piece, st.2 + width_of(piece));
            let rest2 = rest.skip(k as int);
            if rest2.len() > 0 {
                split_word(break_row(st2), rest2, cols)
            } else {
                st2
            }
        } else {
            st
        }
    }
}

/// One word placed on the wrap: on the row being filled when it fits after a
/// space, on a fresh row when it does not, and split when it is wider than a
/// row.
pub open spec fn place_word(st: WrapState, word: Seq<char>, cols: nat) -> WrapState {
    let w = width_of(word);
    let st1 = if st.2 > 0 && st.2 + 1 + w > cols {
        break_row(st)
    } else {
        st
    };
    let st2 = if st1.2 > 0 {
        (st1.0, st1.1.push(' '), st1.2 + 1)
    } else {
        st1
    };
    if w <= cols {
        (st2.0, st2.1 + word, st2.2 + w)
    } else {
        split_word(st2, word, cols)
    }
}

/// The first `k` words placed.
pub open spec fn place_words(ws: Seq<Seq<char>>, cols: nat) -> WrapState
    decreases ws.len(),
{
    if ws.len() == 0 {
        (Seq::empty(), Seq::empty(), 0)
    } else {
        place_word(place_words(ws.drop_last(), cols), ws.last(), cols)
    }
}

/// One line wrapped to `cols` columns on word boundaries, a word wider than a
/// row split into whole characters. An empty line is one empty row.
pub open spec fn spec_fold_line(line: Seq<char>, cols: nat) -> Seq<Seq<char>> {
    let st = place_words(words_of(line), cols);
    st.0.push(st.1)
}

/// The column a character starts at depends only on the characters before it.
pub proof fn lemma_column_prefix(s: Seq<char>, t: Seq<char>, i: int)
    requires
        0 <= i <= s.len(),
        i <= t.len(),
        s.take(i) == t.take(i),
    ensures
        column(s, i) == column(t, i),
    decreases i,
{
    if i > 0 {
        assert(s.take(i - 1) =~= s.take(i).take(i - 1));
        assert(t.take(i - 1) =~= t.take(i).take(i - 1));
        assert(s[i - 1] == s.take(i)[i - 1]);
        assert(t[i - 1] == t.take(i)[i - 1]);
        lemma_column_prefix(s, t, i - 1);
    }
}

/// One more character is its width more columns.
pub proof fn lemma_width_push(s: Seq<char>, c: char)
    ensures
        width_of(s.push(c)) == width_of(s) + spec_width(c),
{
    assert(s.push(c).take(s.len() as int) =~= s);
    assert(s.take(s.len() as int) =~= s);
    lemma_column_prefix(s.push(c), s, s.len() as int);
}

/// Two runs of characters side by side are as wide as both.
pub proof fn lemma_width_concat(a: Seq<char>, b: Seq<char>)
    ensures
        width_of(a + b) == width_of(a) + width_of(b),
    decreases b.len(),
{
    if b.len() == 0 {
        assert(a + b =~= a);
    } else {
        lemma_width_concat(a, b.drop_last());
        assert(a + b =~= (a + b.drop_last()).push(b.last()));
        assert(b =~= b.drop_last().push(b.last()));
        lemma_width_push(a + b.drop_last(), b.last());
        lemma_width_push(b.drop_last(), b.last());
    }
}

/// The rows of a wrap, as text.
pub open spec fn views(v: Seq<String>) -> Seq<Seq<char>> {
    v.map_values(|s: String| s@)
}

/// How many characters of `word` from `p` on fit in `room` columns, and how
/// wide they are.
fn take_width(word: &str, p: usize, room: usize) -> (r: (usize, usize))
    requires
        p <= word@.len(),
    ensures
        r.0 == fit(word@.skip(p as int), room as nat),
        r.0 <= word@.len() - p,
        r.1 == width_of(word@.skip(p as int).take(r.0 as int)),
        r.1 <= room,
{
    let n = word.unicode_len();
    let ghost s = word@.skip(p as int);
    let mut k: usize = 0;
    let mut wide: usize = 0;
    proof {
        assert(s.skip(0) =~= s);
        assert(s.take(0) =~= Seq::<char>::empty());
    }
    while p + k < n
        invariant
            n == word@.len(),
            p <= n,
            k <= n - p,
            s == word@.skip(p as int),
            wide <= room,
            wide == width_of(s.take(k as int)),
            fit(s, room as nat) == k + fit(s.skip(k as int), (room - wide) as nat),
        decreases n - p - k,
    {
        let c = word.get_char(p + k);
        let w = char_width(c);
        proof {
            assert(s.skip(k as int)[0] == c);
            assert(s.skip(k as int).drop_first() =~= s.skip(k + 1));
        }
        if w > room - wide {
            return (k, wide);
        }
        proof {
            assert(s.take(k + 1) =~= s.take(k as int).push(c));
            lemma_width_push(s.take(k as int), c);
        }
        wide = wide + w;
        k = k + 1;
    }
    proof {
        assert(s.skip(k as int).len() == 0);
    }
    (k, wide)
}

/// Finish the row being filled.
fn push_row(out: &mut Vec<String>, cur: &mut String)
    ensures
        views(final(out)@) == views(old(out)@).push(old(cur)@),
        final(cur)@ == Seq::<char>::empty(),
{
    let mut done = String::new();
    std::mem::swap(&mut done, cur);
    out.push(done);
    proof {
        assert(views(out@) =~= views(old(out)@).push(done@));
    }
}

/// Place one word on the wrap.
fn place(out: &mut Vec<String>, cur: &mut String, used: &mut usize, word: &str, cols: usize)
    requires
        2 <= cols,
        *old(used) <= cols,
        word@.len() <= usize::MAX / 2,
    ensures
        (views(final(out)@), final(cur)@, *final(used) as nat) == place_word(
            (views(old(out)@), old(cur)@, *old(used) as nat),
            word@,
            cols as nat,
        ),
        *final(used) <= cols,
{
    let ghost st0: WrapState = (views(out@), cur@, *used as nat);
    let w = str_width(word);
    if *used > 0 && (*used >= cols || w > cols - *used - 1) {
        push_row(out, cur);
        *used = 0;
    }
    let ghost st1: WrapState = (views(out@), cur@, *used as nat);
    assert(st1 == (if st0.2 > 0 && st0.2 + 1 + w > cols {
        break_row(st0)
    } else {
        st0
    }));
    if *used > 0 {
        proof {
            reveal_strlit(" ");
        }
        cur.append(" ");
        *used = *used + 1;
    }
    let ghost st2: WrapState = (views(out@), cur@, *used as nat);
    if w <= cols {
        proof {
            if st1.2 > 0 {
                assert(st0.2 + 1 + w <= cols);
            }
        }
        cur.append(word);
        *used = *used + w;
        return ;
    }
    let ghost target = split_word(st2, word@, cols as nat);
    assert(target == place_word(st0, word@, cols as nat));
    let n = word.unicode_len();
    let mut p: usize = 0;
    proof {
        assert(word@.skip(0) =~= word@);
    }
    while p < n
        invariant
            2 <= cols,
            n == word@.len(),
            p <= n,
            *used <= cols,
            split_word((views(out@), cur@, *used as nat), word@.skip(p as int), cols as nat)
                == target,
        decreases n - p, (if *used > 0 {
            1nat
        } else {
            0nat
        }),
    {
        let ghost st: WrapState = (views(out@), cur@, *used as nat);
        let ghost rest = word@.skip(p as int);
        let room = cols - *used;
        let (k, wide) = take_width(word, p, room);
        if k == 0 {
            proof {
                if *used == 0 {
                    let c = rest[0];
                    assert(spec_width(c) <= 2);
                    assert(rest.len() > 0);
                    assert(fit(rest, room as nat) >= 1);
                }
            }
            push_row(out, cur);
            *used = 0;
        } else {
            let piece = word.substring_char(p, p + k);
            proof {
                assert(piece@ =~= rest.take(k as int));
                assert(word@.skip(p + k) =~= rest.skip(k as int));
            }
            cur.append(piece);
            *used = *used + wide;
            p = p + k;
            if p < n {
                push_row(out, cur);
                *used = 0;
            }
        }
    }
    proof {
        assert(word@.skip(p as int).len() == 0);
    }
}

/// The characters of `s` that are not spaces, in order: what a wrap must
/// keep, since it only ever turns a space into a row break.
pub open spec fn letters(s: Seq<char>) -> Seq<char>
    decreases s.len(),
{
    if s.len() == 0 {
        Seq::empty()
    } else if s.last() == ' ' {
        letters(s.drop_last())
    } else {
        letters(s.drop_last()).push(s.last())
    }
}

/// What a wrap state has laid down so far: its finished rows, then the row
/// being filled.
pub open spec fn laid_down(st: WrapState) -> Seq<char> {
    st.0.flatten() + st.1
}

/// Every finished row fits in `cols` columns, and the row being filled is
/// `st.2` columns wide, which fits too.
pub open spec fn rows_fit(st: WrapState, cols: nat) -> bool {
    &&& forall|i: int| 0 <= i < st.0.len() ==> width_of(#[trigger] st.0[i]) <= cols
    &&& st.2 == width_of(st.1)
    &&& st.2 <= cols
}

proof fn lemma_letters_concat(a: Seq<char>, b: Seq<char>)
    ensures
        letters(a + b) == letters(a) + letters(b),
    decreases b.len(),
{
    if b.len() == 0 {
        assert(a + b =~= a);
        assert(letters(a) + letters(b) =~= letters(a));
    } else {
        lemma_letters_concat(a, b.drop_last());
        assert((a + b).drop_last() =~= a + b.drop_last());
        assert((a + b).last() == b.last());
        if b.last() != ' ' {
            assert(letters(a + b) =~= letters(a) + letters(b));
        }
    }
}

proof fn lemma_width_one(c: char)
    ensures
        width_of(seq![c]) == spec_width(c),
{
    lemma_width_push(Seq::empty(), c);
    assert(Seq::<char>::empty().push(c) =~= seq![c]);
    assert(width_of(Seq::<char>::empty()) == 0);
}

/// The characters that fit are no wider than the room, and at least one
/// fits when the first is no wider than the room.
proof fn lemma_fit_width(s: Seq<char>, room: nat)
    ensures
        fit(s, room) <= s.len(),
        width_of(s.take(fit(s, room) as int)) <= room,
        s.len() > 0 && spec_width(s[0]) <= room ==> fit(s, room) >= 1,
    decreases s.len(),
{
    if s.len() == 0 || spec_width(s[0]) > room {
        assert(s.take(0) =~= Seq::<char>::empty());
        assert(width_of(Seq::<char>::empty()) == 0);
    } else {
        let t = s.drop_first();
        let r2 = (room - spec_width(s[0])) as nat;
        lemma_fit_width(t, r2);
        let k = fit(t, r2);
        assert(s.take(1 + k as int) =~= seq![s[0]] + t.take(k as int));
        lemma_width_concat(seq![s[0]], t.take(k as int));
        lemma_width_one(s[0]);
    }
}

proof fn lemma_break_row(st: WrapState, cols: nat)
    requires
        rows_fit(st, cols),
    ensures
        rows_fit(break_row(st), cols),
        laid_down(break_row(st)) == laid_down(st),
{
    st.0.lemma_flatten_push(st.1);
    assert(width_of(Seq::<char>::empty()) == 0);
    assert(laid_down(break_row(st)) =~= laid_down(st));
    let b = break_row(st);
    assert forall|i: int| 0 <= i < b.0.len() implies width_of(#[trigger] b.0[i]) <= cols by {
        if i < st.0.len() {
            assert(b.0[i] == st.0[i]);
        }
    }
}

/// Splitting a word keeps every row in the column and lays the word down
/// whole.
proof fn lemma_split_word(st: WrapState, rest: Seq<char>, cols: nat)
    requires
        2 <= cols,
        rows_fit(st, cols),
    ensures
        rows_fit(split_word(st, rest, cols), cols),
        laid_down(split_word(st, rest, cols)) == laid_down(st) + rest,
    decreases rest.len(), (if st.2 > 0 {
        1nat
    } else {
        0nat
    }),
{
    if rest.len() == 0 {
        assert(laid_down(st) + rest =~= laid_down(st));
    } else {
        let room: nat = if st.2 <= cols {
            (cols - st.2) as nat
        } else {
            0
        };
        let k = fit(rest, room);
        lemma_fit_width(rest, room);
        if k == 0 {
            if st.2 > 0 {
                lemma_break_row(st, cols);
                lemma_split_word(break_row(st), rest, cols);
            } else {
                assert(spec_width(rest[0]) <= 2);
            }
        } else {
            let piece = rest.take(k as int);
            let st2 = (st.0, st.1 + piece, st.2 + width_of(piece));
            let rest2 = rest.skip(k as int);
            lemma_width_concat(st.1, piece);
            assert(rows_fit(st2, cols));
            assert(laid_down(st2) =~= laid_down(st) + piece);
            assert(piece + rest2 =~= rest);
            if rest2.len() > 0 {
                lemma_break_row(st2, cols);
                lemma_split_word(break_row(st2), rest2, cols);
                assert(laid_down(st2) + rest2 =~= laid_down(st) + rest);
            } else {
                assert(piece =~= rest);
            }
        }
    }
}

/// Placing a word keeps every row in the column and keeps every character
/// of the word that is not a space, after what was laid down before.
proof fn lemma_place_word(st: WrapState, word: Seq<char>, cols: nat)
    requires
        2 <= cols,
        rows_fit(st, cols),
    ensures
        rows_fit(place_word(st, word, cols), cols),
        letters(laid_down(place_word(st, word, cols))) == letters(laid_down(st)) + letters(word),
{
    let w = width_of(word);
    let st1 = if st.2 > 0 && st.2 + 1 + w > cols {
        break_row(st)
    } else {
        st
    };
    lemma_break_row(st, cols);
    assert(rows_fit(st1, cols));
    assert(laid_down(st1) == laid_down(st));
    let st2 = if st1.2 > 0 {
        (st1.0, st1.1.push(' '), st1.2 + 1)
    } else {
        st1
    };
    if st1.2 > 0 {
        lemma_width_push(st1.1, ' ');
        assert(laid_down(st2) =~= laid_down(st1).push(' '));
        assert(laid_down(st1).push(' ').drop_last() =~= laid_down(st1));
    }
    assert(rows_fit(st2, cols));
    assert(letters(laid_down(st2)) == letters(laid_down(st)));
    if w <= cols {
        let st3 = (st2.0, st2.1 + word, st2.2 + w);
        lemma_width_concat(st2.1, word);
        assert(laid_down(st3) =~= laid_down(st2) + word);
        lemma_letters_concat(laid_down(st2), word);
    } else {
        lemma_split_word(st2, word, cols);
        lemma_letters_concat(laid_down(st2), word);
    }
}

/// Placing words in turn keeps every row in the column and keeps their
/// characters that are not spaces, in order.
proof fn lemma_place_words(ws: Seq<Seq<char>>, cols: nat)
    requires
        2 <= cols,
    ensures
        rows_fit(place_words(ws, cols), cols),
        letters(laid_down(place_words(ws, cols))) == letters(ws.flatten()),
    decreases ws.len(),
{
    if ws.len() == 0 {
        let st = place_words(ws, cols);
        assert(width_of(Seq::<char>::empty()) == 0);
        assert(laid_down(st) =~= Seq::<char>::empty());
    } else {
        lemma_place_words(ws.drop_last(), cols);
        lemma_place_word(place_words(ws.drop_last(), cols), ws.last(), cols);
        assert(ws =~= ws.drop_last().push(ws.last()));
        ws.drop_last().lemma_flatten_push(ws.last());
        lemma_letters_concat(ws.drop_last().flatten(), ws.last());
    }
}

/// The words of a line hold its characters that are not spaces, in order.
proof fn lemma_words_letters(s: Seq<char>)
    ensures
        words_of(s).len() > 0,
        letters(words_of(s).flatten()) == letters(s),
    decreases s.len(),
{
    if s.len() == 0 {
        let w: Seq<Seq<char>> = seq![Seq::empty()];
        assert(w.drop_last() =~= Seq::<Seq<char>>::empty());
        Seq::<Seq<char>>::empty().lemma_flatten_push(Seq::empty());
        assert(w =~= Seq::<Seq<char>>::empty().push(Seq::empty()));
        assert(w.flatten() =~= Seq::<char>::empty());
    } else {
        let t = s.drop_last();
        let c = s.last();
        lemma_words_letters(t);
        let w = words_of(t);
        let init = w.drop_last();
        assert(w =~= init.push(w.last()));
        init.lemma_flatten_push(w.last());
        if c == ' ' {
            w.lemma_flatten_push(Seq::empty());
            assert(w.flatten() + Seq::<char>::empty() =~= w.flatten());
        } else {
            let w2 = w.update(w.len() - 1, w.last().push(c));
            assert(w2 =~= init.push(w.last().push(c)));
            init.lemma_flatten_push(w.last().push(c));
            assert(w2.flatten() =~= w.flatten().push(c));
            assert(w.flatten().push(c).drop_last() =~= w.flatten());
        }
    }
}

/// **A wrap fits and loses nothing**: every row of a wrapped line fits in
/// the column, and the rows, read in order, hold every character of the
/// line that is not a space, in the line's order: only spaces become row
/// breaks, and a word is only ever split, never dropped or moved.
pub proof fn lemma_wrap_fits_and_keeps_words(line: Seq<char>, cols: nat)
    requires
        2 <= cols,
    ensures
        forall|i: int|
            0 <= i < spec_fold_line(line, cols).len() ==> width_of(#[trigger] spec_fold_line(line, cols)[i])
                <= cols,
        letters(spec_fold_line(line, cols).flatten()) == letters(line),
{
    let ws = words_of(line);
    let st = place_words(ws, cols);
    lemma_place_words(ws, cols);
    lemma_words_letters(line);
    st.0.lemma_flatten_push(st.1);
    let rows = spec_fold_line(line, cols);
    assert(rows == st.0.push(st.1));
    assert forall|i: int| 0 <= i < rows.len() implies width_of(#[trigger] rows[i]) <= cols by {
        if i < st.0.len() {
            assert(rows[i] == st.0[i]);
        }
    }
}

/// The first word of a row: its characters up to the first space.
pub open spec fn head_word(s: Seq<char>) -> Seq<char>
    decreases s.len(),
{
    if s.len() == 0 || s[0] == ' ' {
        Seq::empty()
    } else {
        seq![s[0]] + head_word(s.drop_first())
    }
}

/// `s` holds no space.
pub open spec fn spacefree(s: Seq<char>) -> bool {
    forall|i: int| 0 <= i < s.len() ==> s[i] != ' '
}

/// Each row but the last is as full as it could be: the first word of the
/// row after it, with the space before it, would not have fitted.
pub open spec fn greedy_rows(rows: Seq<Seq<char>>, cols: nat) -> bool {
    forall|k: int|
        0 <= k < rows.len() - 1 ==> width_of(#[trigger] rows[k]) + 1 + width_of(head_word(rows[k + 1])) > cols
}

/// A wrap in progress is greedy: its finished rows are, none is empty, and
/// the last of them could not take the first word of the row being filled.
pub open spec fn greedy_state(st: WrapState, cols: nat) -> bool {
    &&& greedy_rows(st.0, cols)
    &&& forall|k: int| 0 <= k < st.0.len() ==> (#[trigger] st.0[k]).len() > 0
    &&& st.0.len() > 0 ==> width_of(st.0.last()) + 1 + width_of(head_word(st.1)) > cols
}

/// A run is at least as many columns wide as it has characters.
proof fn lemma_width_ge_len(s: Seq<char>)
    ensures
        width_of(s) >= s.len(),
    decreases s.len(),
{
    if s.len() == 0 {
        assert(width_of(s) == 0);
    } else {
        lemma_width_ge_len(s.drop_last());
        assert(s =~= s.drop_last().push(s.last()));
        lemma_width_push(s.drop_last(), s.last());
    }
}

/// A row's first word only grows as the row does.
proof fn lemma_head_word_grows(s: Seq<char>, t: Seq<char>)
    ensures
        width_of(head_word(s)) <= width_of(head_word(s + t)),
    decreases s.len(),
{
    if s.len() == 0 {
        assert(s + t =~= t);
        assert(width_of(Seq::<char>::empty()) == 0);
    } else if s[0] == ' ' {
        assert((s + t)[0] == ' ');
        assert(width_of(Seq::<char>::empty()) == 0);
    } else {
        assert((s + t)[0] == s[0]);
        assert((s + t).drop_first() =~= s.drop_first() + t);
        lemma_head_word_grows(s.drop_first(), t);
        lemma_width_concat(seq![s[0]], head_word(s.drop_first()));
        lemma_width_concat(seq![s[0]], head_word(s.drop_first() + t));
    }
}

/// A word with no space is its own first word.
proof fn lemma_head_spacefree(s: Seq<char>)
    requires
        spacefree(s),
    ensures
        head_word(s) == s,
    decreases s.len(),
{
    if s.len() > 0 {
        lemma_head_spacefree(s.drop_first());
        assert(s =~= seq![s[0]] + s.drop_first());
    } else {
        assert(s =~= Seq::<char>::empty());
    }
}

/// A run that stops short of the whole word stops because the next
/// character would not have fitted.
proof fn lemma_fit_max(s: Seq<char>, room: nat)
    requires
        fit(s, room) < s.len(),
    ensures
        width_of(s.take(fit(s, room) as int)) + spec_width(s[fit(s, room) as int]) > room,
    decreases s.len(),
{
    if s.len() == 0 || spec_width(s[0]) > room {
        assert(s.take(0) =~= Seq::<char>::empty());
        assert(width_of(Seq::<char>::empty()) == 0);
    } else {
        let t = s.drop_first();
        let r2 = (room - spec_width(s[0])) as nat;
        let k = fit(t, r2);
        lemma_fit_max(t, r2);
        assert(s.take(1 + k as int) =~= seq![s[0]] + t.take(k as int));
        lemma_width_concat(seq![s[0]], t.take(k as int));
        lemma_width_one(s[0]);
        assert(s[1 + k as int] == t[k as int]);
    }
}

/// The first characters of a non-empty run are at least as wide as its first.
proof fn lemma_width_first(s: Seq<char>, k: int)
    requires
        1 <= k <= s.len(),
    ensures
        width_of(s.take(k)) >= spec_width(s[0]),
{
    assert(s.take(k) =~= seq![s[0]] + s.take(k).drop_first());
    lemma_width_concat(seq![s[0]], s.take(k).drop_first());
    lemma_width_one(s[0]);
}

/// A finished row that could not take the next row's first word keeps the
/// rows greedy.
proof fn lemma_push_greedy(rows: Seq<Seq<char>>, r: Seq<char>, cols: nat)
    requires
        greedy_rows(rows, cols),
        rows.len() > 0 ==> width_of(rows.last()) + 1 + width_of(head_word(r)) > cols,
    ensures
        greedy_rows(rows.push(r), cols),
{
    let b = rows.push(r);
    assert forall|k: int| 0 <= k < b.len() - 1 implies width_of(#[trigger] b[k]) + 1 + width_of(head_word(b[k + 1]))
        > cols by {
        assert(b[k] == rows[k]);
        if k < rows.len() - 1 {
            assert(b[k + 1] == rows[k + 1]);
        } else {
            assert(b[k + 1] == r);
        }
    }
}

/// Splitting a word over fresh rows fills each row but the last to the
/// column.
proof fn lemma_split_greedy(st: WrapState, rest: Seq<char>, cols: nat)
    requires
        2 <= cols,
        rows_fit(st, cols),
        greedy_rows(st.0, cols),
        forall|k: int| 0 <= k < st.0.len() ==> (#[trigger] st.0[k]).len() > 0,
        st.2 == 0,
        rest.len() > 0,
        spacefree(rest),
        st.0.len() > 0 ==> width_of(st.0.last()) + 1 + width_of(rest.take(fit(rest, cols) as int)) > cols,
    ensures
        greedy_state(split_word(st, rest, cols), cols),
    decreases rest.len(),
{
    lemma_width_ge_len(st.1);
    assert(st.1 =~= Seq::<char>::empty());
    lemma_fit_width(rest, cols);
    assert(spec_width(rest[0]) <= 2);
    let k = fit(rest, cols);
    let piece = rest.take(k as int);
    let st2 = (st.0, st.1 + piece, st.2 + width_of(piece));
    let rest2 = rest.skip(k as int);
    assert(st.1 + piece =~= piece);
    assert(spacefree(piece));
    lemma_head_spacefree(piece);
    if rest2.len() > 0 {
        lemma_fit_max(rest, cols);
        assert(rest2[0] == rest[k as int]);
        assert(rows_fit(st2, cols));
        lemma_break_row(st2, cols);
        lemma_push_greedy(st.0, piece, cols);
        let st3 = break_row(st2);
        lemma_fit_width(rest2, cols);
        assert(spec_width(rest2[0]) <= 2);
        lemma_width_first(rest2, fit(rest2, cols) as int);
        assert(spacefree(rest2));
        assert forall|j: int| 0 <= j < st3.0.len() implies (#[trigger] st3.0[j]).len() > 0 by {
            if j < st.0.len() {
                assert(st3.0[j] == st.0[j]);
            }
        }
        lemma_split_greedy(st3, rest2, cols);
    } else {
        assert(piece =~= rest);
    }
}

/// Placing a word keeps a greedy wrap greedy: it breaks the row only when
/// the word, with its space, would not fit.
proof fn lemma_place_greedy(st: WrapState, word: Seq<char>, cols: nat)
    requires
        2 <= cols,
        rows_fit(st, cols),
        greedy_state(st, cols),
        spacefree(word),
    ensures
        greedy_state(place_word(st, word, cols), cols),
{
    let w = width_of(word);
    lemma_width_ge_len(st.1);
    lemma_head_spacefree(word);
    lemma_break_row(st, cols);
    if st.2 > 0 && st.2 + 1 + w > cols {
        let st1 = break_row(st);
        lemma_push_greedy(st.0, st.1, cols);
        assert forall|j: int| 0 <= j < st1.0.len() implies (#[trigger] st1.0[j]).len() > 0 by {
            if j < st.0.len() {
                assert(st1.0[j] == st.0[j]);
            }
        }
        if w <= cols {
            assert(Seq::<char>::empty() + word =~= word);
        } else {
            lemma_fit_width(word, cols);
            lemma_width_ge_len(word);
            if fit(word, cols) == word.len() {
                assert(word.take(word.len() as int) =~= word);
            }
            lemma_fit_max(word, cols);
            lemma_split_greedy(st1, word, cols);
        }
    } else {
        let st2 = if st.2 > 0 {
            (st.0, st.1.push(' '), st.2 + 1)
        } else {
            st
        };
        if st.2 > 0 {
            lemma_width_push(st.1, ' ');
        }
        assert(rows_fit(st2, cols));
        if w <= cols {
            let suffix = if st.2 > 0 {
                seq![' '] + word
            } else {
                word
            };
            assert(st2.1 + word =~= st.1 + suffix);
            lemma_head_word_grows(st.1, suffix);
        } else {
            assert(st.2 == 0);
            assert(st.1 =~= Seq::<char>::empty());
            assert(width_of(head_word(st.1)) == 0) by {
                assert(head_word(st.1) =~= Seq::<char>::empty());
            }
            lemma_width_ge_len(word);
            lemma_split_greedy(st, word, cols);
        }
    }
}

/// Placing words in turn keeps the wrap greedy.
proof fn lemma_place_words_greedy(ws: Seq<Seq<char>>, cols: nat)
    requires
        2 <= cols,
        forall|i: int| 0 <= i < ws.len() ==> spacefree(#[trigger] ws[i]),
    ensures
        greedy_state(place_words(ws, cols), cols),
        rows_fit(place_words(ws, cols), cols),
    decreases ws.len(),
{
    lemma_place_words(ws, cols);
    if ws.len() > 0 {
        let init = ws.drop_last();
        assert forall|i: int| 0 <= i < init.len() implies spacefree(#[trigger] init[i]) by {
            assert(init[i] == ws[i]);
        }
        lemma_place_words_greedy(init, cols);
        assert(spacefree(ws[ws.len() - 1]));
        lemma_place_greedy(place_words(init, cols), ws.last(), cols);
    }
}

/// The words of a line hold no space.
proof fn lemma_words_spacefree(s: Seq<char>)
    ensures
        forall|i: int| 0 <= i < words_of(s).len() ==> spacefree(#[trigger] words_of(s)[i]),
    decreases s.len(),
{
    if s.len() > 0 {
        lemma_words_spacefree(s.drop_last());
        let w = words_of(s.drop_last());
        lemma_words_letters(s.drop_last());
        if s.last() != ' ' {
            let w2 = w.update(w.len() - 1, w.last().push(s.last()));
            assert forall|i: int| 0 <= i < w2.len() implies spacefree(#[trigger] w2[i]) by {
                if i == w.len() - 1 {
                    assert(spacefree(w[i]));
                    assert(w2[i] == w.last().push(s.last()));
                } else {
                    assert(w2[i] == w[i]);
                }
            }
        } else {
            let w2 = w.push(Seq::<char>::empty());
            assert forall|i: int| 0 <= i < w2.len() implies spacefree(#[trigger] w2[i]) by {
                if i < w.len() {
                    assert(w2[i] == w[i]);
                }
            }
        }
    }
}

/// **A wrap is greedy**: a row is broken only where the next word would
/// not fit. For every row but the last, its width, one column for the space
/// and the width of the next row's first word come to more than the column:
/// no row could have taken the word that starts the row after it.
pub proof fn lemma_wrap_is_greedy(line: Seq<char>, cols: nat)
    requires
        2 <= cols,
    ensures
        forall|k: int|
            0 <= k < spec_fold_line(line, cols).len() - 1 ==> width_of(#[trigger] spec_fold_line(line, cols)[k]) + 1
                + width_of(head_word(spec_fold_line(line, cols)[k + 1])) > cols,
{
    let ws = words_of(line);
    lemma_words_spacefree(line);
    lemma_place_words_greedy(ws, cols);
    let st = place_words(ws, cols);
    lemma_push_greedy(st.0, st.1, cols);
    assert(spec_fold_line(line, cols) == st.0.push(st.1));
}

/// One source line, wrapped to `cols` columns on word boundaries, splitting a
/// word that cannot fit on a row of its own. An empty line stays a row: a
/// blank line in a message is a paragraph break.
pub fn fold_line(line: &str, cols: usize) -> (rows: Vec<String>)
    requires
        2 <= cols,
        line@.len() <= usize::MAX / 2,
    ensures
        views(rows@) == spec_fold_line(line@, cols as nat),
{
    let n = line.unicode_len();
    let mut out: Vec<String> = Vec::new();
    let mut cur = String::new();
    let mut used: usize = 0;
    let mut start: usize = 0;
    let mut i: usize = 0;
    proof {
        assert(views(out@) =~= Seq::<Seq<char>>::empty());
        assert(line@.take(0) =~= Seq::<char>::empty());
        assert(line@.subrange(0, 0) =~= Seq::<char>::empty());
    }
    while i < n
        invariant
            2 <= cols,
            n == line@.len(),
            n <= usize::MAX / 2,
            start <= i <= n,
            used <= cols,
            words_of(line@.take(i as int)).len() > 0,
            (views(out@), cur@, used as nat) == place_words(
                words_of(line@.take(i as int)).drop_last(),
                cols as nat,
            ),
            words_of(line@.take(i as int)).last() == line@.subrange(start as int, i as int),
        decreases n - i,
    {
        let c = line.get_char(i);
        let ghost ws = words_of(line@.take(i as int));
        proof {
            assert(line@.take(i + 1).drop_last() =~= line@.take(i as int));
            assert(line@.take(i + 1).last() == c);
        }
        if c == ' ' {
            let word = line.substring_char(start, i);
            proof {
                assert(words_of(line@.take(i + 1)) == ws.push(Seq::<char>::empty()));
                assert(ws.push(Seq::<char>::empty()).drop_last() =~= ws);
                assert(ws =~= ws.drop_last().push(ws.last()));
            }
            place(&mut out, &mut cur, &mut used, word, cols);
            start = i + 1;
            proof {
                assert(line@.subrange(start as int, i + 1) =~= Seq::<char>::empty());
            }
        } else {
            proof {
                let w2 = words_of(line@.take(i + 1));
                assert(w2 == ws.update(ws.len() - 1, ws.last().push(c)));
                assert(w2.drop_last() =~= ws.drop_last());
                assert(w2.last() =~= line@.subrange(start as int, i + 1));
            }
        }
        i = i + 1;
    }
    let word = line.substring_char(start, n);
    proof {
        let ws = words_of(line@.take(n as int));
        assert(line@.take(n as int) =~= line@);
        assert(ws =~= ws.drop_last().push(ws.last()));
    }
    place(&mut out, &mut cur, &mut used, word, cols);
    push_row(&mut out, &mut cur);
    out
}

/// The Unicode `White_Space` property: what `str::trim` takes off.
pub open spec fn spec_is_whitespace(c: char) -> bool {
    let u = c as u32;
    ||| 0x09 <= u <= 0x0d
    ||| u == 0x20
    ||| u == 0x85
    ||| u == 0xa0
    ||| u == 0x1680
    ||| 0x2000 <= u <= 0x200a
    ||| u == 0x2028
    ||| u == 0x2029
    ||| u == 0x202f
    ||| u == 0x205f
    ||| u == 0x3000
}

/// Whether `c` has the Unicode `White_Space` property.
pub fn is_whitespace(c: char) -> (b: bool)
    ensures
        b == spec_is_whitespace(c),
{
    let u = c as u32;
    (0x09 <= u && u <= 0x0d) || u == 0x20 || u == 0x85 || u == 0xa0 || u == 0x1680 || (0x2000 <= u
        && u <= 0x200a) || u == 0x2028 || u == 0x2029 || u == 0x202f || u == 0x205f || u == 0x3000
}

/// A line with nothing but white space on it.
pub open spec fn is_blank(line: Seq<char>) -> bool {
    forall|k: int| 0 <= k < line.len() ==> spec_is_whitespace(#[trigger] line[k])
}

/// Where the line starting at `i` ends: at the next newline, or the end.
pub open spec fn line_end(text: Seq<char>, i: int) -> int
    decreases text.len() - i,
{
    if i >= text.len() {
        text.len() as int
    } else if text[i] == '\n' {
        i
    } else {
        line_end(text, i + 1)
    }
}

/// Characters in a run of rows.
pub open spec fn chars_in(rows: Seq<Seq<char>>) -> nat
    decreases rows.len(),
{
    if rows.len() == 0 {
        0
    } else {
        chars_in(rows.drop_last()) + rows.last().len()
    }
}

/// Bytes the first `chars` characters of `line` occupy.
pub open spec fn prefix_bytes(line: Seq<char>, chars: nat) -> nat {
    if chars < line.len() {
        bytes_of(line.take(chars as int))
    } else {
        bytes_of(line)
    }
}

/// How far a walk got: the rows it shows, the source lines it got through
/// whole, and the source bytes those rows account for.
pub type Walked = (Seq<Seq<char>>, nat, nat);

/// The walk from the line starting at character `i`, byte `at`, of `text`:
/// every line wrapped to `cols` until `limit` rows are shown, the blank lines
/// a message opens with walked over rather than shown. A line the head cut
/// short (`short`) is never counted as a line seen whole.
pub open spec fn walk_from(
    text: Seq<char>,
    i: int,
    at: nat,
    st: Walked,
    cols: nat,
    limit: nat,
    short: bool,
) -> Walked
    decreases text.len() - i,
{
    if i < 0 || i > text.len() || st.0.len() >= limit {
        st
    } else {
        let j = line_end(text, i);
        let line = text.subrange(i, j);
        let total = bytes_of(text);
        let lb = bytes_of(line);
        let next: nat = if at + lb + 1 <= total {
            at + lb + 1
        } else {
            total
        };
        let cut = short && at + lb >= total;
        let seen: nat = if cut {
            0
        } else {
            1
        };
        if st.0.len() == 0 && is_blank(line) {
            let st2 = (st.0, st.1 + seen, next);
            if j < text.len() && j >= i {
                walk_from(text, j + 1, next, st2, cols, limit, short)
            } else {
                st2
            }
        } else {
            let wrapped = spec_fold_line(spec_visible(line), cols);
            let room = (limit - st.0.len()) as nat;
            if wrapped.len() <= room {
                let st2 = (st.0 + wrapped, st.1 + seen, next);
                if j < text.len() && j >= i {
                    walk_from(text, j + 1, next, st2, cols, limit, short)
                } else {
                    st2
                }
            } else {
                let shown = wrapped.take(room as int);
                (st.0 + shown, st.1, at + prefix_bytes(line, chars_in(shown)))
            }
        }
    }
}

/// The one walk: wrap every line of `text` to `cols` columns, stop at `limit`
/// rows, and count off against the source what those rows accounted for.
pub open spec fn spec_walk_text(text: Seq<char>, cols: nat, limit: nat, short: bool) -> Walked {
    walk_from(text, 0, 0, (Seq::empty(), 0, 0), cols, limit, short)
}

/// Bytes of a prefix of a text are the bytes of a shorter prefix and what
/// lies between.
proof fn lemma_bytes_split(text: Seq<char>, i: int, j: int)
    requires
        0 <= i <= j <= text.len(),
    ensures
        bytes_of(text.take(j)) == bytes_of(text.take(i)) + bytes_of(text.subrange(i, j)),
        bytes_of(text.take(j)) <= bytes_of(text),
{
    lemma_encode_concat(text.take(i), text.subrange(i, j));
    assert(text.take(j) =~= text.take(i) + text.subrange(i, j));
    lemma_encode_concat(text.take(j), text.skip(j));
    assert(text =~= text.take(j) + text.skip(j));
}

/// Whether every character of `line` is white space.
fn blank(line: &str) -> (b: bool)
    ensures
        b == is_blank(line@),
{
    let n = line.unicode_len();
    let mut k: usize = 0;
    while k < n
        invariant
            k <= n,
            n == line@.len(),
            forall|q: int| 0 <= q < k ==> spec_is_whitespace(#[trigger] line@[q]),
        decreases n - k,
    {
        if !is_whitespace(line.get_char(k)) {
            return false;
        }
        k = k + 1;
    }
    true
}

/// Where the line starting at `i` ends.
fn find_line_end(text: &str, i: usize) -> (j: usize)
    requires
        i <= text@.len(),
    ensures
        j == line_end(text@, i as int),
        i <= j <= text@.len(),
        forall|q: int| i <= q < j ==> text@[q] != '\n',
        j < text@.len() ==> text@[j as int] == '\n',
{
    let n = text.unicode_len();
    let mut j = i;
    while j < n
        invariant
            i <= j <= n,
            n == text@.len(),
            line_end(text@, i as int) == line_end(text@, j as int),
            forall|q: int| i <= q < j ==> text@[q] != '\n',
        decreases n - j,
    {
        if text.get_char(j) == '\n' {
            return j;
        }
        j = j + 1;
    }
    j
}

/// Wrap every line of `text` to `cols` columns, stopping at `limit` rows:
/// the rows, the source lines seen whole, and the source bytes accounted for.
pub fn walk_text(text: &str, cols: usize, limit: usize, short: bool) -> (r: (Vec<String>, usize, usize))
    requires
        2 <= cols,
        text@.len() <= usize::MAX / 2,
        bytes_of(text@) <= usize::MAX,
    ensures
        (views(r.0@), r.1 as nat, r.2 as nat) == spec_walk_text(text@, cols as nat, limit as nat, short),
{
    let ghost target = spec_walk_text(text@, cols as nat, limit as nat, short);
    let n = text.unicode_len();
    let total = text.len();
    let mut rows: Vec<String> = Vec::new();
    let mut lines: usize = 0;
    let mut bytes: usize = 0;
    let mut at: usize = 0;
    let mut i: usize = 0;
    proof {
        assert(views(rows@) =~= Seq::<Seq<char>>::empty());
        assert(text@.take(0) =~= Seq::<char>::empty());
        assert(bytes_of(Seq::<char>::empty()) == 0);
    }
    loop
        invariant_except_break
            2 <= cols,
            n == text@.len(),
            n <= usize::MAX / 2,
            total == bytes_of(text@),
            total <= usize::MAX,
            i <= n,
            lines <= i,
            at == bytes_of(text@.take(i as int)),
            walk_from(text@, i as int, at as nat, (views(rows@), lines as nat, bytes as nat), cols as nat, limit as nat, short) == target,
        ensures
            (views(rows@), lines as nat, bytes as nat) == target,
        decreases n - i,
    {
        if rows.len() >= limit {
            break;
        }
        let ghost st: Walked = (views(rows@), lines as nat, bytes as nat);
        let j = find_line_end(text, i);
        let line = text.substring_char(i, j);
        proof {
            assert(line@ =~= text@.subrange(i as int, j as int));
            lemma_bytes_split(text@, i as int, j as int);
        }
        let lb = line.len();
        let next = if at + lb < total {
            at + lb + 1
        } else {
            total
        };
        let cut = short && at + lb >= total;
        if rows.len() == 0 && blank(line) {
            if !cut {
                lines = lines + 1;
            }
            bytes = next;
            if j < n {
                proof {
                    lemma_bytes_split(text@, j as int, j + 1);
                    assert(text@.subrange(j as int, j + 1) =~= seq!['\n']);
                    assert(bytes_of(seq!['\n']) == 1) by {
                        super::super::text::lemma_bytes_push(Seq::<char>::empty(), '\n');
                        assert(Seq::<char>::empty().push('\n') =~= seq!['\n']);
                        assert(bytes_of(Seq::<char>::empty()) == 0);
                    }
                }
                at = next;
                i = j + 1;
            } else {
                break;
            }
        } else {
            let shown_line = visible(line);
            let wrapped = fold_line(shown_line.as_str(), cols);
            let room = limit - rows.len();
            if wrapped.len() <= room {
                let ghost before = views(rows@);
                let mut k: usize = 0;
                while k < wrapped.len()
                    invariant
                        k <= wrapped@.len(),
                        views(rows@) == before + views(wrapped@).take(k as int),
                    decreases wrapped@.len() - k,
                {
                    let x = wrapped[k].clone();
                    let ghost was = views(rows@);
                    rows.push(x);
                    proof {
                        assert(views(rows@) =~= was.push(x@));
                        assert(views(wrapped@).take(k + 1) =~= views(wrapped@).take(k as int).push(
                            wrapped@[k as int]@,
                        ));
                        assert(views(rows@) =~= before + views(wrapped@).take(k + 1));
                    }
                    k = k + 1;
                }
                proof {
                    assert(views(wrapped@).take(k as int) =~= views(wrapped@));
                }
                if !cut {
                    lines = lines + 1;
                }
                bytes = next;
                if j < n {
                    proof {
                        lemma_bytes_split(text@, j as int, j + 1);
                        assert(text@.subrange(j as int, j + 1) =~= seq!['\n']);
                        assert(bytes_of(seq!['\n']) == 1) by {
                            super::super::text::lemma_bytes_push(Seq::<char>::empty(), '\n');
                            assert(Seq::<char>::empty().push('\n') =~= seq!['\n']);
                            assert(bytes_of(Seq::<char>::empty()) == 0);
                        }
                    }
                    at = next;
                    i = j + 1;
                } else {
                    break;
                }
            } else {
                let ghost before = views(rows@);
                let line_n = line.unicode_len();
                let mut chars: usize = 0;
                let mut k: usize = 0;
                proof {
                    assert(views(wrapped@).take(0) =~= Seq::<Seq<char>>::empty());
                }
                while k < room
                    invariant
                        k <= room,
                        room < wrapped@.len(),
                        line_n == line@.len(),
                        views(rows@) == before + views(wrapped@).take(k as int),
                        chars == if chars_in(views(wrapped@).take(k as int)) < line_n {
                            chars_in(views(wrapped@).take(k as int))
                        } else {
                            line_n as nat
                        },
                    decreases room - k,
                {
                    let r = wrapped[k].unicode_len();
                    proof {
                        let t = views(wrapped@).take(k + 1);
                        assert(t.drop_last() =~= views(wrapped@).take(k as int));
                        assert(t.last() == wrapped@[k as int]@);
                    }
                    chars = if r >= line_n - chars {
                        line_n
                    } else {
                        chars + r
                    };
                    let x = wrapped[k].clone();
                    let ghost was = views(rows@);
                    rows.push(x);
                    proof {
                        assert(views(rows@) =~= was.push(x@));
                        assert(views(wrapped@).take(k + 1) =~= views(wrapped@).take(k as int).push(
                            wrapped@[k as int]@,
                        ));
                        assert(views(rows@) =~= before + views(wrapped@).take(k + 1));
                    }
                    k = k + 1;
                }
                let pb = if chars < line_n {
                    let head = line.substring_char(0, chars);
                    proof {
                        assert(head@ =~= line@.take(chars as int));
                    }
                    head.len()
                } else {
                    lb
                };
                proof {
                    lemma_bytes_split(line@, chars as int, line@.len() as int);
                    assert(line@.take(line@.len() as int) =~= line@);
                }
                bytes = at + pb;
                break;
            }
        }
    }
    (rows, lines, bytes)
}

/// How many characters from the front of `s` fit in `budget` bytes.
pub open spec fn head_len(s: Seq<char>, budget: nat) -> nat
    decreases s.len(),
{
    if s.len() == 0 || spec_utf8_len(s[0]) > budget {
        0
    } else {
        1 + head_len(s.drop_first(), (budget - spec_utf8_len(s[0])) as nat)
    }
}

/// The first `bytes` of `text`, cut on a character boundary.
pub open spec fn spec_head_of(text: Seq<char>, bytes: nat) -> Seq<char> {
    text.take(head_len(text, bytes) as int)
}

/// The first `bytes` of `text`, cut on a character boundary: a message may be
/// any UTF-8 at all, and cutting mid-character would panic.
pub fn head_of(text: &str, bytes: usize) -> (h: &str)
    ensures
        h@ == spec_head_of(text@, bytes as nat),
{
    let n = text.unicode_len();
    let mut k: usize = 0;
    let mut left = bytes;
    proof {
        assert(text@.skip(0) =~= text@);
    }
    while k < n && utf8_len(text.get_char(k)) <= left
        invariant
            k <= n,
            n == text@.len(),
            left <= bytes,
            head_len(text@, bytes as nat) == k + head_len(text@.skip(k as int), left as nat),
        decreases n - k,
    {
        let c = text.get_char(k);
        let b = utf8_len(c);
        proof {
            assert(text@.skip(k as int)[0] == c);
            assert(text@.skip(k as int).drop_first() =~= text@.skip(k + 1));
        }
        left = left - b;
        k = k + 1;
    }
    proof {
        if k == n {
            assert(text@.skip(k as int).len() == 0);
        } else {
            assert(text@.skip(k as int)[0] == text@[k as int]);
        }
    }
    text.substring_char(0, k)
}

/// What a message is, as far as its layout needs to know: how many bytes and
/// how many lines it has in all, of which the caller may hold only the head.
#[derive(Clone, Copy, Debug, PartialEq, Eq, Structural)]
pub struct Body {
    pub bytes: usize,
    pub lines: usize,
}

/// What the body is not showing: its own lines when whole ones are missing,
/// and bytes when what is left is the tail of a line already begun. Nothing
/// when every byte of the message is on screen.
pub open spec fn spec_note(body: Body, w: Walked, seen: nat, short: bool) -> Option<Seq<char>> {
    if w.2 >= seen && !short {
        None
    } else {
        let lines: nat = if body.lines > w.1 {
            (body.lines - w.1) as nat
        } else {
            0
        };
        if lines == 0 || body.lines == 1 {
            let gone: nat = if body.bytes > w.2 {
                (body.bytes - w.2) as nat
            } else {
                0
            };
            let left: nat = if gone < 1 {
                1
            } else {
                gone
            };
            Some("\u{22ef} +"@ + spec_size(left) + " more"@)
        } else if lines == 1 {
            Some("\u{22ef} +1 line"@)
        } else {
            Some("\u{22ef} +"@ + decimal(lines) + " lines"@)
        }
    }
}

/// What the body is not showing.
fn note(body: Body, lines: usize, bytes: usize, seen: usize, short: bool) -> (r: Option<String>)
    ensures
        r matches Some(t) ==> spec_note(body, (Seq::empty(), lines as nat, bytes as nat), seen as nat, short) == Some(t@),
        r is None ==> spec_note(body, (Seq::empty(), lines as nat, bytes as nat), seen as nat, short) is None,
{
    if bytes >= seen && !short {
        return None;
    }
    let left_lines = body.lines.saturating_sub(lines);
    if left_lines == 0 || body.lines == 1 {
        let gone = body.bytes.saturating_sub(bytes);
        let left = if gone < 1 {
            1
        } else {
            gone
        };
        let mut t = String::from_str("\u{22ef} +");
        let z = size(left as u64);
        t.append(z.as_str());
        t.append(" more");
        return Some(t);
    }
    if left_lines == 1 {
        return Some(String::from_str("\u{22ef} +1 line"));
    }
    let mut t = String::from_str("\u{22ef} +");
    push_decimal(&mut t, left_lines);
    t.append(" lines");
    Some(t)
}

/// The text a layout is walked over: all of it when the message is open, and
/// when clipped no more than four bytes to a column of one row past the clip,
/// which keeps painting a clipped 40 MB message a screenful of work.
pub open spec fn laid_text(text: Seq<char>, width: nat, full: bool) -> Seq<char> {
    if full {
        text
    } else {
        spec_head_of(text, (4 * ((CLIP + 1) * spec_columns(width))) as nat)
    }
}

/// A laid-out body: the rows it shows, and what it admits to leaving out.
pub open spec fn spec_lay(body: Body, text: Seq<char>, width: nat, full: bool) -> (Seq<Seq<char>>, Option<Seq<char>>) {
    let cols = spec_columns(width);
    let limit: nat = if full {
        usize::MAX as nat
    } else {
        CLIP as nat
    };
    let t = laid_text(text, width, full);
    let short = bytes_of(t) < body.bytes;
    let w = spec_walk_text(t, cols, limit, short);
    (w.0, spec_note(body, w, bytes_of(t), short))
}

/// What `lay` needs of its inputs: a text that fits in memory, and a clip
/// whose byte budget can be counted.
pub open spec fn layable(text: Seq<char>, width: nat, full: bool) -> bool {
    &&& text.len() <= usize::MAX / 2
    &&& bytes_of(text) <= usize::MAX
    &&& !full ==> 4 * ((CLIP + 1) * spec_columns(width)) <= usize::MAX
}

/// Wrap `text`, as much of the message as the caller has, to the width, stop
/// where the state says to stop, and state the remainder.
fn lay(body: Body, text: &str, width: usize, full: bool) -> (r: (Vec<String>, Option<String>))
    requires
        layable(text@, width as nat, full),
    ensures
        views(r.0@) == spec_lay(body, text@, width as nat, full).0,
        match r.1 {
            Some(t) => spec_lay(body, text@, width as nat, full).1 == Some(t@),
            None => spec_lay(body, text@, width as nat, full).1 is None,
        },
{
    let cols = columns(width);
    let limit = if full {
        usize::MAX
    } else {
        CLIP
    };
    let t = if full {
        text
    } else {
        head_of(text, 4 * ((CLIP + 1) * cols))
    };
    proof {
        let k = head_len(text@, (4 * ((CLIP + 1) * cols)) as nat);
        if !full {
            assert(k <= text@.len()) by {
                lemma_head_len_le(text@, (4 * ((CLIP + 1) * cols)) as nat);
            }
            lemma_bytes_split(text@, k as int, text@.len() as int);
            assert(text@.take(text@.len() as int) =~= text@);
        }
    }
    let seen = t.len();
    let short = seen < body.bytes;
    let (rows, lines, bytes) = walk_text(t, cols, limit, short);
    let n = note(body, lines, bytes, seen, short);
    (rows, n)
}

/// A head never runs past the text.
proof fn lemma_head_len_le(s: Seq<char>, budget: nat)
    ensures
        head_len(s, budget) <= s.len(),
    decreases s.len(),
{
    if s.len() > 0 && spec_utf8_len(s[0]) <= budget {
        lemma_head_len_le(s.drop_first(), (budget - spec_utf8_len(s[0])) as nat);
    }
}

/// One painted row of a body: the indent, then the text; a blank row is blank.
pub open spec fn row_text(r: Seq<char>) -> Seq<char> {
    if r.len() == 0 {
        Seq::empty()
    } else {
        spaces(INDENT as nat) + r
    }
}

/// The rows under the summary row: the wrap from its second row on, then the
/// note when there is one.
pub open spec fn spec_rows(body: Body, text: Seq<char>, width: nat, full: bool) -> Seq<Seq<char>> {
    let (rows, note) = spec_lay(body, text, width, full);
    let under = if rows.len() > 0 {
        rows.skip(1)
    } else {
        rows
    };
    under.map_values(|r: Seq<char>| row_text(r)) + match note {
        Some(t) => seq![row_text(t)],
        None => Seq::empty(),
    }
}

/// Rows the body occupies under the summary row.
pub open spec fn spec_height(body: Body, text: Seq<char>, width: nat, full: bool) -> nat {
    let (rows, note) = spec_lay(body, text, width, full);
    (if rows.len() > 0 {
        (rows.len() - 1) as nat
    } else {
        0
    }) + if note is Some {
        1nat
    } else {
        0
    }
}

/// One painted row.
fn row(r: &str) -> (t: String)
    ensures
        t@ == row_text(r@),
{
    if r.unicode_len() == 0 {
        proof {
            reveal_strlit("");
        }
        return String::from_str("");
    }
    let mut t = String::new();
    push_spaces(&mut t, INDENT);
    proof {
        assert(Seq::<char>::empty() + spaces(INDENT as nat) =~= spaces(INDENT as nat));
    }
    t.append(r);
    t
}

/// Rows the body occupies under the summary row, at `width`, clipped or
/// whole. Zero for a message the summary row already shows all of.
pub fn height(body: Body, text: &str, width: usize, full: bool) -> (n: usize)
    requires
        layable(text@, width as nat, full),
    ensures
        n == spec_height(body, text@, width as nat, full),
{
    let (rows, note) = lay(body, text, width, full);
    let under = if rows.len() > 0 {
        rows.len() - 1
    } else {
        0
    };
    match note {
        Some(_) => under + 1,
        None => under,
    }
}

/// The body's rows, ready to paint: the wrap from its second row on, because
/// the first is the summary row above them, then what the clip left out.
pub fn rows(body: Body, text: &str, width: usize, full: bool) -> (out: Vec<String>)
    requires
        layable(text@, width as nat, full),
    ensures
        views(out@) == spec_rows(body, text@, width as nat, full),
{
    let (laid, note) = lay(body, text, width, full);
    let ghost wrapped = views(laid@);
    let ghost under = if wrapped.len() > 0 {
        wrapped.skip(1)
    } else {
        wrapped
    };
    let mut out: Vec<String> = Vec::new();
    let mut k: usize = 1;
    proof {
        assert(views(out@) =~= under.take(0).map_values(|r: Seq<char>| row_text(r)));
    }
    while k < laid.len()
        invariant
            1 <= k <= laid@.len() || (k == 1 && laid@.len() == 0),
            wrapped == views(laid@),
            under == (if wrapped.len() > 0 {
                wrapped.skip(1)
            } else {
                wrapped
            }),
            views(out@) == under.take(k - 1).map_values(|r: Seq<char>| row_text(r)),
        decreases laid@.len() - k,
    {
        let t = row(laid[k].as_str());
        let ghost was = views(out@);
        out.push(t);
        proof {
            assert(under[k - 1] == laid@[k as int]@);
            assert(under.take(k as int) =~= under.take(k - 1).push(under[k - 1]));
            assert(views(out@) =~= was.push(t@));
            assert(views(out@) =~= under.take(k as int).map_values(|r: Seq<char>| row_text(r)));
        }
        k = k + 1;
    }
    proof {
        assert(under.take(under.len() as int) =~= under);
        if laid@.len() > 0 {
            assert(k - 1 == under.len());
        } else {
            assert(under.len() == 0);
            assert(under.take(0) =~= under);
        }
    }
    let ghost before = views(out@);
    match note {
        Some(t) => {
            let r = row(t.as_str());
            out.push(r);
            proof {
                assert(views(out@) =~= before.push(r@));
            }
        },
        None => {},
    }
    proof {
        assert(views(out@) =~= spec_rows(body, text@, width as nat, full));
    }
    out
}

/// The message's first wrapped row: what the summary row paints, at the
/// width the body is laid out for. `None` only where there is nothing to wrap
/// at all: an empty message, or one written entirely in blank lines.
pub fn first_line(body: Body, text: &str, width: usize) -> (r: Option<String>)
    requires
        layable(text@, width as nat, false),
    ensures
        match r {
            Some(t) => spec_lay(body, text@, width as nat, false).0.len() > 0 && t@ == spec_lay(
                body,
                text@,
                width as nat,
                false,
            ).0[0],
            None => spec_lay(body, text@, width as nat, false).0.len() == 0,
        },
{
    let (laid, _) = lay(body, text, width, false);
    if laid.len() == 0 {
        None
    } else {
        Some(laid[0].clone())
    }
}

/// Does the clip leave anything out at this width? What opening the record
/// then shows, and, when this is false, a key that must not claim to.
pub fn clips(body: Body, text: &str, width: usize) -> (b: bool)
    requires
        layable(text@, width as nat, false),
    ensures
        b == spec_lay(body, text@, width as nat, false).1 is Some,
{
    let (_, note) = lay(body, text, width, false);
    note.is_some()
}

/// **The height is the rows painted.** The row arithmetic runs on the height
/// and the screen shows the rows: the two are one walk, and they agree for
/// every message, every width and both states.
pub proof fn lemma_height_is_rows(body: Body, text: Seq<char>, width: nat, full: bool)
    ensures
        spec_height(body, text, width, full) == spec_rows(body, text, width, full).len(),
{
}

/// **A clip is never silent.** When a laid-out body admits to leaving nothing
/// out, it was given the whole message (`body.bytes` of it, not just a head)
/// and its rows got through every byte of what it was given.
pub proof fn lemma_clip_is_never_silent(body: Body, text: Seq<char>, width: nat, full: bool)
    ensures
        spec_lay(body, text, width, full).1 is None ==> ({
            let t = laid_text(text, width, full);
            let w = spec_walk_text(
                t,
                spec_columns(width),
                if full {
                    usize::MAX as nat
                } else {
                    CLIP as nat
                },
                bytes_of(t) < body.bytes,
            );
            bytes_of(t) >= body.bytes && w.2 >= bytes_of(t)
        }),
{
}

} // verus!
