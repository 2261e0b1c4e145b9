//! One record laid out as tree rows.
//!
//! A record's row count, its rows and the path of the row under the cursor
//! have to agree exactly: the count decides how many rows the record occupies
//! in the document, so a walker that disagreed with the row builder by one
//! would shift every row after it. There is therefore one traversal, [`Walk`],
//! and every caller consumes the same stream of [`Step`]s. It carries its own
//! stack of open containers, so a record nested ten thousand deep costs heap
//! and never stack.
use vstd::prelude::*;

use crate::json::value::{Member, Value};
use crate::source::jsonrow::{
    body_ok, body_spans, scalar_spans, spans, spec_body_text, spec_row_prefix, spec_scalar_text, spec_too_deep,
    too_deep, Body, Mark, Shape,
    lemma_column_mono, path_step, spec_path_step, spec_summary_text, summary_text as shape_summary, MAX_DEPTH,
};
use crate::source::search::{char_width, column, width_within};
use crate::source::text::{bytes_of, lemma_bytes_push, lemma_encode_concat, spec_visible, utf8_len, visible};
use crate::source::record::body::views;

verus! {

/// What names a row inside its parent, as the rows' model holds it: an
/// object's key, or an array element's position.
pub enum Named {
    Key(Seq<char>),
    Index(nat),
}

/// One row of a record's tree, as the model holds it.
pub enum Row {
    /// A value on its own row: a scalar, or a container's opening line.
    /// `deep` is a container past [`MAX_DEPTH`], which is not opened.
    Node { depth: nat, named: Named, value: Value, deep: bool },
    /// The closing bracket of the container opened at `depth`.
    Close { depth: nat, value: Value },
}

/// Member `i` of a container, with what names it; `None` past the last one
/// and for a scalar.
pub open spec fn spec_child(v: Value, i: int) -> Option<(Named, Value)> {
    match v {
        Value::Array(items) => if 0 <= i < items@.len() {
            Some((Named::Index(i as nat), items@[i]))
        } else {
            None
        },
        Value::Object(ms) => if 0 <= i < ms@.len() {
            Some((Named::Key(ms@[i].key@), ms@[i].value))
        } else {
            None
        },
        _ => None,
    }
}

/// A container whose parent sits at `depth` is too deep to open when the
/// parent is already at the limit.
pub open spec fn too_deep_at(child: Value, depth: nat) -> bool {
    child.spec_is_container() && depth >= MAX_DEPTH
}

/// The rows of members `i..` of `v`, which sits at `depth`: each member's
/// own row, then (for a container that opens) its members and its closing
/// bracket.
pub open spec fn kids(v: Value, i: nat, depth: nat) -> Seq<Row>
    decreases v, v.spec_len() - i,
    via kids_decreases
{
    if i < v.spec_len() {
        let (named, child) = spec_child(v, i as int)->0;
        let deep = too_deep_at(child, depth);
        let own = seq![Row::Node { depth: depth + 1, named, value: child, deep }];
        let inner = if child.spec_is_container() && !deep {
            kids(child, 0, depth + 1) + seq![Row::Close { depth: depth + 1, value: child }]
        } else {
            Seq::empty()
        };
        own + inner + kids(v, i + 1, depth)
    } else {
        Seq::empty()
    }
}

/// A member is smaller than its container.
proof fn lemma_child_decreases(v: Value, i: nat)
    requires
        i < v.spec_len(),
    ensures
        decreases_to!(v => (spec_child(v, i as int)->0).1),
{
    match v {
        Value::Array(items) => {
            assert(decreases_to!(items => items@));
            assert(decreases_to!(items@ => items@[i as int]));
            assert(decreases_to!(v => items@[i as int]));
        },
        Value::Object(ms) => {
            assert(decreases_to!(ms => ms@));
            assert(decreases_to!(ms@ => ms@[i as int]));
            assert(decreases_to!(ms@[i as int] => ms@[i as int].value));
            assert(decreases_to!(v => ms@[i as int].value));
        },
        _ => {},
    }
}

#[via_fn]
proof fn kids_decreases(v: Value, i: nat, depth: nat) {
    if i < v.spec_len() {
        lemma_child_decreases(v, i);
    }
}

/// Every row of a record, in reading order: the record's own row first, at
/// depth 0, then its members and its closing bracket.
pub open spec fn spec_rows(root: Value) -> Seq<Row> {
    seq![Row::Node { depth: 0, named: Named::Index(0), value: root, deep: false }] + if root.spec_is_container() {
        kids(root, 0, 0) + seq![Row::Close { depth: 0, value: root }]
    } else {
        Seq::empty()
    }
}

/// The step a member adds to the path, in the `.users[3].name` spelling.
pub open spec fn step_of(named: Named) -> Seq<char> {
    match named {
        Named::Key(k) => spec_path_step(Some(k), 0),
        Named::Index(i) => spec_path_step(None, i),
    }
}

/// The path of each row of [`kids`], as its steps: a member's row and its
/// closing bracket both carry the member's path, which is the path `segs`
/// of its container and the member's own step.
pub open spec fn kids_segs(v: Value, i: nat, depth: nat, segs: Seq<Seq<char>>) -> Seq<Seq<Seq<char>>>
    decreases v, v.spec_len() - i,
    via kids_segs_decreases
{
    if i < v.spec_len() {
        let (named, child) = spec_child(v, i as int)->0;
        let deep = too_deep_at(child, depth);
        let own = segs.push(step_of(named));
        let inner = if child.spec_is_container() && !deep {
            kids_segs(child, 0, depth + 1, own) + seq![own]
        } else {
            Seq::empty()
        };
        seq![own] + inner + kids_segs(v, i + 1, depth, segs)
    } else {
        Seq::empty()
    }
}

#[via_fn]
proof fn kids_segs_decreases(v: Value, i: nat, depth: nat, segs: Seq<Seq<char>>) {
    if i < v.spec_len() {
        lemma_child_decreases(v, i);
    }
}

/// The path of each row of a record, as its steps: the record's own row and
/// its closing bracket have the empty path.
pub open spec fn spec_segs(root: Value) -> Seq<Seq<Seq<char>>> {
    seq![Seq::empty()] + if root.spec_is_container() {
        kids_segs(root, 0, 0, Seq::empty()) + seq![Seq::empty()]
    } else {
        Seq::empty()
    }
}

/// The value a row shows: its own, or the container a bracket closes.
pub open spec fn row_value(r: Row) -> Value {
    match r {
        Row::Node { value, .. } => value,
        Row::Close { value, .. } => value,
    }
}

/// `a` is where `b` starts.
pub open spec fn is_prefix(a: Seq<Seq<char>>, b: Seq<Seq<char>>) -> bool {
    a.len() <= b.len() && b.take(a.len() as int) == a
}

/// What names a node inside its parent: an object's key, or nothing at all
/// for an array element, which has no name in JSON and whose position is in
/// the path the status bar shows.
#[derive(Clone, Copy, Debug, PartialEq, Eq)]
pub enum Label<'a> {
    Key(&'a str),
    Index(usize),
}

impl<'a> Label<'a> {
    pub open spec fn view(&self) -> Named {
        match *self {
            Label::Key(k) => Named::Key(k@),
            Label::Index(i) => Named::Index(i as nat),
        }
    }

    /// This step of a path, in the `.users[3].name` spelling.
    pub fn path_step(&self) -> (s: String)
        ensures
            s@ == step_of(self@),
    {
        match self {
            Label::Key(k) => path_step(Some(*k), 0),
            Label::Index(i) => path_step(None, *i),
        }
    }

    /// The key a row is labelled with, if any.
    pub fn key(&self) -> (k: Option<&'a str>)
        ensures
            match self@ {
                Named::Key(name) => k matches Some(s) && s@ == name,
                Named::Index(_) => k is None,
            },
    {
        match self {
            Label::Key(k) => Some(*k),
            Label::Index(_) => None,
        }
    }
}

/// One row of the tree, as the walk hands it out.
pub enum Step<'a> {
    /// A value on its own row: a scalar, or a container's opening line.
    /// `deep` is a container the walk refused to open because it sits past
    /// [`MAX_DEPTH`]: one row, with no closing bracket.
    Node { depth: usize, label: Label<'a>, value: &'a Value, deep: bool },
    /// The closing bracket of the container opened at `depth`.
    Close { depth: usize, value: &'a Value },
}

impl<'a> Step<'a> {
    pub open spec fn view(&self) -> Row {
        match *self {
            Step::Node { depth, label, value, deep } => Row::Node {
                depth: depth as nat,
                named: label@,
                value: *value,
                deep,
            },
            Step::Close { depth, value } => Row::Close { depth: depth as nat, value: *value },
        }
    }

    /// The depth the row sits at.
    pub fn depth(&self) -> (d: usize)
        ensures
            d as nat == match self@ {
                Row::Node { depth, .. } => depth,
                Row::Close { depth, .. } => depth,
            },
    {
        match self {
            Step::Node { depth, .. } => *depth,
            Step::Close { depth, .. } => *depth,
        }
    }
}

/// Member `i` of a container, with the label that names it.
fn child_at<'a>(parent: &'a Value, i: usize) -> (r: Option<(Label<'a>, &'a Value)>)
    ensures
        match r {
            Some((label, child)) => spec_child(*parent, i as int) == Some((label@, *child)) && i < usize::MAX,
            None => spec_child(*parent, i as int) is None,
        },
{
    match parent {
        Value::Array(items) => {
            if i < items.len() {
                Some((Label::Index(i), &items[i]))
            } else {
                None
            }
        },
        Value::Object(ms) => {
            if i < ms.len() {
                let m: &'a Member = &ms[i];
                Some((Label::Key(m.key.as_str()), &m.value))
            } else {
                None
            }
        },
        _ => None,
    }
}

/// The rows a container still owes from member `i` on: those members, then
/// its closing bracket.
pub open spec fn frame_rest(f: (Value, usize, usize)) -> Seq<Row> {
    kids(f.0, f.1 as nat, f.2 as nat) + seq![Row::Close { depth: f.2 as nat, value: f.0 }]
}

/// The rows the open containers still owe, innermost first.
pub open spec fn pending(stack: Seq<(Value, usize, usize)>) -> Seq<Row>
    decreases stack.len(),
{
    if stack.len() == 0 {
        Seq::empty()
    } else {
        frame_rest(stack.last()) + pending(stack.drop_last())
    }
}

/// The first row is the record's own, and what follows it is what its
/// frame owes.
proof fn lemma_start(root: Value, frames: Seq<(Value, usize, usize)>)
    requires
        root.spec_is_container() ==> frames == seq![(root, 0usize, 0usize)],
        !root.spec_is_container() ==> frames.len() == 0,
    ensures
        spec_rows(root).len() > 0,
        spec_rows(root)[0] == (Row::Node { depth: 0, named: Named::Index(0), value: root, deep: false }),
        pending(frames) == spec_rows(root).drop_first(),
{
    if root.spec_is_container() {
        assert(frames.drop_last() =~= Seq::<(Value, usize, usize)>::empty());
        assert(pending(frames.drop_last()) =~= Seq::<Row>::empty());
        assert(pending(frames) =~= frame_rest((root, 0usize, 0usize)));
    }
    assert(pending(frames) =~= spec_rows(root).drop_first());
}

/// A container with no member left owes only its closing bracket.
proof fn lemma_close(before: Seq<(Value, usize, usize)>, below: Seq<(Value, usize, usize)>)
    requires
        before.len() > 0,
        below == before.drop_last(),
        spec_child(before.last().0, before.last().1 as int) is None,
    ensures
        pending(before).len() > 0,
        pending(before)[0] == (Row::Close { depth: before.last().2 as nat, value: before.last().0 }),
        pending(below) == pending(before).drop_first(),
{
    let f = before.last();
    assert(kids(f.0, f.1 as nat, f.2 as nat) =~= Seq::<Row>::empty());
    assert(pending(before) =~= seq![Row::Close { depth: f.2 as nat, value: f.0 }] + pending(below));
}

/// Visiting a member hands out its row and leaves its container owing the
/// rest, with the member's own frame on top when it opens.
proof fn lemma_descend(
    before: Seq<(Value, usize, usize)>,
    below: Seq<(Value, usize, usize)>,
    named: Named,
    child: Value,
    deep: bool,
    after: Seq<(Value, usize, usize)>,
)
    requires
        before.len() > 0,
        below == before.drop_last(),
        before.last().1 < usize::MAX,
        before.last().2 <= MAX_DEPTH,
        spec_child(before.last().0, before.last().1 as int) == Some((named, child)),
        deep == (child.spec_is_container() && before.last().2 >= MAX_DEPTH),
        child.spec_is_container() && !deep ==> after == below.push(
            (before.last().0, (before.last().1 + 1) as usize, before.last().2),
        ).push((child, 0usize, (before.last().2 + 1) as usize)),
        !(child.spec_is_container() && !deep) ==> after == below.push(
            (before.last().0, (before.last().1 + 1) as usize, before.last().2),
        ),
    ensures
        pending(before).len() > 0,
        pending(before)[0] == (Row::Node { depth: (before.last().2 + 1) as nat, named, value: child, deep }),
        pending(after) == pending(before).drop_first(),
{
    let (parent, i, depth) = before.last();
    let next_frame = (parent, (i + 1) as usize, depth);
    let own = seq![Row::Node { depth: (depth + 1) as nat, named, value: child, deep }];
    let opened = child.spec_is_container() && !deep;
    let inner = if opened {
        kids(child, 0, (depth + 1) as nat) + seq![Row::Close { depth: (depth + 1) as nat, value: child }]
    } else {
        Seq::empty()
    };
    assert(kids(parent, i as nat, depth as nat) =~= own + inner + kids(parent, (i + 1) as nat, depth as nat));
    let mid = below.push(next_frame);
    assert(mid.drop_last() =~= below);
    assert(pending(mid) =~= frame_rest(next_frame) + pending(below));
    if opened {
        let child_frame = (child, 0usize, (depth + 1) as usize);
        assert(after.drop_last() =~= mid);
        assert(frame_rest(child_frame) =~= inner);
        assert(pending(after) =~= inner + pending(mid));
    }
    assert(pending(before) =~= own + inner + frame_rest(next_frame) + pending(below));
    assert(pending(after) =~= pending(before).drop_first());
}

/// The paths a container still owes from member `i` on, its own path being
/// `segs`: those of its members' rows, then its own for its closing bracket.
pub open spec fn frame_segs(f: (Value, usize, usize), segs: Seq<Seq<char>>) -> Seq<Seq<Seq<char>>> {
    kids_segs(f.0, f.1 as nat, f.2 as nat, segs) + seq![segs]
}

/// The paths the open containers still owe, innermost first.
pub open spec fn pending_segs(stack: Seq<(Value, usize, usize)>, segs: Seq<Seq<Seq<char>>>) -> Seq<Seq<Seq<char>>>
    decreases stack.len(),
{
    if stack.len() == 0 || segs.len() == 0 {
        Seq::empty()
    } else {
        frame_segs(stack.last(), segs.last()) + pending_segs(stack.drop_last(), segs.drop_last())
    }
}

/// How a row's path follows from the path of the row before it: a member's
/// row keeps the path of its container, the first `depth - 1` steps, and
/// adds its own; a closing bracket keeps the first `depth`.
pub open spec fn follows(prev: Seq<Seq<char>>, row: Row, segs: Seq<Seq<char>>) -> bool {
    match row {
        Row::Node { depth, named, .. } => if depth > 0 {
            depth - 1 <= prev.len() && segs == prev.take(depth - 1).push(step_of(named))
        } else {
            segs == Seq::<Seq<char>>::empty()
        },
        Row::Close { depth, .. } => depth <= prev.len() && segs == prev.take(depth as int),
    }
}

/// The record's own row has the empty path, and what follows is what its
/// frame owes.
proof fn lemma_start_segs(root: Value, frames: Seq<(Value, usize, usize)>, segs: Seq<Seq<Seq<char>>>)
    requires
        root.spec_is_container() ==> frames == seq![(root, 0usize, 0usize)] && segs == seq![Seq::<Seq<char>>::empty()],
        !root.spec_is_container() ==> frames.len() == 0 && segs.len() == 0,
    ensures
        spec_segs(root).len() > 0,
        spec_segs(root)[0] == Seq::<Seq<char>>::empty(),
        pending_segs(frames, segs) == spec_segs(root).drop_first(),
{
    if root.spec_is_container() {
        assert(frames.drop_last() =~= Seq::<(Value, usize, usize)>::empty());
        assert(pending_segs(frames.drop_last(), segs.drop_last()) =~= Seq::<Seq<Seq<char>>>::empty());
        assert(pending_segs(frames, segs) =~= frame_segs((root, 0usize, 0usize), Seq::empty()));
    }
    assert(pending_segs(frames, segs) =~= spec_segs(root).drop_first());
}

/// A container with no member left owes only its own path, for its bracket.
proof fn lemma_close_segs(
    before: Seq<(Value, usize, usize)>,
    bsegs: Seq<Seq<Seq<char>>>,
)
    requires
        before.len() > 0,
        bsegs.len() == before.len(),
        spec_child(before.last().0, before.last().1 as int) is None,
    ensures
        pending_segs(before, bsegs).len() > 0,
        pending_segs(before, bsegs)[0] == bsegs.last(),
        pending_segs(before.drop_last(), bsegs.drop_last()) == pending_segs(before, bsegs).drop_first(),
{
    let f = before.last();
    assert(kids_segs(f.0, f.1 as nat, f.2 as nat, bsegs.last()) =~= Seq::<Seq<Seq<char>>>::empty());
    assert(pending_segs(before, bsegs) =~= seq![bsegs.last()] + pending_segs(before.drop_last(), bsegs.drop_last()));
}

/// Visiting a member hands out its path, and its frame, when it opens, owes
/// its members' paths under it.
proof fn lemma_descend_segs(
    before: Seq<(Value, usize, usize)>,
    bsegs: Seq<Seq<Seq<char>>>,
    named: Named,
    child: Value,
    deep: bool,
    after: Seq<(Value, usize, usize)>,
    asegs: Seq<Seq<Seq<char>>>,
)
    requires
        before.len() > 0,
        bsegs.len() == before.len(),
        before.last().1 < usize::MAX,
        before.last().2 <= MAX_DEPTH,
        spec_child(before.last().0, before.last().1 as int) == Some((named, child)),
        deep == (child.spec_is_container() && before.last().2 >= MAX_DEPTH),
        child.spec_is_container() && !deep ==> after == before.drop_last().push(
            (before.last().0, (before.last().1 + 1) as usize, before.last().2),
        ).push((child, 0usize, (before.last().2 + 1) as usize)) && asegs == bsegs.drop_last().push(
            bsegs.last(),
        ).push(bsegs.last().push(step_of(named))),
        !(child.spec_is_container() && !deep) ==> after == before.drop_last().push(
            (before.last().0, (before.last().1 + 1) as usize, before.last().2),
        ) && asegs == bsegs.drop_last().push(bsegs.last()),
    ensures
        pending_segs(before, bsegs).len() > 0,
        pending_segs(before, bsegs)[0] == bsegs.last().push(step_of(named)),
        pending_segs(after, asegs) == pending_segs(before, bsegs).drop_first(),
{
    let (parent, i, depth) = before.last();
    let below = before.drop_last();
    let bel = bsegs.drop_last();
    let f = bsegs.last();
    let own = f.push(step_of(named));
    let next_frame = (parent, (i + 1) as usize, depth);
    let opened = child.spec_is_container() && !deep;
    let inner = if opened {
        kids_segs(child, 0, (depth + 1) as nat, own) + seq![own]
    } else {
        Seq::empty()
    };
    assert(kids_segs(parent, i as nat, depth as nat, f) =~= seq![own] + inner + kids_segs(parent, (i + 1) as nat, depth as nat, f));
    let mid = below.push(next_frame);
    let msegs = bel.push(f);
    assert(mid.drop_last() =~= below);
    assert(msegs.drop_last() =~= bel);
    assert(pending_segs(mid, msegs) =~= frame_segs(next_frame, f) + pending_segs(below, bel));
    if opened {
        let child_frame = (child, 0usize, (depth + 1) as usize);
        assert(after.drop_last() =~= mid);
        assert(asegs.drop_last() =~= msegs);
        assert(frame_segs(child_frame, own) =~= inner);
        assert(pending_segs(after, asegs) =~= inner + pending_segs(mid, msegs));
    }
    assert(pending_segs(before, bsegs) =~= seq![own] + inner + frame_segs(next_frame, f) + pending_segs(below, bel));
    assert(pending_segs(after, asegs) =~= pending_segs(before, bsegs).drop_first());
}

/// The one traversal of a record's tree: the record itself and every
/// descendant, in reading order, one [`Step`] per row.
pub struct Walk<'a> {
    root: &'a Value,
    started: bool,
    /// The open containers: each with the member to visit next and its depth.
    stack: Vec<(&'a Value, usize, usize)>,
    /// The path of each open container, as its steps.
    fsegs: Ghost<Seq<Seq<Seq<char>>>>,
    /// The path of the row handed out last.
    last: Ghost<Seq<Seq<char>>>,
}

impl<'a> Walk<'a> {
    /// The open containers, as values.
    pub closed spec fn frames(&self) -> Seq<(Value, usize, usize)> {
        self.stack@.map_values(|f: (&'a Value, usize, usize)| (*f.0, f.1, f.2))
    }

    /// The rows still to come.
    pub closed spec fn rest(&self) -> Seq<Row> {
        if self.started {
            pending(self.frames())
        } else {
            spec_rows(*self.root)
        }
    }

    /// The paths of the rows still to come.
    pub closed spec fn rest_segs(&self) -> Seq<Seq<Seq<char>>> {
        if self.started {
            pending_segs(self.frames(), self.fsegs@)
        } else {
            spec_segs(*self.root)
        }
    }

    /// The path of the row handed out last; empty before the first.
    pub closed spec fn last_segs(&self) -> Seq<Seq<char>> {
        self.last@
    }

    /// Every open container sits no deeper than the limit, each one's path
    /// has a step per level and continues its parent's, and the innermost
    /// one's path starts the path of the row handed out last.
    pub closed spec fn wf(&self) -> bool {
        &&& !self.started ==> self.stack@.len() == 0 && self.last@.len() == 0
        &&& forall|k: int| 0 <= k < self.stack@.len() ==> #[trigger] self.stack@[k].2 <= MAX_DEPTH
        &&& self.fsegs@.len() == self.stack@.len()
        &&& forall|k: int| 0 <= k < self.stack@.len() ==> (#[trigger] self.fsegs@[k]).len() == self.stack@[k].2
        &&& forall|k: int| 0 < k < self.stack@.len() ==> is_prefix(self.fsegs@[k - 1], #[trigger] self.fsegs@[k])
        &&& self.stack@.len() > 0 ==> is_prefix(self.fsegs@.last(), self.last@)
    }

    /// A walk over `root` that has handed out nothing yet.
    fn over(root: &'a Value) -> (w: Walk<'a>)
        ensures
            w.wf(),
            w.rest() == spec_rows(*root),
            w.rest_segs() == spec_segs(*root),
            w.last_segs() == Seq::<Seq<char>>::empty(),
    {
        Walk { root, started: false, stack: Vec::new(), fsegs: Ghost(Seq::empty()), last: Ghost(Seq::empty()) }
    }

    /// The next row, or `None` once every row has been handed out.
    pub fn next(&mut self) -> (r: Option<Step<'a>>)
        requires
            old(self).wf(),
        ensures
            final(self).wf(),
            match r {
                Some(s) => old(self).rest().len() > 0 && s@ == old(self).rest()[0] && final(self).rest()
                    == old(self).rest().drop_first() && old(self).rest_segs().len() > 0
                    && final(self).rest_segs() == old(self).rest_segs().drop_first()
                    && final(self).last_segs() == old(self).rest_segs()[0]
                    && follows(old(self).last_segs(), s@, old(self).rest_segs()[0]),
                None => old(self).rest().len() == 0 && final(self).rest() == old(self).rest()
                    && final(self).last_segs() == old(self).last_segs(),
            },
    {
        if !self.started {
            self.started = true;
            let root = self.root;
            if root.is_container() {
                self.stack.push((root, 0, 0));
                self.fsegs = Ghost(Seq::<Seq<Seq<char>>>::empty().push(Seq::empty()));
            }
            proof {
                if root.spec_is_container() {
                    assert(self.frames() =~= seq![(*root, 0usize, 0usize)]);
                } else {
                    assert(self.frames() =~= Seq::<(Value, usize, usize)>::empty());
                }
                lemma_start(*root, self.frames());
                lemma_start_segs(*root, self.frames(), self.fsegs@);
                assert(self.last@ =~= Seq::<Seq<char>>::empty());
                assert(self.last@.take(0) =~= Seq::<Seq<char>>::empty());
            }
            return Some(Step::Node { depth: 0, label: Label::Index(0), value: root, deep: false });
        }
        let ghost before = self.frames();
        let ghost bstack = self.stack@;
        let (parent, i, depth) = match self.stack.pop() {
            Some(f) => f,
            None => {
                return None;
            },
        };
        let ghost below = self.frames();
        let ghost bsegs = self.fsegs@;
        let ghost prev = self.last@;
        proof {
            assert(below =~= before.drop_last());
            assert(bsegs.last().len() == depth);
        }
        match child_at(parent, i) {
            None => {
                self.fsegs = Ghost(bsegs.drop_last());
                self.last = Ghost(bsegs.last());
                proof {
                    lemma_close(before, below);
                    lemma_close_segs(before, bsegs);
                    let n = bstack.len() - 1;
                    assert(self.stack@ =~= bstack.drop_last());
                    assert forall|k: int| 0 <= k < self.stack@.len() implies #[trigger] self.stack@[k].2
                        <= MAX_DEPTH && (#[trigger] self.fsegs@[k]).len() == self.stack@[k].2 by {
                        assert(self.stack@[k] == bstack[k]);
                        assert(self.fsegs@[k] == bsegs[k]);
                    }
                    assert forall|k: int| 0 < k < self.stack@.len() implies is_prefix(
                        self.fsegs@[k - 1],
                        #[trigger] self.fsegs@[k],
                    ) by {
                        assert(self.fsegs@[k] == bsegs[k]);
                        assert(self.fsegs@[k - 1] == bsegs[k - 1]);
                    }
                    if self.stack@.len() > 0 {
                        assert(is_prefix(bsegs[n - 1], bsegs[n]));
                        assert(self.fsegs@.last() == bsegs[n - 1]);
                    }
                    assert(prev.take(depth as int) =~= bsegs.last());
                }
                Some(Step::Close { depth, value: parent })
            },
            Some((label, child)) => {
                self.stack.push((parent, i + 1, depth));
                let ghost mid = self.frames();
                let ghost own = bsegs.last().push(step_of(label@));
                self.fsegs = Ghost(bsegs.drop_last().push(bsegs.last()));
                self.last = Ghost(own);
                let deep = child.is_container() && depth >= MAX_DEPTH;
                if child.is_container() && !deep {
                    self.stack.push((child, 0, depth + 1));
                    self.fsegs = Ghost(bsegs.drop_last().push(bsegs.last()).push(own));
                }
                proof {
                    let n = bstack.len() - 1;
                    assert(prev.take(depth as int) =~= bsegs.last());
                    assert(own.take(depth as int) =~= bsegs.last());
                    assert(mid =~= below.push((*parent, (i + 1) as usize, depth)));
                    if child.spec_is_container() && !deep {
                        assert(self.frames() =~= mid.push((*child, 0usize, (depth + 1) as usize)));
                    } else {
                        assert(self.frames() =~= mid);
                    }
                    lemma_descend(before, below, label@, *child, deep, self.frames());
                    lemma_descend_segs(before, bsegs, label@, *child, deep, self.frames(), self.fsegs@);
                    assert forall|k: int| 0 <= k < self.stack@.len() implies #[trigger] self.stack@[k].2
                        <= MAX_DEPTH && (#[trigger] self.fsegs@[k]).len() == self.stack@[k].2 by {
                        if k < n {
                            assert(self.stack@[k] == bstack[k]);
                            assert(self.fsegs@[k] == bsegs[k]);
                        } else if k == n {
                            assert(self.fsegs@[k] == bsegs[n]);
                        }
                    }
                    assert forall|k: int| 0 < k < self.stack@.len() implies is_prefix(
                        self.fsegs@[k - 1],
                        #[trigger] self.fsegs@[k],
                    ) by {
                        if k < n {
                            assert(self.fsegs@[k] == bsegs[k]);
                            assert(self.fsegs@[k - 1] == bsegs[k - 1]);
                        } else if k == n {
                            assert(self.fsegs@[k] == bsegs[n]);
                            assert(self.fsegs@[k - 1] == bsegs[n - 1]);
                        } else {
                            assert(self.fsegs@[k] == own);
                            assert(self.fsegs@[k - 1] == bsegs[n]);
                            assert(own.take(bsegs[n].len() as int) =~= bsegs[n]);
                        }
                    }
                    assert(own.take(own.len() as int) =~= own);
                    assert(own.take(bsegs[n].len() as int) =~= bsegs[n]);
                }
                Some(Step::Node { depth: depth + 1, label, value: child, deep })
            },
        }
    }
}

/// The record itself and every descendant, in reading order, one [`Step`]
/// per row: the record's own row first, at depth 0, exactly as the document
/// source emits its root.
pub fn walk<'a>(root: &'a Value) -> (w: Walk<'a>)
    ensures
        w.wf(),
        w.rest() == spec_rows(*root),
        w.rest_segs() == spec_segs(*root),
        w.last_segs() == Seq::<Seq<char>>::empty(),
{
    Walk::over(root)
}

/// How many rows `root` expands into below its own summary row. The
/// counting consumer of [`Walk`], so it cannot drift from the rows.
pub fn row_count(root: &Value) -> (n: usize)
    requires
        spec_rows(*root).len() <= usize::MAX,
    ensures
        n == spec_rows(*root).len() - 1,
{
    let mut w = walk(root);
    let mut n: usize = 0;
    loop
        invariant
            w.wf(),
            n + w.rest().len() == spec_rows(*root).len(),
            spec_rows(*root).len() <= usize::MAX,
        ensures
            w.rest().len() == 0,
        decreases w.rest().len(),
    {
        match w.next() {
            Some(_) => {
                n = n + 1;
            },
            None => {
                break;
            },
        }
    }
    proof {
        assert(spec_rows(*root).len() >= 1);
    }
    n - 1
}

/// The steps of a path, written out as one.
fn concat(segs: &Vec<String>) -> (s: String)
    ensures
        s@ == views(segs@).flatten(),
{
    let mut out = String::new();
    let mut k: usize = 0;
    while k < segs.len()
        invariant
            k <= segs@.len(),
            out@ == views(segs@).take(k as int).flatten(),
        decreases segs@.len() - k,
    {
        proof {
            assert(views(segs@).take(k + 1) =~= views(segs@).take(k as int).push(segs@[k as int]@));
            views(segs@).take(k as int).lemma_flatten_push(segs@[k as int]@);
        }
        out.append(segs[k].as_str());
        k = k + 1;
    }
    proof {
        assert(views(segs@).take(k as int) =~= views(segs@));
    }
    out
}

/// Row `i` below the record's summary row: its path and the value on it. A
/// closing bracket names the container it closes. `None` past the last row.
pub fn node_at<'a>(root: &'a Value, i: usize) -> (r: Option<(String, &'a Value)>)
    requires
        spec_rows(*root).len() <= usize::MAX,
    ensures
        r is Some <==> i + 1 < spec_rows(*root).len(),
        r matches Some((path, value)) ==> path@ == spec_segs(*root)[i + 1].flatten() && *value == row_value(
            spec_rows(*root)[i + 1],
        ),
{
    let ghost rows = spec_rows(*root);
    let ghost paths = spec_segs(*root);
    let mut w = walk(root);
    let mut segs: Vec<String> = Vec::new();
    let mut found: Option<(String, &'a Value)> = None;
    let mut n: usize = 0;
    proof {
        assert(rows.skip(0) =~= rows);
        assert(paths.skip(0) =~= paths);
        assert(views(segs@) =~= Seq::<Seq<char>>::empty());
    }
    loop
        invariant
            w.wf(),
            n + w.rest().len() == rows.len(),
            rows.len() <= usize::MAX,
            rows == spec_rows(*root),
            paths == spec_segs(*root),
            w.rest() == rows.skip(n as int),
            n <= paths.len(),
            w.rest_segs() == paths.skip(n as int),
            views(segs@) == w.last_segs(),
            n <= i + 1 ==> found is None,
            n > i + 1 ==> (found matches Some((path, value)) && path@ == paths[i + 1].flatten() && *value
                == row_value(rows[i + 1])),
        ensures
            w.rest().len() == 0,
        decreases w.rest().len(),
    {
        let ghost prev = w.last_segs();
        let ghost rest_segs = w.rest_segs();
        let step = match w.next() {
            Some(s) => s,
            None => {
                break;
            },
        };
        let (d, value) = match &step {
            Step::Node { depth, value, .. } => (*depth, *value),
            Step::Close { depth, value } => (*depth, *value),
        };
        let mut pushed = false;
        if let Step::Node { depth, label, .. } = &step {
            if *depth > 0 {
                segs.truncate(*depth - 1);
                let p = label.path_step();
                segs.push(p);
                pushed = true;
            }
        }
        if !pushed {
            segs.truncate(d);
        }
        proof {
            assert(views(segs@) =~= rest_segs[0]);
            assert(rows.skip(n as int).drop_first() =~= rows.skip(n + 1));
            assert(paths.skip(n as int).drop_first() =~= paths.skip(n + 1));
            assert(rest_segs[0] == paths[n as int]);
            assert(step@ == rows[n as int]);
        }
        if n > 0 && n - 1 == i {
            let path = concat(&segs);
            found = Some((path, value));
        }
        n = n + 1;
    }
    found
}

/// `{…5 keys}` or `[…120 items]` for a container, in the shared spelling;
/// nothing for a scalar.
pub fn summary_text(v: &Value) -> (s: String)
    ensures
        s@ == if v.spec_is_container() {
            spec_summary_text(v.spec_shape(), v.spec_len(), true)
        } else {
            Seq::empty()
        },
{
    if v.is_container() {
        shape_summary(v.shape(), v.len(), true)
    } else {
        proof {
            reveal_strlit("");
        }
        String::from_str("")
    }
}

/// Short scalars a collapsed record's row shows beside its summary.
pub const PREVIEW_FIELDS: usize = 3;

/// The widest a previewed scalar may be before it is not short any more.
pub const PREVIEW_WIDTH: usize = 40;

/// A scalar small enough, and telling enough, to stand on a summary row: a
/// one-line string or a number no wider than [`PREVIEW_WIDTH`], or a bool.
/// `null` is not: it says nothing the key alone did not.
pub open spec fn spec_short_scalar(v: Value) -> bool {
    match v {
        Value::Str(s) => column(s@, s@.len() as int) <= PREVIEW_WIDTH && !s@.contains('\n'),
        Value::Number(n) => bytes_of(n@) <= PREVIEW_WIDTH,
        Value::Bool(_) => true,
        _ => false,
    }
}

/// Is there a line break in `s`?
fn has_newline(s: &str) -> (b: bool)
    ensures
        b == s@.contains('\n'),
{
    let n = s.unicode_len();
    let mut i: usize = 0;
    while i < n
        invariant
            i <= n,
            n == s@.len(),
            forall|j: int| 0 <= j < i ==> s@[j] != '\n',
        decreases n - i,
    {
        if s.get_char(i) == '\n' {
            return true;
        }
        i = i + 1;
    }
    false
}

/// Is `s` no longer than `limit` bytes? Stops reading past the limit.
fn bytes_within(s: &str, limit: usize) -> (b: bool)
    ensures
        b == (bytes_of(s@) <= limit),
{
    let n = s.unicode_len();
    let mut total: usize = 0;
    let mut i: usize = 0;
    proof {
        assert(s@.take(0) =~= Seq::<char>::empty());
        lemma_encode_concat(Seq::<char>::empty(), Seq::<char>::empty());
        assert(Seq::<char>::empty() + Seq::<char>::empty() =~= Seq::<char>::empty());
    }
    while i < n
        invariant
            i <= n,
            n == s@.len(),
            total == bytes_of(s@.take(i as int)),
            total <= limit,
        decreases n - i,
    {
        let c = s.get_char(i);
        proof {
            lemma_bytes_push(s@.take(i as int), c);
            assert(s@.take(i as int).push(c) =~= s@.take(i + 1));
        }
        let b = utf8_len(c);
        if b > limit - total {
            proof {
                lemma_encode_concat(s@.take(i + 1), s@.skip(i + 1));
                assert(s@.take(i + 1) + s@.skip(i + 1) =~= s@);
            }
            return false;
        }
        total = total + b;
        i = i + 1;
    }
    proof {
        assert(s@.take(n as int) =~= s@);
    }
    true
}

/// A scalar small enough, and telling enough, to stand on a summary row:
/// [`spec_short_scalar`].
pub fn short_scalar(v: &Value) -> (b: bool)
    ensures
        b == spec_short_scalar(*v),
{
    match v {
        Value::Str(s) => width_within(s.as_str(), PREVIEW_WIDTH) && !has_newline(s.as_str()),
        Value::Number(n) => bytes_within(n.as_str(), PREVIEW_WIDTH),
        Value::Bool(_) => true,
        _ => false,
    }
}

/// The short scalar members of `v` from member `i` on, in document order,
/// each with its key when `v` is an object and its position.
pub open spec fn short_from(v: Value, i: nat) -> Seq<(Option<Seq<char>>, nat)>
    decreases v.spec_len() - i,
{
    if i < v.spec_len() {
        let (named, child) = spec_child(v, i as int)->0;
        let key = match named {
            Named::Key(k) => Some(k),
            Named::Index(_) => None,
        };
        (if spec_short_scalar(child) {
            seq![(key, i)]
        } else {
            Seq::empty()
        }) + short_from(v, i + 1)
    } else {
        Seq::empty()
    }
}

/// A preview as the model holds it.
pub open spec fn preview_view(p: (Option<String>, usize)) -> (Option<Seq<char>>, nat) {
    (
        match p.0 {
            Some(k) => Some(k@),
            None => None,
        },
        p.1 as nat,
    )
}

/// Up to [`PREVIEW_FIELDS`] short scalar members of `v`, in document order:
/// each one's key, when `v` is an object, and its position among the members.
pub fn previews(v: &Value) -> (out: Vec<(Option<String>, usize)>)
    ensures
        out@.map_values(|p: (Option<String>, usize)| preview_view(p)) == short_from(*v, 0).take(
            if short_from(*v, 0).len() < PREVIEW_FIELDS {
                short_from(*v, 0).len() as int
            } else {
                PREVIEW_FIELDS as int
            },
        ),
{
    let n = v.len();
    let mut out: Vec<(Option<String>, usize)> = Vec::new();
    let mut i: usize = 0;
    while i < n
        invariant
            i <= n,
            n == v.spec_len(),
            out@.len() <= PREVIEW_FIELDS,
            out@.map_values(|p: (Option<String>, usize)| preview_view(p)) + short_from(*v, i as nat)
                == short_from(*v, 0),
        ensures
            i >= n || out@.len() == PREVIEW_FIELDS,
        decreases n - i,
    {
        if out.len() == PREVIEW_FIELDS {
            break;
        }
        let ghost before = out@.map_values(|p: (Option<String>, usize)| preview_view(p));
        match child_at(v, i) {
            Some((label, child)) => {
                if short_scalar(child) {
                    let key = match label.key() {
                        Some(k) => Some(k.to_string()),
                        None => None,
                    };
                    out.push((key, i));
                    proof {
                        assert(out@.map_values(|p: (Option<String>, usize)| preview_view(p)) =~= before.push(
                            preview_view((key, i)),
                        ));
                    }
                }
            },
            None => {},
        }
        proof {
            let after = out@.map_values(|p: (Option<String>, usize)| preview_view(p));
            assert(after + short_from(*v, (i + 1) as nat) =~= before + short_from(*v, i as nat));
        }
        i = i + 1;
    }
    proof {
        let got = out@.map_values(|p: (Option<String>, usize)| preview_view(p));
        if out@.len() < PREVIEW_FIELDS {
            assert(short_from(*v, i as nat) =~= Seq::<(Option<Seq<char>>, nat)>::empty());
            assert(got + short_from(*v, i as nat) =~= got);
        }
        assert(short_from(*v, 0).take(got.len() as int) =~= got);
    }
    out
}

/// The rows and the paths of members `i..` line up one for one.
proof fn lemma_kids_segs_len(v: Value, i: nat, depth: nat, segs: Seq<Seq<char>>)
    ensures
        kids_segs(v, i, depth, segs).len() == kids(v, i, depth).len(),
    decreases v, v.spec_len() - i,
{
    if i < v.spec_len() {
        let (named, child) = spec_child(v, i as int)->0;
        let own = segs.push(step_of(named));
        lemma_child_decreases(v, i);
        lemma_kids_segs_len(child, 0, depth + 1, own);
        lemma_kids_segs_len(v, i + 1, depth, segs);
    }
}

/// **Every row has its path.** The walk's rows and the paths the status
/// bar names them by line up one for one, so the count [`row_count`] gives
/// is exactly the rows [`node_at`] can name.
pub proof fn lemma_every_row_has_a_path(root: Value)
    ensures
        spec_segs(root).len() == spec_rows(root).len(),
{
    lemma_kids_segs_len(root, 0, 0, Seq::empty());
}

/// A value as it shows when it is not expanded: a scalar in full, a
/// container as the summary of how much it holds.
pub open spec fn spec_value_text(v: Value) -> Seq<char> {
    if v.spec_is_container() {
        spec_summary_text(v.spec_shape(), v.spec_len(), true)
    } else {
        spec_scalar_text(v)
    }
}

/// The body a value has when it is not expanded.
fn value_body<'a>(v: &'a Value, shape: Shape) -> (b: Body<'a>)
    requires
        shape == v.spec_shape(),
    ensures
        body_ok(b),
        spec_body_text(b) == spec_value_text(*v),
{
    if shape.is_container() {
        Body::Summary(shape, v.len(), true)
    } else {
        Body::Scalar(v)
    }
}

/// A value as it shows on its own collapsed row, with no gutter:
/// [`spec_value_text`].
pub fn value_spans(v: &Value) -> (s: String)
    ensures
        s@ == spec_value_text(*v),
{
    body_spans(value_body(v, v.shape()))
}

/// The key a row is labelled with, if any.
pub open spec fn key_of(named: Named) -> Option<Seq<char>> {
    match named {
        Named::Key(k) => Some(k),
        Named::Index(_) => None,
    }
}

/// A tree row's text. `open` is whether a container on the row is expanded,
/// which below a record's summary row it always is: then its row is its
/// opening bracket, and its last row the closing one.
pub open spec fn spec_step_text(r: Row, open: bool) -> Seq<char> {
    match r {
        Row::Node { depth, named, value, deep } => if deep {
            spec_row_prefix(depth, Mark::Leaf, key_of(named)) + spec_too_deep(MAX_DEPTH as nat)
        } else {
            let shape = value.spec_shape();
            spec_row_prefix(depth, Mark::spec_of(shape, open), key_of(named)) + if shape.spec_is_container()
                && open {
                shape.spec_brackets().0
            } else {
                spec_value_text(value)
            }
        },
        Row::Close { depth, value } => spec_row_prefix(depth, Mark::Leaf, None) + value.spec_shape().spec_brackets().1,
    }
}

/// A closing bracket closes a container.
pub open spec fn step_ok(r: Row) -> bool {
    r matches Row::Close { value, .. } ==> value.spec_is_container()
}

/// One tree row's text: [`spec_step_text`].
pub fn step_spans(step: &Step, open: bool) -> (s: String)
    requires
        step_ok(step@),
    ensures
        s@ == spec_step_text(step@, open),
{
    match step {
        Step::Node { depth, label, value, deep } => {
            let key = label.key();
            let ghost k = match key {
                Some(x) => Some(x@),
                None => None,
            };
            proof {
                assert(k == key_of(label@));
            }
            if *deep {
                let s = spans(*depth, Mark::Leaf, key, Body::Note(too_deep(MAX_DEPTH)));
                s
            } else {
                let shape = value.shape();
                let body = if shape.is_container() && open {
                    Body::Bracket(shape)
                } else {
                    value_body(*value, shape)
                };
                spans(*depth, Mark::of(shape, open), key, body)
            }
        },
        Step::Close { depth, value } => spans(*depth, Mark::Leaf, None, Body::Close(value.shape())),
    }
}

/// Every closing bracket among members' rows closes a container.
proof fn lemma_kids_ok(v: Value, i: nat, depth: nat)
    ensures
        forall|k: int| 0 <= k < kids(v, i, depth).len() ==> step_ok(#[trigger] kids(v, i, depth)[k]),
    decreases v, v.spec_len() - i,
{
    if i < v.spec_len() {
        let (named, child) = spec_child(v, i as int)->0;
        let deep = too_deep_at(child, depth);
        lemma_child_decreases(v, i);
        lemma_kids_ok(child, 0, depth + 1);
        lemma_kids_ok(v, i + 1, depth);
        let own = seq![Row::Node { depth: depth + 1, named, value: child, deep }];
        let inner = if child.spec_is_container() && !deep {
            kids(child, 0, depth + 1) + seq![Row::Close { depth: depth + 1, value: child }]
        } else {
            Seq::empty()
        };
        assert(kids(v, i, depth) == own + inner + kids(v, i + 1, depth));
        assert forall|k: int| 0 <= k < kids(v, i, depth).len() implies step_ok(
            #[trigger] kids(v, i, depth)[k],
        ) by {
            if k >= own.len() + inner.len() {
                assert(kids(v, i, depth)[k] == kids(v, i + 1, depth)[k - own.len() - inner.len()]);
            } else if k >= own.len() && child.spec_is_container() && !deep {
                if k - 1 < kids(child, 0, depth + 1).len() {
                    assert(kids(v, i, depth)[k] == kids(child, 0, depth + 1)[k - 1]);
                }
            }
        }
    }
}

/// Every closing bracket of a record's rows closes a container.
proof fn lemma_rows_ok(root: Value)
    ensures
        forall|k: int| 0 <= k < spec_rows(root).len() ==> step_ok(#[trigger] spec_rows(root)[k]),
{
    lemma_kids_ok(root, 0, 0);
    if root.spec_is_container() {
        let body = kids(root, 0, 0);
        assert forall|k: int| 0 <= k < spec_rows(root).len() implies step_ok(#[trigger] spec_rows(root)[k]) by {
            if 1 <= k < 1 + body.len() {
                assert(spec_rows(root)[k] == body[k - 1]);
            }
        }
    }
}

/// The texts of a record's rows below its summary row.
pub open spec fn spec_tree_texts(root: Value) -> Seq<Seq<char>> {
    spec_rows(root).drop_first().map_values(|r: Row| spec_step_text(r, true))
}

/// One expanded record's rows below its summary row, in order:
/// [`spec_tree_texts`]. The walk that counts them lays them out.
pub fn rows(root: &Value) -> (out: Vec<String>)
    ensures
        views(out@) == spec_tree_texts(*root),
{
    let mut w = walk(root);
    let _ = w.next();
    let ghost all = spec_rows(*root);
    proof {
        lemma_rows_ok(*root);
        assert(all.len() > 0);
    }
    let mut out: Vec<String> = Vec::new();
    proof {
        assert(views(out@) + w.rest().map_values(|r: Row| spec_step_text(r, true)) =~= spec_tree_texts(*root));
    }
    loop
        invariant
            w.wf(),
            all == spec_rows(*root),
            forall|k: int| 0 <= k < all.len() ==> step_ok(#[trigger] all[k]),
            w.rest().len() < all.len(),
            w.rest() == all.skip(all.len() - w.rest().len()),
            views(out@) + w.rest().map_values(|r: Row| spec_step_text(r, true)) == spec_tree_texts(*root),
        ensures
            w.rest().len() == 0,
        decreases w.rest().len(),
    {
        let ghost rest = w.rest();
        let step = match w.next() {
            Some(s) => s,
            None => {
                break;
            },
        };
        proof {
            assert(step@ == all[all.len() - rest.len()]);
            assert(w.rest() =~= all.skip(all.len() - w.rest().len()));
        }
        let t = step_spans(&step, true);
        out.push(t);
        proof {
            assert(rest.map_values(|r: Row| spec_step_text(r, true)) =~= seq![t@] + w.rest().map_values(
                |r: Row| spec_step_text(r, true),
            ));
            assert(views(out@) =~= views(out@.drop_last()).push(t@));
        }
    }
    proof {
        assert(views(out@) + w.rest().map_values(|r: Row| spec_step_text(r, true)) =~= views(out@));
    }
    out
}

/// The text of the short scalars a record's row previews, each after a dot:
/// its key when it has one, sanitised, and its value.
pub open spec fn previews_text(v: Value, ps: Seq<(Option<Seq<char>>, nat)>) -> Seq<char>
    decreases ps.len(),
{
    if ps.len() == 0 {
        Seq::empty()
    } else {
        let p = ps.last();
        previews_text(v, ps.drop_last()) + "  \u{b7} "@ + match p.0 {
            Some(k) => spec_visible(k) + ": "@,
            None => Seq::empty(),
        } + spec_scalar_text((spec_child(v, p.1 as int)->0).1)
    }
}

/// A record's own row, after its gutter: the collapsed value and, for a
/// container, the first few short scalars it holds, which tell one record
/// from its neighbours.
pub open spec fn spec_record_text(v: Value) -> Seq<char> {
    spec_value_text(v) + if v.spec_is_container() {
        previews_text(
            v,
            short_from(v, 0).take(
                if short_from(v, 0).len() < PREVIEW_FIELDS {
                    short_from(v, 0).len() as int
                } else {
                    PREVIEW_FIELDS as int
                },
            ),
        )
    } else {
        Seq::empty()
    }
}

/// Every member the previews name is a member of the value.
proof fn lemma_short_from_in_range(v: Value, i: nat)
    ensures
        forall|k: int| 0 <= k < short_from(v, i).len() ==> (#[trigger] short_from(v, i)[k]).1 < v.spec_len(),
    decreases v.spec_len() - i,
{
    if i < v.spec_len() {
        lemma_short_from_in_range(v, i + 1);
        let head: Seq<(Option<Seq<char>>, nat)> = if spec_short_scalar((spec_child(v, i as int)->0).1) {
            seq![(key_of((spec_child(v, i as int)->0).0), i)]
        } else {
            Seq::empty()
        };
        assert(short_from(v, i) =~= head + short_from(v, i + 1));
        assert forall|k: int| 0 <= k < short_from(v, i).len() implies (#[trigger] short_from(v, i)[k]).1
            < v.spec_len() by {
            if k >= head.len() {
                assert(short_from(v, i)[k] == short_from(v, i + 1)[k - head.len()]);
            }
        }
    }
}

/// A record's own row text, after its gutter: [`spec_record_text`].
pub fn record_spans(v: &Value) -> (s: String)
    ensures
        s@ == spec_record_text(*v),
{
    let mut out = value_spans(v);
    if !v.is_container() {
        proof {
            assert(out@ =~= spec_record_text(*v));
        }
        return out;
    }
    let ps = previews(v);
    let ghost pv = ps@.map_values(|p: (Option<String>, usize)| preview_view(p));
    let ghost base = out@;
    proof {
        lemma_short_from_in_range(*v, 0);
        assert forall|k: int| 0 <= k < pv.len() implies #[trigger] pv[k].1 < v.spec_len() by {
            assert(pv[k] == short_from(*v, 0)[k]);
        }
    }
    let mut i: usize = 0;
    proof {
        assert(pv.take(0) =~= Seq::<(Option<Seq<char>>, nat)>::empty());
    }
    while i < ps.len()
        invariant
            i <= ps@.len(),
            pv == ps@.map_values(|p: (Option<String>, usize)| preview_view(p)),
            forall|k: int| 0 <= k < pv.len() ==> #[trigger] pv[k].1 < v.spec_len(),
            out@ == base + previews_text(*v, pv.take(i as int)),
        decreases ps@.len() - i,
    {
        proof {
            reveal_strlit("  \u{b7} ");
            reveal_strlit(": ");
        }
        let ghost before = out@;
        out.append("  \u{b7} ");
        match &ps[i].0 {
            Some(k) => {
                let shown = visible(k.as_str());
                out.append(shown.as_str());
                out.append(": ");
            },
            None => {},
        }
        let idx = ps[i].1;
        match child_at(v, idx) {
            Some((_, child)) => {
                let t = scalar_spans(child);
                out.append(t.as_str());
            },
            None => {},
        }
        proof {
            assert(pv.take(i + 1).drop_last() =~= pv.take(i as int));
            assert(pv.take(i + 1).last() == pv[i as int]);
            assert(out@ =~= base + previews_text(*v, pv.take(i + 1)));
        }
        i = i + 1;
    }
    proof {
        assert(pv.take(i as int) =~= pv);
    }
    out
}

} // verus!
