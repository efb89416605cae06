//! Replicated Growable Array (RGA) for collaborative text.
//!
//! Each character carries a globally unique `Id { peer_id, counter }`. An
//! `Insert` names the id of the character it follows (`after`); concurrent
//! inserts at the same anchor are ordered by descending id, which makes the
//! result independent of arrival order. Deletes set a tombstone bit, so every
//! anchor stays valid forever.
use vstd::prelude::*;

use crate::crdt::convergence::{apply_all, apply_results, lemma_apply_all_push, lemma_apply_results_push};
use crate::PeerId;

verus! {

/// Globally unique identity of one inserted character.
#[derive(Debug, Clone, Copy, PartialEq, Eq, Hash, PartialOrd, Ord, Structural)]
pub struct Id {
    pub peer_id: PeerId,
    pub counter: u64,
}

/// One character of the document, possibly tombstoned.
#[derive(Debug, Clone, PartialEq, Eq, Structural)]
pub struct Char {
    pub id: Id,
    pub value: char,
    pub deleted: bool,
}

/// An operation that can be sent over the network. Idempotent on apply.
#[derive(Debug, Clone, PartialEq, Eq)]
pub enum Op {
    Insert { after: Option<Id>, ch: Char },
    Delete { target: Id },
}

/// Outcome of [`Rga::apply`].
#[derive(Debug, Clone, Copy, PartialEq, Eq, Structural)]
pub enum ApplyResult {
    /// The op was new and modified the document.
    Applied,
    /// The op was already present: an idempotent no-op.
    Duplicate,
    /// The insert anchor or delete target has not arrived yet.
    MissingAnchor,
}

/// The document: every character ever inserted, in document order.
#[derive(Debug, Clone)]
pub struct Rga {
    chars: Vec<Char>,
}

impl View for Rga {
    type V = Seq<Char>;

    closed spec fn view(&self) -> Seq<Char> {
        self.chars@
    }
}

/// The total order on ids that breaks ties between concurrent inserts:
/// lexicographic on `(peer_id, counter)`.
pub open spec fn id_gt(a: Id, b: Id) -> bool {
    a.peer_id > b.peer_id || (a.peer_id == b.peer_id && a.counter > b.counter)
}

/// The ids of a document, in document order.
pub open spec fn ids_of(doc: Seq<Char>) -> Seq<Id> {
    doc.map_values(|c: Char| c.id)
}

/// Where the scan for an insert starts: right after its anchor, or at the
/// front for an insert with no anchor; `None` when the anchor is missing.
pub open spec fn insert_start(ids: Seq<Id>, after: Option<Id>) -> Option<int> {
    match after {
        None => Some(0),
        Some(a) => match ids.index_of_first(a) {
            Some(i) => Some(i + 1),
            None => None,
        },
    }
}

/// The slot for a new id `c`: skip forward from `start` past every id greater than `c`.
pub open spec fn skip_pos(ids: Seq<Id>, start: int, c: Id) -> int
    decreases ids.len() - start,
{
    if 0 <= start < ids.len() && id_gt(ids[start], c) {
        skip_pos(ids, start + 1, c)
    } else {
        start
    }
}

/// A character with its tombstone bit set.
pub open spec fn tombstone(c: Char) -> Char {
    Char { id: c.id, value: c.value, deleted: true }
}

/// The document and outcome after applying `op` to `doc`.
pub open spec fn apply_spec(doc: Seq<Char>, op: Op) -> (Seq<Char>, ApplyResult) {
    match op {
        Op::Insert { after, ch } => {
            let ids = ids_of(doc);
            if ids.contains(ch.id) {
                (doc, ApplyResult::Duplicate)
            } else {
                match insert_start(ids, after) {
                    None => (doc, ApplyResult::MissingAnchor),
                    Some(s) => (doc.insert(skip_pos(ids, s, ch.id), ch), ApplyResult::Applied),
                }
            }
        },
        Op::Delete { target } => match ids_of(doc).index_of_first(target) {
            None => (doc, ApplyResult::MissingAnchor),
            Some(i) => if doc[i].deleted {
                (doc, ApplyResult::Duplicate)
            } else {
                (doc.update(i, tombstone(doc[i])), ApplyResult::Applied)
            },
        },
    }
}

/// The document after applying `op`.
pub open spec fn apply_doc(doc: Seq<Char>, op: Op) -> Seq<Char> {
    apply_spec(doc, op).0
}

/// The visible text: values of the characters that are not tombstoned.
pub open spec fn text_of(doc: Seq<Char>) -> Seq<char>
    decreases doc.len(),
{
    if doc.len() == 0 {
        Seq::empty()
    } else if doc.last().deleted {
        text_of(doc.drop_last())
    } else {
        text_of(doc.drop_last()).push(doc.last().value)
    }
}

/// The ids of the visible characters, in document order.
pub open spec fn visible_ids(doc: Seq<Char>) -> Seq<Id>
    decreases doc.len(),
{
    if doc.len() == 0 {
        Seq::empty()
    } else if doc.last().deleted {
        visible_ids(doc.drop_last())
    } else {
        visible_ids(doc.drop_last()).push(doc.last().id)
    }
}

/// Whether no id occurs twice in the document.
pub open spec fn ids_distinct(doc: Seq<Char>) -> bool {
    forall|i: int, j: int| 0 <= i < j < doc.len() ==> doc[i].id != doc[j].id
}

fn id_greater(a: &Id, b: &Id) -> (r: bool)
    ensures
        r == id_gt(*a, *b),
{
    a.peer_id > b.peer_id || (a.peer_id == b.peer_id && a.counter > b.counter)
}

/// Characterization of `skip_pos`: the first slot at or after `start` whose id is not greater.
pub proof fn lemma_skip_pos(ids: Seq<Id>, start: int, c: Id)
    requires
        0 <= start <= ids.len(),
    ensures
        start <= skip_pos(ids, start, c) <= ids.len(),
        forall|k: int| start <= k < skip_pos(ids, start, c) ==> id_gt(#[trigger] ids[k], c),
        skip_pos(ids, start, c) == ids.len() || !id_gt(ids[skip_pos(ids, start, c)], c),
    decreases ids.len() - start,
{
    if start < ids.len() && id_gt(ids[start], c) {
        lemma_skip_pos(ids, start + 1, c);
    }
}

/// Any slot with the characterizing properties is `skip_pos`.
pub proof fn lemma_skip_pos_unique(ids: Seq<Id>, start: int, c: Id, p: int)
    requires
        0 <= start <= p <= ids.len(),
        forall|k: int| start <= k < p ==> id_gt(#[trigger] ids[k], c),
        p == ids.len() || !id_gt(ids[p], c),
    ensures
        skip_pos(ids, start, c) == p,
    decreases ids.len() - start,
{
    if start < p {
        assert(id_gt(ids[start], c));
        lemma_skip_pos_unique(ids, start + 1, c, p);
    }
}

/// The first occurrence of `id` in `ids`, characterized.
pub proof fn lemma_first_props(ids: Seq<Id>, id: Id)
    ensures
        match ids.index_of_first(id) {
            Some(i) => {
                &&& 0 <= i < ids.len()
                &&& ids[i] == id
                &&& forall|j: int| 0 <= j < i ==> ids[j] != id
            },
            None => !ids.contains(id),
        },
{
    ids.index_of_first_ensures(id);
}

/// Any index with the first-occurrence properties is the first occurrence.
pub proof fn lemma_first_is(ids: Seq<Id>, id: Id, i: int)
    requires
        0 <= i < ids.len(),
        ids[i] == id,
        forall|j: int| 0 <= j < i ==> ids[j] != id,
    ensures
        ids.index_of_first(id) == Some(i),
{
    lemma_first_props(ids, id);
    assert(ids.contains(id));
    let f = ids.index_of_first(id)->0;
    if f < i {
        assert(ids[f] != id);
    }
    if i < f {
        assert(ids[i] != id);
    }
}

pub proof fn lemma_text_step(doc: Seq<Char>, i: int)
    requires
        0 <= i < doc.len(),
    ensures
        doc.take(i + 1).drop_last() == doc.take(i),
        doc.take(i + 1).last() == doc[i],
{
    assert(doc.take(i + 1).drop_last() =~= doc.take(i));
}

/// The visible ids of a prefix of the document are a prefix of its visible ids.
proof fn lemma_visible_prefix(doc: Seq<Char>, i: int)
    requires
        0 <= i <= doc.len(),
    ensures
        visible_ids(doc.take(i)).len() <= visible_ids(doc).len(),
        visible_ids(doc).take(visible_ids(doc.take(i)).len() as int) == visible_ids(doc.take(i)),
    decreases doc.len() - i,
{
    if i == doc.len() {
        assert(doc.take(i) =~= doc);
        assert(visible_ids(doc).take(visible_ids(doc).len() as int) =~= visible_ids(doc));
    } else {
        lemma_visible_prefix(doc, i + 1);
        lemma_text_step(doc, i);
        let a = visible_ids(doc.take(i));
        let b = visible_ids(doc.take(i + 1));
        let v = visible_ids(doc);
        assert(v.take(a.len() as int) =~= b.take(a.len() as int));
        assert(b.take(a.len() as int) =~= a);
    }
}

/// The text and the visible ids have one entry per visible character.
pub proof fn lemma_text_len(doc: Seq<Char>)
    ensures
        text_of(doc).len() == visible_ids(doc).len(),
    decreases doc.len(),
{
    if doc.len() > 0 {
        lemma_text_len(doc.drop_last());
    }
}

/// Where the `k`-th visible character stands in the document.
pub proof fn lemma_visible_position(doc: Seq<Char>, k: int) -> (i: int)
    requires
        0 <= k < visible_ids(doc).len(),
    ensures
        0 <= i < doc.len(),
        !doc[i].deleted,
        doc[i].id == visible_ids(doc)[k],
        doc[i].value == text_of(doc)[k],
        visible_ids(doc.take(i)).len() == k,
    decreases doc.len(),
{
    let n = doc.len() - 1;
    let init = doc.drop_last();
    lemma_text_len(init);
    if !doc.last().deleted && k == visible_ids(init).len() {
        assert(doc.take(n) =~= init);
        n
    } else {
        let i = lemma_visible_position(init, k);
        assert(doc.take(i) =~= init.take(i));
        i
    }
}

/// Tombstoning the `k`-th visible character removes exactly the `k`-th
/// character of the visible text.
pub proof fn lemma_tombstone_text(doc: Seq<Char>, i: int, k: int)
    requires
        0 <= i < doc.len(),
        !doc[i].deleted,
        visible_ids(doc.take(i)).len() == k,
    ensures
        text_of(doc.update(i, tombstone(doc[i]))) == text_of(doc).remove(k),
        0 <= k < text_of(doc).len(),
    decreases doc.len(),
{
    let n = doc.len() - 1;
    let init = doc.drop_last();
    let d2 = doc.update(i, tombstone(doc[i]));
    lemma_text_len(init);
    if i == n {
        assert(doc.take(i) =~= init);
        assert(d2.drop_last() =~= init);
        assert(text_of(doc).remove(k) =~= text_of(init));
    } else {
        assert(doc.take(i) =~= init.take(i));
        lemma_tombstone_text(init, i, k);
        assert(d2.drop_last() =~= init.update(i, tombstone(init[i])));
        assert(d2.last() == doc.last());
        if !doc.last().deleted {
            assert(text_of(init).remove(k).push(doc.last().value) =~= text_of(init).push(
                doc.last().value,
            ).remove(k));
        }
    }
}

/// Inserting a visible character in front of nothing but tombstones appends it to the text.
pub proof fn lemma_insert_among_tombstones(doc: Seq<Char>, p: int, ch: Char)
    requires
        0 <= p <= doc.len(),
        !ch.deleted,
        forall|k: int| p <= k < doc.len() ==> (#[trigger] doc[k]).deleted,
    ensures
        text_of(doc.insert(p, ch)) == text_of(doc).push(ch.value),
    decreases doc.len() - p,
{
    let d2 = doc.insert(p, ch);
    if p == doc.len() {
        assert(d2.drop_last() =~= doc);
    } else {
        let init = doc.drop_last();
        lemma_insert_among_tombstones(init, p, ch);
        assert(d2.drop_last() =~= init.insert(p, ch));
        assert(d2.last() == doc.last());
    }
}

/// Every character after the last visible one is a tombstone; with no visible
/// character, every character is.
pub proof fn lemma_after_last_visible(doc: Seq<Char>, i: int, k: int)
    requires
        -1 <= i < k < doc.len(),
        i == -1 ==> visible_ids(doc).len() == 0,
        i >= 0 ==> visible_ids(doc.take(i + 1)).len() == visible_ids(doc).len(),
    ensures
        doc[k].deleted,
{
    if !doc[k].deleted {
        lemma_text_step(doc, k);
        lemma_visible_prefix(doc, k + 1);
        assert(visible_ids(doc.take(k + 1)).len() == visible_ids(doc.take(k)).len() + 1);
        if i >= 0 {
            lemma_visible_prefix(doc.take(k), i + 1);
            assert(doc.take(k).take(i + 1) =~= doc.take(i + 1));
        }
    }
}

/// Appends `c` to `s` by calling `String::push`; the contract states the
/// documented effect: the string grows by exactly that character at its end.
#[verifier::external_body]
pub(crate) fn push_char(s: &mut String, c: char)
    ensures
        final(s)@ == old(s)@.push(c),
{
    s.push(c);
}

impl Rga {
    /// An empty document.
    pub fn new() -> (r: Self)
        ensures
            r@ == Seq::<Char>::empty(),
    {
        Rga { chars: Vec::new() }
    }

    /// Visible text (deleted entries skipped).
    pub fn text(&self) -> (t: String)
        ensures
            t@ == text_of(self@),
    {
        let ghost doc = self@;
        let mut t = String::new();
        let mut i: usize = 0;
        while i < self.chars.len()
            invariant
                doc == self@,
                i <= self.chars.len(),
                t@ == text_of(doc.take(i as int)),
            decreases self.chars.len() - i,
        {
            proof {
                lemma_text_step(doc, i as int);
            }
            if !self.chars[i].deleted {
                push_char(&mut t, self.chars[i].value);
            }
            i = i + 1;
        }
        assert(doc.take(i as int) =~= doc);
        t
    }

    /// Index of the first character with id `id`.
    fn position_of(&self, id: &Id) -> (r: Option<usize>)
        ensures
            match r {
                Some(i) => i < self@.len() && ids_of(self@).index_of_first(*id) == Some(i as int),
                None => ids_of(self@).index_of_first(*id) is None,
            },
            r is Some <==> ids_of(self@).contains(*id),
    {
        let ghost ids = ids_of(self@);
        let mut i: usize = 0;
        while i < self.chars.len()
            invariant
                ids == ids_of(self@),
                i <= self.chars.len(),
                forall|j: int| 0 <= j < i ==> ids[j] != *id,
            decreases self.chars.len() - i,
        {
            if self.chars[i].id == *id {
                proof {
                    lemma_first_is(ids, *id, i as int);
                    assert(ids[i as int] == *id);
                }
                return Some(i);
            }
            i = i + 1;
        }
        proof {
            lemma_first_props(ids, *id);
            if ids.contains(*id) {
                let j = choose|j: int| 0 <= j < ids.len() && ids[j] == *id;
                assert(ids[j] != *id);
            }
        }
        None
    }

    /// Apply a remote or local op. Safe to call multiple times with the same op.
    pub fn apply(&mut self, op: &Op) -> (r: ApplyResult)
        ensures
            (final(self)@, r) == apply_spec(old(self)@, *op),
    {
        let ghost ids = ids_of(self@);
        let ghost doc0 = self@;
        match op {
            Op::Insert { after, ch } => {
                if self.position_of(&ch.id).is_some() {
                    return ApplyResult::Duplicate;
                }
                let start: usize = match after {
                    None => 0,
                    Some(anchor) => match self.position_of(anchor) {
                        Some(i) => {
                            assert(i < self.chars.len());
                            i + 1
                        },
                        None => {
                            return ApplyResult::MissingAnchor;
                        },
                    },
                };
                let mut pos: usize = start;
                while pos < self.chars.len() && id_greater(&self.chars[pos].id, &ch.id)
                    invariant
                        ids == ids_of(self@),
                        start <= pos <= self.chars.len(),
                        forall|k: int| start <= k < pos ==> id_gt(#[trigger] ids[k], ch.id),
                    decreases self.chars.len() - pos,
                {
                    pos = pos + 1;
                }
                proof {
                    lemma_skip_pos_unique(ids, start as int, ch.id, pos as int);
                }
                let c = Char { id: ch.id, value: ch.value, deleted: ch.deleted };
                self.chars.insert(pos, c);
                ApplyResult::Applied
            },
            Op::Delete { target } => {
                match self.position_of(target) {
                    None => ApplyResult::MissingAnchor,
                    Some(i) => {
                        if self.chars[i].deleted {
                            ApplyResult::Duplicate
                        } else {
                            let c = Char {
                                id: self.chars[i].id,
                                value: self.chars[i].value,
                                deleted: true,
                            };
                            self.chars.set(i, c);
                            ApplyResult::Applied
                        }
                    },
                }
            },
        }
    }

    /// Apply `ops` in order, as when replaying a log, and return the outcome of each.
    pub fn apply_ops(&mut self, ops: &Vec<Op>) -> (results: Vec<ApplyResult>)
        ensures
            final(self)@ == apply_all(old(self)@, ops@),
            results@ == apply_results(old(self)@, ops@),
    {
        let ghost d0 = self@;
        let mut results: Vec<ApplyResult> = Vec::new();
        let mut i: usize = 0;
        proof {
            assert(ops@.take(0) =~= Seq::<Op>::empty());
        }
        while i < ops.len()
            invariant
                i <= ops.len(),
                self@ == apply_all(d0, ops@.take(i as int)),
                results@ == apply_results(d0, ops@.take(i as int)),
            decreases ops.len() - i,
        {
            proof {
                lemma_apply_all_push(d0, ops@.take(i as int), ops@[i as int]);
                lemma_apply_results_push(d0, ops@.take(i as int), ops@[i as int]);
                assert(ops@.take(i + 1) =~= ops@.take(i as int).push(ops@[i as int]));
            }
            let r = self.apply(&ops[i]);
            results.push(r);
            i = i + 1;
        }
        proof {
            assert(ops@.take(i as int) =~= ops@);
        }
        results
    }

    /// The id of the `offset`-th visible (non-deleted) character, 0-indexed.
    pub fn id_at_visible(&self, offset: usize) -> (r: Option<Id>)
        ensures
            r == (if offset < visible_ids(self@).len() {
                Some(visible_ids(self@)[offset as int])
            } else {
                None
            }),
            r is None <==> offset >= text_of(self@).len(),
            r matches Some(a) ==> exists|i: int|
                0 <= i < self@.len() && self@[i].id == a && !self@[i].deleted && self@[i].value
                    == text_of(self@)[offset as int],
    {
        let ghost doc = self@;
        proof {
            lemma_text_len(doc);
            if offset < visible_ids(doc).len() {
                let i = lemma_visible_position(doc, offset as int);
                assert(doc[i].id == visible_ids(doc)[offset as int]);
            }
        }

        let mut seen: usize = 0;
        let mut i: usize = 0;
        while i < self.chars.len()
            invariant
                doc == self@,
                i <= self.chars.len(),
                seen == visible_ids(doc.take(i as int)).len(),
                seen <= offset,
                text_of(doc).len() == visible_ids(doc).len(),
                offset < visible_ids(doc).len() ==> exists|j: int|
                    0 <= j < doc.len() && doc[j].id == visible_ids(doc)[offset as int]
                        && !doc[j].deleted && doc[j].value == text_of(doc)[offset as int],
            decreases self.chars.len() - i,
        {
            proof {
                lemma_text_step(doc, i as int);
                lemma_visible_prefix(doc, i + 1);
            }
            if !self.chars[i].deleted {
                if seen == offset {
                    proof {
                        let b = visible_ids(doc.take(i + 1));
                        assert(b == visible_ids(doc.take(i as int)).push(doc[i as int].id));
                        assert(visible_ids(doc).take(b.len() as int)[seen as int] == b[seen as int]);
                        assert(visible_ids(doc)[offset as int] == doc[i as int].id);
                    }
                    return Some(self.chars[i].id);
                }
                seen = seen + 1;
            }
            i = i + 1;
        }
        assert(doc.take(i as int) =~= doc);
        None
    }
}

impl Default for Rga {
    fn default() -> (r: Self)
        ensures
            r@ == Seq::<Char>::empty(),
    {
        Rga::new()
    }
}

} // verus!
