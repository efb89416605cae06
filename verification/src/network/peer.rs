//! The replica a node runs: its document, the id counter for its own
//! characters, how many ops it applied from each peer, the ops it holds for
//! catch-up, and the ops still waiting for an anchor.
//!
//! Every decision of a node (which op an edit becomes, what a received message
//! does to the document) is made here; sockets, files and the UI live outside.
use vstd::prelude::*;

use crate::crdt::convergence::{
    apply_all, delivered_in_order, ids_unique, inserted_id, lemma_apply_all_push,
    lemma_apply_idempotent, lemma_duplicate_persists,
    lemma_apply_keeps_ids_distinct, lemma_ids_after, lemma_ids_persist,
    lemma_in_order_delivery_converges,
};
use crate::crdt::gcounter::{slot, GCounter};
use crate::crdt::sequence::{
    apply_doc, apply_spec, ids_distinct, ids_of, insert_start, lemma_after_last_visible,
    lemma_first_is, lemma_insert_among_tombstones, lemma_skip_pos, lemma_tombstone_text,
    lemma_visible_position, skip_pos, text_of, visible_ids, ApplyResult, Char, Id, Op, Rga,
};
use crate::network::protocol::Message;
use crate::PeerId;

verus! {

/// The counts after one more op from `from`; a count that reached `u64::MAX` stays there.
pub open spec fn count_op(counts: Map<PeerId, u64>, from: PeerId) -> Map<PeerId, u64> {
    if slot(counts, from) < u64::MAX {
        counts.insert(from, (slot(counts, from) + 1) as u64)
    } else {
        counts
    }
}

/// The next counter for ids of peer `me` once `op` has been seen: past every
/// id of `me` that an insert carries. `u64::MAX` means the counters are used up.
pub open spec fn advance_counter(next: u64, me: PeerId, op: Op) -> u64 {
    match op {
        Op::Insert { ch, .. } => if ch.id.peer_id == me && ch.id.counter >= next {
            if ch.id.counter < u64::MAX {
                (ch.id.counter + 1) as u64
            } else {
                u64::MAX
            }
        } else {
            next
        },
        Op::Delete { .. } => next,
    }
}

/// The replica state as values: document, next counter, ops applied per peer, ops held.
pub type ReplicaModel = (Seq<Char>, u64, Map<PeerId, u64>, Seq<Op>);

/// Delivering `op` from `from` to the replica of peer `me`: apply it; when it
/// was applied, count it and keep it for catch-up.
pub open spec fn deliver(me: PeerId, s: ReplicaModel, from: PeerId, op: Op) -> (ReplicaModel, ApplyResult) {
    let (d, r) = apply_spec(s.0, op);
    let next = advance_counter(s.1, me, op);
    if r == ApplyResult::Applied {
        ((d, next, count_op(s.2, from), s.3.push(op)), r)
    } else {
        ((s.0, next, s.2, s.3), r)
    }
}

/// One pass over the waiting ops, in order: deliver each; those whose anchor
/// is still missing keep waiting.
pub open spec fn round(me: PeerId, s: ReplicaModel, waiting: Seq<(PeerId, Op)>) -> (ReplicaModel, Seq<(PeerId, Op)>)
    decreases waiting.len(),
{
    if waiting.len() == 0 {
        (s, Seq::empty())
    } else {
        let (s1, kept) = round(me, s, waiting.drop_last());
        let (s2, r) = deliver(me, s1, waiting.last().0, waiting.last().1);
        (s2, if r == ApplyResult::MissingAnchor { kept.push(waiting.last()) } else { kept })
    }
}

/// Passes over the waiting ops until a pass delivers none of them.
pub open spec fn settle(me: PeerId, s: ReplicaModel, waiting: Seq<(PeerId, Op)>) -> (ReplicaModel, Seq<(PeerId, Op)>)
    decreases waiting.len(),
{
    let (s2, kept) = round(me, s, waiting);
    if kept.len() < waiting.len() {
        settle(me, s2, kept)
    } else {
        (s2, kept)
    }
}

/// The op an insert edit at visible position `offset` becomes on replica `s` of
/// peer `me`: the next id of `me`, anchored on the visible character before
/// `offset`. None when `offset` is past the end or the counters are used up.
pub open spec fn edit_insert(me: PeerId, s: ReplicaModel, offset: int, value: char) -> Option<Op> {
    let vis = visible_ids(s.0);
    if s.1 == u64::MAX || offset > vis.len() {
        None
    } else {
        Some(
            Op::Insert {
                after: if offset == 0 { None } else { Some(vis[offset - 1]) },
                ch: Char { id: Id { peer_id: me, counter: s.1 }, value, deleted: false },
            },
        )
    }
}

/// The op a delete edit at visible position `offset` becomes: the delete of
/// that visible character, None when there is none.
pub open spec fn edit_delete(s: ReplicaModel, offset: int) -> Option<Op> {
    let vis = visible_ids(s.0);
    if 0 <= offset < vis.len() {
        Some(Op::Delete { target: vis[offset] })
    } else {
        None
    }
}

/// The replica after a local edit became `op` (nothing for None).
pub open spec fn after_edit(me: PeerId, s: ReplicaModel, op: Option<Op>) -> ReplicaModel {
    match op {
        None => s,
        Some(o) => deliver(me, s, me, o).0,
    }
}

/// The document that applying `ops` in order to an empty document gives.
pub open spec fn replay_doc(ops: Seq<Op>) -> Seq<Char>
    decreases ops.len(),
{
    if ops.len() == 0 {
        Seq::empty()
    } else {
        apply_doc(replay_doc(ops.drop_last()), ops.last())
    }
}

/// Whether every op of `ops`, applied in order to an empty document, is applied.
pub open spec fn replays_cleanly(ops: Seq<Op>) -> bool
    decreases ops.len(),
{
    ops.len() == 0 || (replays_cleanly(ops.drop_last()) && apply_spec(
        replay_doc(ops.drop_last()),
        ops.last(),
    ).1 == ApplyResult::Applied)
}

/// A fresh replica of peer `me`.
pub open spec fn fresh_model() -> ReplicaModel {
    (Seq::<Char>::empty(), 1u64, Map::<PeerId, u64>::empty(), Seq::<Op>::empty())
}

/// The id facts every replica keeps: ids are distinct, and no id of `me` in
/// the document has reached the next counter (unless the counters are used up).
pub open spec fn model_wf(me: PeerId, s: ReplicaModel) -> bool {
    &&& ids_distinct(s.0)
    &&& (s.1 < u64::MAX ==> forall|x: Id| ids_of(s.0).contains(x) && x.peer_id == me ==> x.counter < s.1)
}

/// Delivering any op keeps the id facts.
pub proof fn lemma_deliver_keeps_model_wf(me: PeerId, s: ReplicaModel, from: PeerId, op: Op)
    requires
        model_wf(me, s),
    ensures
        model_wf(me, deliver(me, s, from, op).0),
{
    let after = deliver(me, s, from, op).0;
    lemma_apply_keeps_ids_distinct(s.0, op);
    assert forall|x: Id|
        after.1 < u64::MAX && ids_of(after.0).contains(x) && x.peer_id == me implies x.counter < after.1 by {
        lemma_ids_after(s.0, op, x);
    }
}

/// An insert edit is applied: its id is new and its anchor is in the document.
/// At the end of the text it appends its character to the text.
pub proof fn lemma_insert_edit(me: PeerId, s: ReplicaModel, offset: int, value: char)
    requires
        model_wf(me, s),
        0 <= offset,
        edit_insert(me, s, offset, value) is Some,
    ensures
        deliver(me, s, me, edit_insert(me, s, offset, value)->0).1 == ApplyResult::Applied,
        model_wf(me, after_edit(me, s, edit_insert(me, s, offset, value))),
        after_edit(me, s, edit_insert(me, s, offset, value)).1 == s.1 + 1,
        offset == visible_ids(s.0).len() ==> text_of(after_edit(me, s, edit_insert(me, s, offset, value)).0)
            == text_of(s.0).push(value),
{
    let doc = s.0;
    let ids = ids_of(doc);
    let vis = visible_ids(doc);
    let op = edit_insert(me, s, offset, value)->0;
    let ch = Char { id: Id { peer_id: me, counter: s.1 }, value, deleted: false };
    let after: Option<Id> = if offset == 0 { None } else { Some(vis[offset - 1]) };
    if ids.contains(ch.id) {
        let k = choose|k: int| 0 <= k < ids.len() && ids[k] == ch.id;
        assert(ids.contains(ids[k]));
    }
    let mut anchor_index: int = -1;
    if offset > 0 {
        let i = lemma_visible_position(doc, offset - 1);
        anchor_index = i;
        assert(ids[i] == vis[offset - 1]);
        assert forall|j: int| 0 <= j < i implies ids[j] != vis[offset - 1] by {
            assert(doc[j].id != doc[i].id);
        }
        lemma_first_is(ids, vis[offset - 1], i);
        crate::crdt::sequence::lemma_text_step(doc, i);
    }
    lemma_deliver_keeps_model_wf(me, s, me, op);
    if offset == vis.len() {
        let start = anchor_index + 1;
        assert(insert_start(ids, after) == Some(start));
        lemma_skip_pos(ids, start, ch.id);
        let p = skip_pos(ids, start, ch.id);
        assert forall|k: int| p <= k < doc.len() implies (#[trigger] doc[k]).deleted by {
            lemma_after_last_visible(doc, anchor_index, k);
        }
        lemma_insert_among_tombstones(doc, p, ch);
    }
}

/// A delete edit is applied, and removes exactly the character at its
/// position from the text.
pub proof fn lemma_delete_edit(me: PeerId, s: ReplicaModel, offset: int)
    requires
        model_wf(me, s),
        0 <= offset < visible_ids(s.0).len(),
    ensures
        deliver(me, s, me, edit_delete(s, offset)->0).1 == ApplyResult::Applied,
        model_wf(me, after_edit(me, s, edit_delete(s, offset))),
        after_edit(me, s, edit_delete(s, offset)).1 == s.1,
        text_of(after_edit(me, s, edit_delete(s, offset)).0) == text_of(s.0).remove(offset),
{
    let doc = s.0;
    let target = visible_ids(doc)[offset];
    let i = lemma_visible_position(doc, offset);
    let ids = ids_of(doc);
    assert forall|j: int| 0 <= j < i implies ids[j] != target by {
        assert(doc[j].id != doc[i].id);
    }
    lemma_first_is(ids, target, i);
    lemma_tombstone_text(doc, i, offset);
    lemma_deliver_keeps_model_wf(me, s, me, edit_delete(s, offset)->0);
}

/// A copy of an op.
pub fn copy_op(op: &Op) -> (r: Op)
    ensures
        r == *op,
{
    match op {
        Op::Insert { after, ch } => Op::Insert {
            after: *after,
            ch: Char { id: ch.id, value: ch.value, deleted: ch.deleted },
        },
        Op::Delete { target } => Op::Delete { target: *target },
    }
}

/// The state of one replica.
pub struct Peer {
    peer_id: PeerId,
    doc: Rga,
    next_counter: u64,
    counts: GCounter,
    log: Vec<Op>,
    pending: Vec<(PeerId, Op)>,
}

impl Peer {
    /// This replica's peer id.
    pub closed spec fn me(&self) -> PeerId {
        self.peer_id
    }

    /// Document, next counter, ops applied per peer, and ops held for catch-up.
    pub closed spec fn model(&self) -> ReplicaModel {
        (self.doc@, self.next_counter, self.counts@, self.log@)
    }

    /// Ops waiting for their anchor, with the peer each came from.
    pub closed spec fn waiting(&self) -> Seq<(PeerId, Op)> {
        self.pending@
    }

    /// Well-formed: the id facts of `model_wf`, and the held ops replay, each
    /// one applied, to the document.
    pub closed spec fn wf(&self) -> bool {
        &&& model_wf(self.peer_id, self.model())
        &&& self.counts@.dom().finite()
        &&& replays_cleanly(self.log@)
        &&& replay_doc(self.log@) == self.doc@
    }

    /// A fresh replica of peer `peer_id`: empty document, own counters from 1.
    pub fn new(peer_id: PeerId) -> (p: Self)
        ensures
            p.wf(),
            p.me() == peer_id,
            p.model() == fresh_model(),
            p.waiting() == Seq::<(PeerId, Op)>::empty(),
    {
        let p = Peer {
            peer_id,
            doc: Rga::new(),
            next_counter: 1,
            counts: GCounter::new(),
            log: Vec::new(),
            pending: Vec::new(),
        };
        p
    }

    /// This replica's peer id.
    pub fn peer_id(&self) -> (id: PeerId)
        ensures
            id == self.me(),
    {
        self.peer_id
    }

    /// The visible text of the document.
    pub fn text(&self) -> (t: String)
        ensures
            t@ == text_of(self.model().0),
    {
        self.doc.text()
    }

    /// How many ops from `peer` this replica has applied.
    pub fn op_count(&self, peer: PeerId) -> (c: u64)
        ensures
            c == slot(self.model().2, peer),
    {
        self.counts.count_of(peer)
    }

    /// How many ops this replica applied from each peer, as `(peer, count)`
    /// pairs, each peer once, in no particular order.
    pub fn op_counts(&self) -> (r: Vec<(PeerId, u64)>)
        ensures
            r@.to_set() == self.model().2.kv_pairs(),
            r@.no_duplicates(),
    {
        self.counts.slots()
    }

    /// Deliver one op and record its effect.
    fn deliver_op(&mut self, from: PeerId, op: Op) -> (r: ApplyResult)
        requires
            old(self).wf(),
        ensures
            final(self).wf(),
            (final(self).model(), r) == deliver(old(self).me(), old(self).model(), from, op),
            final(self).me() == old(self).me(),
            final(self).waiting() == old(self).waiting(),
    {
        let ghost before = self.doc@;
        let r = self.doc.apply(&op);
        proof {
            lemma_apply_keeps_ids_distinct(before, op);
        }
        let next = match &op {
            Op::Insert { ch, .. } => if ch.id.peer_id == self.peer_id && ch.id.counter >= self.next_counter {
                if ch.id.counter < u64::MAX {
                    ch.id.counter + 1
                } else {
                    u64::MAX
                }
            } else {
                self.next_counter
            },
            Op::Delete { .. } => self.next_counter,
        };
        proof {
            assert forall|x: Id|
                next < u64::MAX && ids_of(self.doc@).contains(x) && x.peer_id == self.peer_id implies x.counter < next by {
                lemma_ids_after(before, op, x);
            }
        }
        self.next_counter = next;
        let ghost log0 = self.log@;
        if r == ApplyResult::Applied {
            let c = self.counts.count_of(from);
            if c < u64::MAX {
                self.counts.increment(from, 1);
            }
            self.log.push(op);
            proof {
                assert(self.log@.drop_last() =~= log0);
            }
        }
        r
    }

    /// Deliver every waiting op, pass after pass, until a pass delivers none.
    fn settle_waiting(&mut self)
        requires
            old(self).wf(),
        ensures
            final(self).wf(),
            final(self).me() == old(self).me(),
            (final(self).model(), final(self).waiting()) == settle(old(self).me(), old(self).model(), old(self).waiting()),
    {
        let ghost me = self.peer_id;
        let ghost target = settle(me, self.model(), self.waiting());
        let mut done = false;
        while !done
            invariant
                self.wf(),
                self.me() == me,
                done ==> (self.model(), self.waiting()) == target,
                !done ==> settle(me, self.model(), self.waiting()) == target,
            decreases self.pending.len() + (if done { 0int } else { 1int }),
        {
            let ghost s0 = self.model();
            let mut batch: Vec<(PeerId, Op)> = Vec::new();
            std::mem::swap(&mut batch, &mut self.pending);
            let ghost waiting = batch@;
            let mut i: usize = 0;
            while i < batch.len()
                invariant
                    self.wf(),
                    self.me() == me,
                    batch@ == waiting,
                    i <= batch.len(),
                    (self.model(), self.pending@) == round(me, s0, waiting.take(i as int)),
                    self.pending@.len() <= i,
                decreases batch.len() - i,
            {
                proof {
                    assert(waiting.take(i + 1).drop_last() =~= waiting.take(i as int));
                    assert(waiting.take(i + 1).last() == waiting[i as int]);
                }
                let from = batch[i].0;
                let op = copy_op(&batch[i].1);
                let again = copy_op(&batch[i].1);
                let r = self.deliver_op(from, op);
                if r == ApplyResult::MissingAnchor {
                    self.pending.push((from, again));
                }
                i = i + 1;
            }
            proof {
                assert(waiting.take(i as int) =~= waiting);
            }
            if self.pending.len() >= batch.len() {
                done = true;
            }
        }
    }

    /// Apply an op made on this replica.
    pub fn local_op(&mut self, op: Op) -> (r: ApplyResult)
        requires
            old(self).wf(),
        ensures
            final(self).wf(),
            final(self).me() == old(self).me(),
            final(self).waiting() == old(self).waiting(),
            (final(self).model(), r) == deliver(old(self).me(), old(self).model(), old(self).me(), op),
    {
        let me = self.peer_id;
        self.deliver_op(me, op)
    }

    /// Handle a message from another peer: deliver its ops, then retry every op
    /// that is waiting for an anchor.
    pub fn remote_op(&mut self, msg: Message)
        requires
            old(self).wf(),
        ensures
            final(self).wf(),
            final(self).me() == old(self).me(),
            match msg {
                Message::Hello { .. } => final(self).model() == old(self).model() && final(self).waiting()
                    == old(self).waiting(),
                Message::Op { from, op, .. } => {
                    let (s1, r) = deliver(old(self).me(), old(self).model(), from, op);
                    let w1 = if r == ApplyResult::MissingAnchor {
                        old(self).waiting().push((from, op))
                    } else {
                        old(self).waiting()
                    };
                    (final(self).model(), final(self).waiting()) == settle(old(self).me(), s1, w1)
                },
                Message::Sync { from, ops } => (final(self).model(), final(self).waiting()) == settle(
                    old(self).me(),
                    old(self).model(),
                    old(self).waiting() + ops@.map_values(|o: Op| (from, o)),
                ),
            },
    {
        match msg {
            Message::Hello { .. } => {},
            Message::Op { from, op, .. } => {
                let again = copy_op(&op);
                let r = self.deliver_op(from, op);
                if r == ApplyResult::MissingAnchor {
                    self.pending.push((from, again));
                }
                self.settle_waiting();
            },
            Message::Sync { from, ops } => {
                let ghost start = self.pending@;
                let mut i: usize = 0;
                while i < ops.len()
                    invariant
                        self.wf(),
                        self.model() == old(self).model(),
                        self.me() == old(self).me(),
                        start == old(self).waiting(),
                        i <= ops.len(),
                        self.pending@ == start + ops@.take(i as int).map_values(|o: Op| (from, o)),
                    decreases ops.len() - i,
                {
                    let op = copy_op(&ops[i]);
                    self.pending.push((from, op));
                    proof {
                        assert(ops@.take(i + 1).map_values(|o: Op| (from, o)) =~= ops@.take(
                            i as int,
                        ).map_values(|o: Op| (from, o)).push((from, ops@[i as int])));
                    }
                    i = i + 1;
                }
                proof {
                    assert(ops@.take(i as int) =~= ops@);
                }
                self.settle_waiting();
            },
        }
    }

    /// Replay ops read back from the op log: they are handled as a catch-up
    /// batch from this replica.
    pub fn replay_ops(&mut self, ops: Vec<Op>)
        requires
            old(self).wf(),
        ensures
            final(self).wf(),
            final(self).me() == old(self).me(),
            (final(self).model(), final(self).waiting()) == settle(
                old(self).me(),
                old(self).model(),
                old(self).waiting() + ops@.map_values(|o: Op| (old(self).me(), o)),
            ),
    {
        let me = self.peer_id;
        self.remote_op(Message::Sync { from: me, ops });
    }

    /// Insert `value` at visible position `offset`, as the browser or the CLI asks:
    /// the new character takes the next id of this peer and follows the visible
    /// character before `offset` (or no anchor at offset 0). Nothing happens, and
    /// `None` is returned, when `offset` is past the end of the text or this
    /// peer's counters are used up.
    pub fn browser_insert(&mut self, offset: usize, value: char) -> (r: Option<Op>)
        requires
            old(self).wf(),
        ensures
            final(self).wf(),
            final(self).me() == old(self).me(),
            final(self).waiting() == old(self).waiting(),
            r == edit_insert(old(self).me(), old(self).model(), offset as int, value),
            final(self).model() == after_edit(old(self).me(), old(self).model(), r),
            r matches Some(op) ==> deliver(old(self).me(), old(self).model(), old(self).me(), op).1
                == ApplyResult::Applied,
            r is Some && offset == visible_ids(old(self).model().0).len() ==> text_of(
                final(self).model().0,
            ) == text_of(old(self).model().0).push(value),
    {
        if self.next_counter == u64::MAX {
            return None;
        }
        let ghost doc = self.doc@;
        let after: Option<Id> = if offset == 0 {
            None
        } else {
            match self.doc.id_at_visible(offset - 1) {
                Some(id) => Some(id),
                None => {
                    return None;
                },
            }
        };
        let ch = Char { id: Id { peer_id: self.peer_id, counter: self.next_counter }, value, deleted: false };
        let op = Op::Insert { after, ch };
        let again = copy_op(&op);
        proof {
            lemma_insert_edit(self.peer_id, self.model(), offset as int, value);
        }
        let r = self.local_op(op);
        Some(again)
    }

    /// Delete the character at visible position `offset`. Nothing happens, and
    /// `None` is returned, when there is no such character.
    pub fn browser_delete(&mut self, offset: usize) -> (r: Option<Op>)
        requires
            old(self).wf(),
        ensures
            final(self).wf(),
            final(self).me() == old(self).me(),
            final(self).waiting() == old(self).waiting(),
            r == edit_delete(old(self).model(), offset as int),
            final(self).model() == after_edit(old(self).me(), old(self).model(), r),
            r matches Some(op) ==> deliver(old(self).me(), old(self).model(), old(self).me(), op).1
                == ApplyResult::Applied,
            r is Some ==> text_of(final(self).model().0) == text_of(old(self).model().0).remove(
                offset as int,
            ),
    {
        let ghost doc = self.doc@;
        match self.doc.id_at_visible(offset) {
            None => None,
            Some(target) => {
                let op = Op::Delete { target };
                proof {
                    lemma_delete_edit(self.peer_id, self.model(), offset as int);
                }
                let r = self.local_op(op);
                Some(Op::Delete { target })
            },
        }
    }

    /// Every op this replica has applied, in the order it applied them: what it
    /// sends a reconnecting peer.
    pub fn held_ops(&self) -> (ops: Vec<Op>)
        ensures
            ops@ == self.model().3,
    {
        let mut ops: Vec<Op> = Vec::new();
        let mut i: usize = 0;
        while i < self.log.len()
            invariant
                i <= self.log.len(),
                ops@ == self.log@.take(i as int),
            decreases self.log.len() - i,
        {
            ops.push(copy_op(&self.log[i]));
            proof {
                assert(self.log@.take(i + 1) =~= self.log@.take(i as int).push(self.log@[i as int]));
            }
            i = i + 1;
        }
        proof {
            assert(self.log@.take(i as int) =~= self.log@);
        }
        ops
    }

    /// How many ops are waiting for an anchor.
    pub fn waiting_count(&self) -> (n: usize)
        ensures
            n == self.waiting().len(),
    {
        self.pending.len()
    }
}

proof fn lemma_replays_prefix(ops: Seq<Op>, k: int)
    requires
        0 <= k <= ops.len(),
        replays_cleanly(ops),
    ensures
        replays_cleanly(ops.take(k)),
    decreases ops.len() - k,
{
    if k < ops.len() {
        lemma_replays_prefix(ops.drop_last(), k);
        assert(ops.drop_last().take(k) =~= ops.take(k));
    } else {
        assert(ops.take(k) =~= ops);
    }
}

proof fn lemma_replay_round(me: PeerId, ops: Seq<Op>, k: int)
    requires
        0 <= k <= ops.len(),
        replays_cleanly(ops),
    ensures
        round(me, fresh_model(), ops.map_values(|o: Op| (me, o)).take(k)).0.0 == replay_doc(
            ops.take(k),
        ),
        round(me, fresh_model(), ops.map_values(|o: Op| (me, o)).take(k)).1 == Seq::<(PeerId, Op)>::empty(),
    decreases k,
{
    let w = ops.map_values(|o: Op| (me, o));
    if k == 0 {
        assert(w.take(0) =~= Seq::<(PeerId, Op)>::empty());
        assert(ops.take(0) =~= Seq::<Op>::empty());
    } else {
        lemma_replay_round(me, ops, k - 1);
        assert(w.take(k).drop_last() =~= w.take(k - 1));
        assert(w.take(k).last() == (me, ops[k - 1]));
        assert(ops.take(k).drop_last() =~= ops.take(k - 1));
        lemma_replays_prefix(ops, k);
    }
}

/// Replaying the ops a replica holds rebuilds its document: a fresh replica
/// that receives them as one catch-up batch (or reads them back from the op
/// log) reaches the same document, with nothing left waiting.
pub proof fn lemma_held_ops_rebuild_document(p: &Peer, me: PeerId)
    requires
        p.wf(),
    ensures
        settle(me, fresh_model(), p.model().3.map_values(|o: Op| (me, o))).0.0 == p.model().0,
        settle(me, fresh_model(), p.model().3.map_values(|o: Op| (me, o))).1 == Seq::<(PeerId, Op)>::empty(),
{
    let ops = p.model().3;
    let w = ops.map_values(|o: Op| (me, o));
    lemma_replay_round(me, ops, ops.len() as int);
    assert(w.take(ops.len() as int) =~= w);
    assert(ops.take(ops.len() as int) =~= ops);
    let r = round(me, fresh_model(), w);
    if w.len() > 0 {
        assert(settle(me, fresh_model(), w) == settle(me, r.0, r.1));
        assert(round(me, r.0, r.1) == (r.0, Seq::<(PeerId, Op)>::empty()));
    }
}

/// A log that replays cleanly is an in-order delivery from the empty document
/// that ends at the replayed document.
proof fn lemma_replay_is_delivery(ops: Seq<Op>)
    requires
        replays_cleanly(ops),
    ensures
        delivered_in_order(Seq::empty(), ops),
        apply_all(Seq::empty(), ops) == replay_doc(ops),
    decreases ops.len(),
{
    if ops.len() > 0 {
        lemma_replay_is_delivery(ops.drop_last());
        lemma_apply_all_push(Seq::empty(), ops.drop_last(), ops.last());
        assert(ops.drop_last().push(ops.last()) =~= ops);
    }
}

/// Once an op of a cleanly replaying log inserted an id, every later prefix holds it.
proof fn lemma_replay_keeps_inserted(ops: Seq<Op>, i: int, j: int)
    requires
        replays_cleanly(ops),
        0 <= i < j <= ops.len(),
        inserted_id(ops[i]) is Some,
    ensures
        ids_of(replay_doc(ops.take(j))).contains(inserted_id(ops[i])->0),
    decreases j,
{
    let c = inserted_id(ops[i])->0;
    lemma_replays_prefix(ops, j);
    let pre = ops.take(j);
    assert(pre.drop_last() =~= ops.take(j - 1));
    assert(pre.last() == ops[j - 1]);
    if j == i + 1 {
        lemma_ids_after(replay_doc(ops.take(i)), ops[i], c);
    } else {
        lemma_replay_keeps_inserted(ops, i, j - 1);
        lemma_ids_persist(replay_doc(ops.take(j - 1)), ops[j - 1], c);
    }
}

/// In a cleanly replaying log no two ops insert the same id.
proof fn lemma_replay_ids_unique(ops: Seq<Op>)
    requires
        replays_cleanly(ops),
    ensures
        ids_unique(ops),
{
    assert forall|a: Op, b: Op|
        ops.contains(a) && ops.contains(b) && inserted_id(a) is Some && inserted_id(a) == inserted_id(
            b,
        ) implies a == b by {
        let i = choose|i: int| 0 <= i < ops.len() && ops[i] == a;
        let j = choose|j: int| 0 <= j < ops.len() && ops[j] == b;
        if i != j {
            let (lo, hi) = if i < j { (i, j) } else { (j, i) };
            let c = inserted_id(a)->0;
            lemma_replay_keeps_inserted(ops, lo, hi);
            lemma_replays_prefix(ops, hi + 1);
            let pre = ops.take(hi + 1);
            assert(pre.drop_last() =~= ops.take(hi));
            assert(pre.last() == ops[hi]);
            assert(inserted_id(ops[hi]) == Some(c));
            assert(apply_spec(replay_doc(ops.take(hi)), ops[hi]).1 == ApplyResult::Duplicate);
        }
    }
}

/// Replicas that hold the same ops hold the same document, whatever order they
/// applied them in: the strong eventual consistency of the editor.
pub proof fn lemma_replicas_with_same_ops_agree(p: &Peer, q: &Peer)
    requires
        p.wf(),
        q.wf(),
        p.model().3.to_multiset() == q.model().3.to_multiset(),
    ensures
        p.model().0 == q.model().0,
{
    let lp = p.model().3;
    let lq = q.model().3;
    lemma_replay_is_delivery(lp);
    lemma_replay_is_delivery(lq);
    lemma_replay_ids_unique(lp);
    lemma_in_order_delivery_converges(Seq::empty(), lp, lq);
}

/// A well-formed replica keeps the id facts of `model_wf`.
pub proof fn lemma_wf_model(p: &Peer)
    requires
        p.wf(),
    ensures
        model_wf(p.me(), p.model()),
{
}

/// Delivering an op counts it for the peer it came from exactly when it is
/// applied, an insert and a delete alike: that peer's count rises by one
/// (until it is used up), and no count changes otherwise.
pub proof fn lemma_deliver_counts(me: PeerId, s: ReplicaModel, from: PeerId, op: Op, peer: PeerId)
    ensures
        deliver(me, s, from, op).1 == ApplyResult::Applied && slot(s.2, from) < u64::MAX ==> slot(
            deliver(me, s, from, op).0.2,
            from,
        ) == slot(s.2, from) + 1,
        deliver(me, s, from, op).1 != ApplyResult::Applied ==> deliver(me, s, from, op).0.2 == s.2,
        peer != from ==> slot(deliver(me, s, from, op).0.2, peer) == slot(s.2, peer),
{
}

/// The document after delivering an op is the old one, or the old one with the op applied.
proof fn lemma_deliver_doc(me: PeerId, s: ReplicaModel, from: PeerId, op: Op)
    ensures
        deliver(me, s, from, op).0.0 == s.0 || deliver(me, s, from, op).0.0 == apply_doc(s.0, op),
        deliver(me, s, from, op).1 == ApplyResult::MissingAnchor ==> deliver(me, s, from, op).0.0 == s.0,
        deliver(me, s, from, op).1 == apply_spec(s.0, op).1,
{
}

/// An op already in the document stays so through a pass over waiting ops.
proof fn lemma_round_keeps_duplicate(me: PeerId, s: ReplicaModel, w: Seq<(PeerId, Op)>, op: Op)
    requires
        apply_spec(s.0, op).1 == ApplyResult::Duplicate,
    ensures
        apply_spec(round(me, s, w).0.0, op).1 == ApplyResult::Duplicate,
    decreases w.len(),
{
    if w.len() > 0 {
        lemma_round_keeps_duplicate(me, s, w.drop_last(), op);
        let s1 = round(me, s, w.drop_last()).0;
        lemma_deliver_doc(me, s1, w.last().0, w.last().1);
        if deliver(me, s1, w.last().0, w.last().1).0.0 != s1.0 {
            lemma_duplicate_persists(s1.0, op, w.last().1);
        }
    }
}

/// An op already in the document stays so through settling.
proof fn lemma_settle_keeps_duplicate(me: PeerId, s: ReplicaModel, w: Seq<(PeerId, Op)>, op: Op)
    requires
        apply_spec(s.0, op).1 == ApplyResult::Duplicate,
    ensures
        apply_spec(settle(me, s, w).0.0, op).1 == ApplyResult::Duplicate,
    decreases w.len(),
{
    lemma_round_keeps_duplicate(me, s, w, op);
    let (s2, kept) = round(me, s, w);
    if kept.len() < w.len() {
        lemma_settle_keeps_duplicate(me, s2, kept, op);
    }
}

/// A pass over waiting ops keeps at most the ops it was given; when it keeps
/// them all, none was deliverable and the document did not change.
proof fn lemma_round_kept(me: PeerId, s: ReplicaModel, w: Seq<(PeerId, Op)>)
    ensures
        round(me, s, w).1.len() <= w.len(),
        round(me, s, w).1.len() == w.len() ==> {
            &&& round(me, s, w).1 == w
            &&& round(me, s, w).0.0 == s.0
            &&& forall|k: int| 0 <= k < w.len() ==> apply_spec(s.0, (#[trigger] w[k]).1).1 == ApplyResult::MissingAnchor
        },
    decreases w.len(),
{
    if w.len() > 0 {
        let init = w.drop_last();
        lemma_round_kept(me, s, init);
        let (s1, kept) = round(me, s, init);
        lemma_deliver_doc(me, s1, w.last().0, w.last().1);
        if round(me, s, w).1.len() == w.len() {
            assert(kept.len() == init.len());
            assert(round(me, s, w).1 == kept.push(w.last()));
            assert(w =~= init.push(w.last()));
            assert forall|k: int| 0 <= k < w.len() implies apply_spec(s.0, (#[trigger] w[k]).1).1
                == ApplyResult::MissingAnchor by {
                if k < init.len() {
                    assert(w[k] == init[k]);
                }
            }
        }
    }
}

/// A pass over waiting ops loses none of them: each is kept waiting or is in
/// the document afterwards.
proof fn lemma_round_loses_nothing(me: PeerId, s: ReplicaModel, w: Seq<(PeerId, Op)>)
    ensures
        forall|k: int|
            0 <= k < w.len() ==> round(me, s, w).1.contains(#[trigger] w[k]) || apply_spec(
                round(me, s, w).0.0,
                w[k].1,
            ).1 == ApplyResult::Duplicate,
    decreases w.len(),
{
    if w.len() > 0 {
        let init = w.drop_last();
        lemma_round_loses_nothing(me, s, init);
        let (s1, kept) = round(me, s, init);
        let last = w.last();
        let (s2, r) = deliver(me, s1, last.0, last.1);
        let kept2 = round(me, s, w).1;
        lemma_deliver_doc(me, s1, last.0, last.1);
        assert(kept2 == (if r == ApplyResult::MissingAnchor { kept.push(last) } else { kept }));
        assert forall|k: int| 0 <= k < w.len() implies kept2.contains(#[trigger] w[k]) || apply_spec(
            s2.0,
            w[k].1,
        ).1 == ApplyResult::Duplicate by {
            if k < init.len() {
                assert(w[k] == init[k]);
                if kept.contains(init[k]) {
                    let j = choose|j: int| 0 <= j < kept.len() && kept[j] == init[k];
                    assert(kept2[j] == init[k]);
                } else if s2.0 != s1.0 {
                    lemma_duplicate_persists(s1.0, w[k].1, last.1);
                }
            } else {
                assert(w[k] == last);
                if r == ApplyResult::MissingAnchor {
                    assert(kept2[kept.len() as int] == last);
                } else if r == ApplyResult::Applied {
                    lemma_apply_idempotent(s1.0, last.1);
                }
            }
        }
    }
}

/// Settling loses no op: every op that was waiting is either still waiting or
/// in the settled document (applied by now, or there before), however the
/// ops it waits for arrive in the batch.
pub proof fn lemma_settle_loses_nothing(me: PeerId, s: ReplicaModel, w: Seq<(PeerId, Op)>)
    ensures
        forall|k: int|
            0 <= k < w.len() ==> settle(me, s, w).1.contains(#[trigger] w[k]) || apply_spec(
                settle(me, s, w).0.0,
                w[k].1,
            ).1 == ApplyResult::Duplicate,
    decreases w.len(),
{
    lemma_round_loses_nothing(me, s, w);
    let (s2, kept) = round(me, s, w);
    if kept.len() < w.len() {
        lemma_settle_loses_nothing(me, s2, kept);
        assert forall|k: int| 0 <= k < w.len() implies settle(me, s, w).1.contains(#[trigger] w[k])
            || apply_spec(settle(me, s, w).0.0, w[k].1).1 == ApplyResult::Duplicate by {
            if kept.contains(w[k]) {
                let j = choose|j: int| 0 <= j < kept.len() && kept[j] == w[k];
                assert(settle(me, s2, kept).1.contains(kept[j]) || apply_spec(
                    settle(me, s2, kept).0.0,
                    kept[j].1,
                ).1 == ApplyResult::Duplicate);
            } else {
                lemma_settle_keeps_duplicate(me, s2, kept, w[k].1);
            }
        }
    }
}

/// Settling leaves nothing deliverable: every op still waiting finds its
/// anchor or target missing in the settled document.
pub proof fn lemma_settle_leaves_only_missing(me: PeerId, s: ReplicaModel, w: Seq<(PeerId, Op)>)
    ensures
        forall|k: int|
            0 <= k < settle(me, s, w).1.len() ==> apply_spec(
                settle(me, s, w).0.0,
                (#[trigger] settle(me, s, w).1[k]).1,
            ).1 == ApplyResult::MissingAnchor,
    decreases w.len(),
{
    lemma_round_kept(me, s, w);
    let (s2, kept) = round(me, s, w);
    if kept.len() < w.len() {
        lemma_settle_leaves_only_missing(me, s2, kept);
    } else {
        assert forall|k: int| 0 <= k < kept.len() implies apply_spec(s2.0, (#[trigger] kept[k]).1).1
            == ApplyResult::MissingAnchor by {
            assert(kept[k] == w[k]);
        }
    }
}

} // verus!
