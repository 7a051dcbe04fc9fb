//! The transaction: the live store, a rollback journal of undo steps,
//! and the pending effects that a commit makes durable.
//!
//! Every mutation records how to undo itself. Rollback applies the
//! journal in reverse, so the store returns to what it held when the
//! transaction began; commit discards the journal and hands the pending
//! effects to the durability layer.

use vstd::prelude::*;
use vstd::string::*;
use crate::data::{Data, DataView};
use crate::persist::{
    Effect,
    apply_effect,
    apply_effects,
    effect_record,
    effects_text,
    image_pairs,
    encode_set_record,
    encode_del_record,
    store_image,
};
use crate::store::{
    Pairs,
    StoreMap,
    pairs_get,
    pairs_insert,
    pairs_remove,
    sorted_pairs,
    lemma_pairs_insert_insert,
    lemma_pairs_insert_same,
    lemma_pairs_insert_sorted,
    lemma_pairs_insert_remove,
    lemma_pairs_remove_insert,
    lemma_pairs_remove_unchanged,
};

verus! {

/// One undo step of the rollback journal.
pub enum UndoView {
    /// Restore one key to its prior state: absent, or a value.
    RestoreEntry(Seq<char>, Option<DataView>),
    /// Restore the whole map, as captured when it was cleared.
    RestoreFullMap(Pairs),
}

/// The mathematical state of a transaction: the live store, the journal
/// in the order the mutations happened, and the pending effects.
#[verifier::ext_equal]
pub struct TxnView {
    pub store: Pairs,
    pub journal: Seq<UndoView>,
    pub pending: Seq<Effect>,
}

/// One undo step applied to a store.
pub open spec fn apply_undo(ps: Pairs, u: UndoView) -> Pairs {
    match u {
        UndoView::RestoreEntry(k, None) => pairs_remove(ps, k),
        UndoView::RestoreEntry(k, Some(v)) => pairs_insert(ps, k, v),
        UndoView::RestoreFullMap(b) => b,
    }
}

/// The store a rollback would restore: the journal applied in reverse.
pub open spec fn undo_all(ps: Pairs, j: Seq<UndoView>) -> Pairs
    decreases j.len(),
{
    if j.len() == 0 {
        ps
    } else {
        undo_all(apply_undo(ps, j.last()), j.drop_last())
    }
}

/// An optional value seen mathematically.
pub open spec fn opt_view(o: Option<Data>) -> Option<DataView> {
    match o {
        Some(d) => Some(d@),
        None => None,
    }
}

/// The deletion effects for every entry of a store, in key order.
pub open spec fn dels_of(ps: Pairs) -> Seq<Effect> {
    Seq::new(ps.len(), |i: int| (ps[i].0, None))
}

/// One undo step of the journal, as stored.
pub enum UndoRecord {
    RestoreEntry(String, Option<Data>),
    RestoreFullMap(StoreMap),
}

impl View for UndoRecord {
    type V = UndoView;

    open spec fn view(&self) -> UndoView {
        match self {
            UndoRecord::RestoreEntry(k, p) => UndoView::RestoreEntry(k@, opt_view(*p)),
            UndoRecord::RestoreFullMap(b) => UndoView::RestoreFullMap(b.pairs()),
        }
    }
}

/// A single transaction over the store.
pub struct Transaction {
    store: StoreMap,
    journal: Vec<UndoRecord>,
    pending: Vec<(String, Option<Data>)>,
}

impl View for Transaction {
    type V = TxnView;

    closed spec fn view(&self) -> TxnView {
        TxnView {
            store: self.store.pairs(),
            journal: Seq::new(self.journal@.len() as nat, |i: int| self.journal@[i]@),
            pending: Seq::new(
                self.pending@.len() as nat,
                |i: int| (self.pending@[i].0@, opt_view(self.pending@[i].1)),
            ),
        }
    }
}

impl Transaction {
    /// The live store as a map from keys to values.
    pub closed spec fn store_map(&self) -> Map<Seq<char>, DataView> {
        self.store@
    }

    /// The store a rollback would restore.
    pub open spec fn undo_target(&self) -> Pairs {
        undo_all(self@.store, self@.journal)
    }

    /// Whether the transaction is at rest: nothing journaled, nothing
    /// pending.
    pub open spec fn at_rest(&self) -> bool {
        self@.journal.len() == 0 && self@.pending.len() == 0
    }

    /// The live map is the map reading of the live pairs.
    pub proof fn lemma_store_map(&self)
        ensures
            self.store_map() == crate::store::pairs_as_map(self@.store),
    {
    }

    /// Wraps a freshly loaded store in a transaction at rest.
    pub fn new(store: StoreMap) -> (t: Transaction)
        ensures
            t@.store == store.pairs(),
            t.store_map() == store@,
            t.at_rest(),
    {
        let t = Transaction { store, journal: Vec::new(), pending: Vec::new() };
        proof {
            assert(t@.journal =~= Seq::<UndoView>::empty());
            assert(t@.pending =~= Seq::<Effect>::empty());
        }
        t
    }

    /// Point lookup in the live store.
    pub fn get(&self, key: &str) -> (r: Option<&Data>)
        ensures
            r matches Some(v) ==> (self.store_map().contains_key(key@)
                && v@ == self.store_map()[key@]),
            r is None ==> !self.store_map().contains_key(key@),
    {
        self.store.get(key)
    }

    /// The number of live entries.
    pub fn len(&self) -> (n: usize)
        ensures
            n == self@.store.len(),
    {
        self.store.len()
    }

    /// Whether the live store is empty.
    pub fn is_empty(&self) -> (r: bool)
        ensures
            r == (self@.store.len() == 0),
    {
        self.store.is_empty()
    }

    /// Whether a key is present in the live store.
    pub fn contains_key(&self, key: &str) -> (r: bool)
        ensures
            r == self.store_map().contains_key(key@),
    {
        self.store.contains_key(key)
    }
}


impl Transaction {
    /// Upsert through the transaction: stores the value, journals how to
    /// undo it, queues the durable effect, and returns the prior value.
    /// The store a rollback would restore is unchanged.
    pub fn update(&mut self, key: &str, value: Data) -> (prior: Option<Data>)
        ensures
            final(self)@.store == pairs_insert(old(self)@.store, key@, value@),
            final(self).store_map() == old(self).store_map().insert(key@, value@),
            final(self)@.journal == old(self)@.journal.push(
                UndoView::RestoreEntry(key@, pairs_get(old(self)@.store, key@)),
            ),
            final(self)@.pending == old(self)@.pending.push((key@, Some(value@))),
            final(self).undo_target() == old(self).undo_target(),
            final(self)@ == txn_step(old(self)@, TxOp::Update(key@, value@)),
            prior matches Some(pv) ==> (old(self).store_map().contains_key(key@)
                && pv@ == old(self).store_map()[key@] && pairs_get(old(self)@.store, key@)
                == Some(pv@)),
            prior is None ==> (!old(self).store_map().contains_key(key@) && pairs_get(
                old(self)@.store,
                key@,
            ) is None),
    {
        proof {
            use_type_invariant(&self.store);
        }
        let ghost ps = self.store.pairs();
        let ghost jv = self@.journal;
        let prior = self.store.insert(key, value.clone());
        let journal_prior = match &prior {
            Some(d) => Some(d.clone()),
            None => None,
        };
        proof {
            if prior is Some {
                assert(pairs_get(ps, key@) is Some);
                assert(pairs_get(ps, key@).unwrap() == prior.unwrap()@);
            }
        }
        self.journal.push(UndoRecord::RestoreEntry(key.to_owned(), journal_prior));
        self.pending.push((key.to_owned(), Some(value)));
        proof {
            assert(self@.journal =~= jv.push(
                UndoView::RestoreEntry(key@, pairs_get(ps, key@)),
            ));
            assert(self@.pending =~= old(self)@.pending.push((key@, Some(value@))));
            let j2 = self@.journal;
            assert(j2.last() == UndoView::RestoreEntry(key@, pairs_get(ps, key@)));
            assert(j2.drop_last() =~= jv);
            match pairs_get(ps, key@) {
                None => {
                    crate::store::lemma_pairs_remove_insert(ps, key@, value@);
                },
                Some(w) => {
                    lemma_pairs_insert_insert(ps, key@, value@, w);
                    lemma_pairs_insert_same(ps, key@, w);
                },
            }
            assert(apply_undo(self@.store, j2.last()) == ps);
            assert(self@ =~= txn_step(old(self)@, TxOp::Update(key@, value@)));
        }
        prior
    }

    /// Deletion through the transaction: removes the key, journals how
    /// to undo it, queues the durable effect, and returns the prior
    /// value. The store a rollback would restore is unchanged.
    pub fn remove(&mut self, key: &str) -> (prior: Option<Data>)
        ensures
            final(self)@.store == pairs_remove(old(self)@.store, key@),
            final(self).store_map() == old(self).store_map().remove(key@),
            final(self)@.journal == old(self)@.journal.push(
                UndoView::RestoreEntry(key@, pairs_get(old(self)@.store, key@)),
            ),
            final(self)@.pending == old(self)@.pending.push((key@, None)),
            final(self).undo_target() == old(self).undo_target(),
            final(self)@ == txn_step(old(self)@, TxOp::Remove(key@)),
            prior matches Some(pv) ==> (old(self).store_map().contains_key(key@)
                && pv@ == old(self).store_map()[key@] && pairs_get(old(self)@.store, key@)
                == Some(pv@)),
            prior is None ==> (!old(self).store_map().contains_key(key@) && pairs_get(
                old(self)@.store,
                key@,
            ) is None),
    {
        proof {
            use_type_invariant(&self.store);
        }
        let ghost ps = self.store.pairs();
        let ghost jv = self@.journal;
        let prior = self.store.remove(key);
        let journal_prior = match &prior {
            Some(d) => Some(d.clone()),
            None => None,
        };
        proof {
            if prior is Some {
                assert(pairs_get(ps, key@) is Some);
                assert(pairs_get(ps, key@).unwrap() == prior.unwrap()@);
            }
        }
        self.journal.push(UndoRecord::RestoreEntry(key.to_owned(), journal_prior));
        self.pending.push((key.to_owned(), None));
        proof {
            assert(self@.journal =~= jv.push(
                UndoView::RestoreEntry(key@, pairs_get(ps, key@)),
            ));
            assert(self@.pending =~= old(self)@.pending.push((key@, None)));
            let j2 = self@.journal;
            assert(j2.last() == UndoView::RestoreEntry(key@, pairs_get(ps, key@)));
            assert(j2.drop_last() =~= jv);
            match pairs_get(ps, key@) {
                None => {
                    lemma_pairs_remove_unchanged(ps, key@);
                    lemma_pairs_remove_unchanged(pairs_remove(ps, key@), key@);
                },
                Some(w) => {
                    lemma_pairs_insert_remove(ps, key@, w);
                },
            }
            assert(apply_undo(self@.store, j2.last()) == ps);
            assert(self@ =~= txn_step(old(self)@, TxOp::Remove(key@)));
        }
        prior
    }

    /// Empties the live store, journaling the whole map so that a
    /// rollback restores it, and queues one deletion effect per entry.
    /// The store a rollback would restore is unchanged.
    pub fn clear(&mut self)
        ensures
            final(self)@.store.len() == 0,
            final(self).store_map() == Map::<Seq<char>, DataView>::empty(),
            final(self)@.journal == old(self)@.journal.push(
                UndoView::RestoreFullMap(old(self)@.store),
            ),
            final(self)@.pending == old(self)@.pending + dels_of(old(self)@.store),
            final(self).undo_target() == old(self).undo_target(),
            final(self)@ == txn_step(old(self)@, TxOp::Clear),
    {
        let ghost ps = self.store.pairs();
        let ghost jv = self@.journal;
        let ghost pv = self@.pending;
        let n = self.store.len();
        let mut i: usize = 0;
        proof {
            assert(self@.pending =~= pv + dels_of(ps.take(0)));
        }
        while i < n
            invariant
                i <= n,
                n == ps.len(),
                ps == self.store.pairs(),
                self@.journal == jv,
                self@.store == ps,
                self@.pending == pv + dels_of(ps.take(i as int)),
            decreases n - i,
        {
            let ghost before = self@.pending;
            let k = self.store.key_at(i).clone();
            proof {
                assert(k@ == ps[i as int].0);
            }
            self.pending.push((k, None));
            proof {
                let now = self@.pending;
                assert(now.len() == before.len() + 1);
                assert forall|t: int| 0 <= t < now.len() implies now[t] == (pv + dels_of(
                    ps.take(i + 1),
                ))[t] by {
                    if t < before.len() {
                        assert(now[t] == before[t]);
                        assert(before[t] == (pv + dels_of(ps.take(i as int)))[t]);
                        if t >= pv.len() {
                            assert(dels_of(ps.take(i as int))[t - pv.len()] == dels_of(
                                ps.take(i + 1),
                            )[t - pv.len()]);
                        }
                    } else {
                        assert(now[t] == (k@, None::<DataView>));
                        assert(dels_of(ps.take(i + 1))[t - pv.len()] == (ps[i as int].0,
                            None::<DataView>));
                    }
                }
                assert(self@.pending =~= pv + dels_of(ps.take(i + 1)));
            }
            i += 1;
        }
        proof {
            assert(ps.take(n as int) =~= ps);
            assert(dels_of(ps.take(n as int)) =~= dels_of(ps));
        }
        let snapshot = self.store.clone();
        self.store.clear();
        self.journal.push(UndoRecord::RestoreFullMap(snapshot));
        proof {
            assert(self@.journal =~= jv.push(UndoView::RestoreFullMap(ps)));
            let j2 = self@.journal;
            assert(j2.last() == UndoView::RestoreFullMap(ps));
            assert(j2.drop_last() =~= jv);
            assert(apply_undo(self@.store, j2.last()) == ps);
            assert(self@.store =~= Seq::<(Seq<char>, DataView)>::empty());
            assert(self@ =~= txn_step(old(self)@, TxOp::Clear));
        }
    }

    /// Ends the transaction keeping its mutations: the journal and the
    /// pending effects are discarded, the store stays as it is.
    pub fn commit(&mut self)
        ensures
            final(self)@.store == old(self)@.store,
            final(self).store_map() == old(self).store_map(),
            final(self).at_rest(),
    {
        self.journal.truncate(0);
        self.pending.truncate(0);
        proof {
            assert(self@.journal =~= Seq::<UndoView>::empty());
            assert(self@.pending =~= Seq::<Effect>::empty());
        }
    }

    /// Ends the transaction undoing its mutations: the journal is
    /// applied in reverse, so the store returns to what a rollback was
    /// to restore; the pending effects are discarded.
    pub fn rollback(&mut self)
        ensures
            final(self)@.store == old(self).undo_target(),
            final(self).at_rest(),
    {
        let ghost target = self.undo_target();
        loop
            invariant_except_break
                undo_all(self@.store, self@.journal) == target,
            ensures
                self@.journal.len() == 0,
                self@.store == target,
            decreases self@.journal.len(),
        {
            let ghost jv = self@.journal;
            let ghost sv = self@.store;
            let u = match self.journal.pop() {
                Some(u) => u,
                None => {
                    proof {
                        assert(jv.len() == 0);
                    }
                    break ;
                },
            };
            proof {
                assert(self@.journal =~= jv.drop_last());
                assert(u@ == jv.last());
            }
            match u {
                UndoRecord::RestoreEntry(k, None) => {
                    let _ = self.store.remove(k.as_str());
                    proof {
                        assert(self@.store == apply_undo(sv, jv.last()));
                    }
                },
                UndoRecord::RestoreEntry(k, Some(v)) => {
                    let ghost vv = v@;
                    let _ = self.store.insert(k.as_str(), v);
                    proof {
                        assert(self@.store == pairs_insert(sv, k@, vv));
                        assert(self@.store == apply_undo(sv, jv.last()));
                    }
                },
                UndoRecord::RestoreFullMap(b) => {
                    let ghost bv = b.pairs();
                    self.store = b;
                    proof {
                        assert(self@.store == bv);
                        assert(self@.store == apply_undo(sv, jv.last()));
                    }
                },
            }
            proof {
                assert(undo_all(self@.store, self@.journal) == undo_all(sv, jv));
            }
        }
        self.pending.truncate(0);
        proof {
            assert(self@.pending =~= Seq::<Effect>::empty());
        }
    }

    /// The log text of the pending effects, in order.
    pub fn pending_log_text(&self) -> (r: String)
        ensures
            r@ == effects_text(self@.pending),
    {
        let ghost es = self@.pending;
        let n = self.pending.len();
        let mut out = String::new();
        proof {
            assert(es.take(0) =~= Seq::<Effect>::empty());
        }
        let mut i: usize = 0;
        while i < n
            invariant
                i <= n,
                n == self.pending@.len(),
                es == self@.pending,
                out@ == effects_text(es.take(i as int)),
            decreases n - i,
        {
            let rec = match &self.pending[i].1 {
                Some(d) => encode_set_record(self.pending[i].0.as_str(), d),
                None => encode_del_record(self.pending[i].0.as_str()),
            };
            out.append(rec.as_str());
            proof {
                assert(rec@ == effect_record(es[i as int]));
                assert(es.take(i + 1) =~= es.take(i as int).push(es[i as int]));
                crate::persist::lemma_effects_text_push(es.take(i as int), es[i as int]);
            }
            i += 1;
        }
        proof {
            assert(es.take(n as int) =~= es);
        }
        out
    }

    /// The full log image of the live store: one SET record per entry,
    /// in key order.
    pub fn image_text(&self) -> (r: String)
        ensures
            r@ == image_pairs(self@.store),
    {
        store_image(&self.store)
    }
}


/// One write-capability operation, as a user closure could issue it.
pub enum TxOp {
    Update(Seq<char>, DataView),
    Remove(Seq<char>),
    Clear,
}

/// Whether the values an operation writes are well-formed.
pub open spec fn ops_wf(ops: Seq<TxOp>) -> bool {
    forall|i: int|
        0 <= i < ops.len() ==> ((#[trigger] ops[i]) matches TxOp::Update(k, v) ==>
        crate::data::data_wf(v))
}

/// What one operation does to the state of a transaction; this is what
/// the contracts of `update`, `remove` and `clear` say, gathered into
/// one step function.
pub open spec fn txn_step(t: TxnView, op: TxOp) -> TxnView {
    match op {
        TxOp::Update(k, v) => TxnView {
            store: pairs_insert(t.store, k, v),
            journal: t.journal.push(UndoView::RestoreEntry(k, pairs_get(t.store, k))),
            pending: t.pending.push((k, Some(v))),
        },
        TxOp::Remove(k) => TxnView {
            store: pairs_remove(t.store, k),
            journal: t.journal.push(UndoView::RestoreEntry(k, pairs_get(t.store, k))),
            pending: t.pending.push((k, None)),
        },
        TxOp::Clear => TxnView {
            store: Seq::empty(),
            journal: t.journal.push(UndoView::RestoreFullMap(t.store)),
            pending: t.pending + dels_of(t.store),
        },
    }
}

/// A sequence of operations, applied in order.
pub open spec fn txn_steps(t: TxnView, ops: Seq<TxOp>) -> TxnView
    decreases ops.len(),
{
    if ops.len() == 0 {
        t
    } else {
        txn_steps(txn_step(t, ops[0]), ops.skip(1))
    }
}

/// Deleting every entry of a sorted store, in order, empties it.
proof fn lemma_dels_clear(ps: Pairs)
    requires
        sorted_pairs(ps),
    ensures
        apply_effects(ps, dels_of(ps)) == Seq::<(Seq<char>, DataView)>::empty(),
    decreases ps.len(),
{
    if ps.len() == 0 {
        assert(dels_of(ps) =~= Seq::<Effect>::empty());
    } else {
        assert(dels_of(ps)[0] == (ps[0].0, None::<DataView>));
        assert(apply_effect(ps, dels_of(ps)[0]) == pairs_remove(ps, ps[0].0));
        assert(pairs_remove(ps, ps[0].0) == ps.skip(1));
        let tail = ps.skip(1);
        assert(forall|a: int, b: int|
            0 <= a < b < tail.len() ==> crate::store::lex_lt(
                (#[trigger] tail[a]).0,
                (#[trigger] tail[b]).0,
            ));
        assert(dels_of(ps).skip(1) =~= dels_of(tail));
        lemma_dels_clear(tail);
    }
}

/// One staged operation keeps the transaction honest: the store stays
/// sorted, the store a rollback would restore is unchanged, and the
/// pending effects still carry the base store to the live store.
pub proof fn lemma_txn_step_invariants(t: TxnView, op: TxOp, base: Pairs)
    requires
        sorted_pairs(t.store),
        apply_effects(base, t.pending) == t.store,
    ensures
        sorted_pairs(txn_step(t, op).store),
        undo_all(txn_step(t, op).store, txn_step(t, op).journal) == undo_all(t.store, t.journal),
        apply_effects(base, txn_step(t, op).pending) == txn_step(t, op).store,
{
    let t2 = txn_step(t, op);
    assert(t2.journal.drop_last() =~= t.journal);
    match op {
        TxOp::Update(k, v) => {
            lemma_pairs_insert_sorted(t.store, k, v);
            assert(t2.journal.last() == UndoView::RestoreEntry(k, pairs_get(t.store, k)));
            match pairs_get(t.store, k) {
                None => {
                    lemma_pairs_remove_insert(t.store, k, v);
                },
                Some(w) => {
                    lemma_pairs_insert_insert(t.store, k, v, w);
                    lemma_pairs_insert_same(t.store, k, w);
                },
            }
            assert(apply_undo(t2.store, t2.journal.last()) == t.store);
            crate::persist::lemma_apply_effects_push(base, t.pending, (k, Some(v)));
        },
        TxOp::Remove(k) => {
            crate::store::lemma_pairs_remove_sorted(t.store, k);
            assert(t2.journal.last() == UndoView::RestoreEntry(k, pairs_get(t.store, k)));
            match pairs_get(t.store, k) {
                None => {
                    lemma_pairs_remove_unchanged(t.store, k);
                    lemma_pairs_remove_unchanged(pairs_remove(t.store, k), k);
                },
                Some(w) => {
                    lemma_pairs_insert_remove(t.store, k, w);
                },
            }
            assert(apply_undo(t2.store, t2.journal.last()) == t.store);
            crate::persist::lemma_apply_effects_push(base, t.pending, (k, None));
        },
        TxOp::Clear => {
            assert(t2.journal.last() == UndoView::RestoreFullMap(t.store));
            assert(apply_undo(t2.store, t2.journal.last()) == t.store);
            crate::persist::lemma_apply_effects_concat(base, t.pending, dels_of(t.store));
            lemma_dels_clear(t.store);
        },
    }
}

/// What one operation preserves, a whole sequence preserves.
pub proof fn lemma_txn_steps_invariants(t: TxnView, ops: Seq<TxOp>, base: Pairs)
    requires
        sorted_pairs(t.store),
        apply_effects(base, t.pending) == t.store,
    ensures
        sorted_pairs(txn_steps(t, ops).store),
        undo_all(txn_steps(t, ops).store, txn_steps(t, ops).journal) == undo_all(
            t.store,
            t.journal,
        ),
        apply_effects(base, txn_steps(t, ops).pending) == txn_steps(t, ops).store,
    decreases ops.len(),
{
    if ops.len() > 0 {
        lemma_txn_step_invariants(t, ops[0], base);
        lemma_txn_steps_invariants(txn_step(t, ops[0]), ops.skip(1), base);
    }
}

/// Operations that write well-formed values leave the pending effects
/// well-formed.
pub proof fn lemma_txn_steps_wf(t: TxnView, ops: Seq<TxOp>)
    requires
        crate::persist::effects_wf(t.pending),
        ops_wf(ops),
    ensures
        crate::persist::effects_wf(txn_steps(t, ops).pending),
    decreases ops.len(),
{
    if ops.len() > 0 {
        let t2 = txn_step(t, ops[0]);
        assert(crate::persist::effects_wf(t2.pending)) by {
            match ops[0] {
                TxOp::Update(k, v) => {
                    assert(ops[0] matches TxOp::Update(k2, v2) ==> crate::data::data_wf(v2));
                    assert forall|i: int| 0 <= i < t2.pending.len() implies ((
                    #[trigger] t2.pending[i]).1 matches Some(vv) ==> crate::data::data_wf(vv)) by {
                        if i < t.pending.len() {
                            assert(t2.pending[i] == t.pending[i]);
                        }
                    }
                },
                TxOp::Remove(k) => {
                    assert forall|i: int| 0 <= i < t2.pending.len() implies ((
                    #[trigger] t2.pending[i]).1 matches Some(vv) ==> crate::data::data_wf(vv)) by {
                        if i < t.pending.len() {
                            assert(t2.pending[i] == t.pending[i]);
                        }
                    }
                },
                TxOp::Clear => {
                    assert forall|i: int| 0 <= i < t2.pending.len() implies ((
                    #[trigger] t2.pending[i]).1 matches Some(vv) ==> crate::data::data_wf(vv)) by {
                        if i < t.pending.len() {
                            assert(t2.pending[i] == t.pending[i]);
                        } else {
                            assert(t2.pending[i] == dels_of(t.store)[i - t.pending.len()]);
                        }
                    }
                },
            }
        }
        assert(ops_wf(ops.skip(1))) by {
            assert(forall|i: int| 0 <= i < ops.skip(1).len() ==> #[trigger] ops.skip(1)[i]
                == ops[i + 1]);
        }
        lemma_txn_steps_wf(t2, ops.skip(1));
    }
}

/// Rollback correctness: whatever sequence of operations a transaction
/// that begins at rest stages, applying its journal in reverse restores
/// the store it began with. A closure that returns an error therefore
/// leaves the store unchanged.
pub proof fn lemma_rollback_restores(t0: TxnView, ops: Seq<TxOp>)
    requires
        sorted_pairs(t0.store),
        t0.journal.len() == 0,
        t0.pending.len() == 0,
    ensures
        undo_all(txn_steps(t0, ops).store, txn_steps(t0, ops).journal) == t0.store,
{
    lemma_txn_steps_invariants(t0, ops, t0.store);
}

/// Clearing the store inside a transaction that is rolled back leaves
/// the store unchanged, even when other writes surround the clear.
pub proof fn lemma_clear_rollback_restores(t0: TxnView, before: Seq<TxOp>, after: Seq<TxOp>)
    requires
        sorted_pairs(t0.store),
        t0.journal.len() == 0,
        t0.pending.len() == 0,
    ensures
        undo_all(
            txn_steps(t0, before + seq![TxOp::Clear] + after).store,
            txn_steps(t0, before + seq![TxOp::Clear] + after).journal,
        ) == t0.store,
{
    lemma_rollback_restores(t0, before + seq![TxOp::Clear] + after);
}

/// Net effect of a committed transaction: applying its pending effects
/// to the store it began with yields exactly the store it committed.
/// A sequence of committed transactions therefore carries the store
/// from its initial contents through each transaction's effects in
/// order.
pub proof fn lemma_committed_net_effects(t0: TxnView, ops: Seq<TxOp>)
    requires
        sorted_pairs(t0.store),
        t0.journal.len() == 0,
        t0.pending.len() == 0,
    ensures
        apply_effects(t0.store, txn_steps(t0, ops).pending) == txn_steps(t0, ops).store,
        sorted_pairs(txn_steps(t0, ops).store),
{
    assert(apply_effects(t0.store, t0.pending) == t0.store);
    lemma_txn_steps_invariants(t0, ops, t0.store);
}

/// Log replay round trip: when a log replays to the store a transaction
/// begins with, the log extended with the transaction's committed
/// effects replays to the store the transaction commits. A fresh store
/// loaded from the extended log therefore sees the same contents.
pub proof fn lemma_log_replay_round_trip(log: Seq<char>, t0: TxnView, ops: Seq<TxOp>)
    requires
        sorted_pairs(t0.store),
        t0.journal.len() == 0,
        t0.pending.len() == 0,
        ops_wf(ops),
        crate::persist::replay_full(log) == Some(t0.store),
    ensures
        crate::persist::replay_full(log + effects_text(txn_steps(t0, ops).pending)) == Some(
            txn_steps(t0, ops).store,
        ),
{
    let es = txn_steps(t0, ops).pending;
    assert(crate::persist::effects_wf(t0.pending));
    lemma_txn_steps_wf(t0, ops);
    crate::persist::lemma_replay_append(log, effects_text(es), Seq::empty());
    crate::persist::lemma_replay_effects(es, Seq::empty(), t0.store);
    assert(effects_text(es) + Seq::<char>::empty() =~= effects_text(es));
    lemma_committed_net_effects(t0, ops);
}


/// The state a transaction beginning at rest over a store commits after
/// a sequence of operations.
pub open spec fn commit_result(store: Pairs, ops: Seq<TxOp>) -> TxnView {
    txn_steps(
        TxnView { store, journal: Seq::<UndoView>::empty(), pending: Seq::<Effect>::empty() },
        ops,
    )
}

/// The store after a sequence of transactions, each run to commit over
/// the store the one before left.
pub open spec fn stores_after(s0: Pairs, txs: Seq<Seq<TxOp>>) -> Pairs
    decreases txs.len(),
{
    if txs.len() == 0 {
        s0
    } else {
        stores_after(commit_result(s0, txs[0]).store, txs.skip(1))
    }
}

/// The net effects of a sequence of transactions, in commit order: each
/// transaction contributes the pending effects it committed.
pub open spec fn effects_after(s0: Pairs, txs: Seq<Seq<TxOp>>) -> Seq<Effect>
    decreases txs.len(),
{
    if txs.len() == 0 {
        Seq::empty()
    } else {
        commit_result(s0, txs[0]).pending + effects_after(
            commit_result(s0, txs[0]).store,
            txs.skip(1),
        )
    }
}

/// For any sequence of transactions, the final store equals the result
/// of applying the committed transactions' net effects, in order, to
/// the initial store.
pub proof fn lemma_transaction_sequence_net_effects(s0: Pairs, txs: Seq<Seq<TxOp>>)
    requires
        sorted_pairs(s0),
    ensures
        apply_effects(s0, effects_after(s0, txs)) == stores_after(s0, txs),
        sorted_pairs(stores_after(s0, txs)),
    decreases txs.len(),
{
    if txs.len() == 0 {
        assert(apply_effects(s0, Seq::<Effect>::empty()) == s0);
    } else {
        let t0 = TxnView {
            store: s0,
            journal: Seq::<UndoView>::empty(),
            pending: Seq::<Effect>::empty(),
        };
        lemma_committed_net_effects(t0, txs[0]);
        let s1 = commit_result(s0, txs[0]).store;
        let e1 = commit_result(s0, txs[0]).pending;
        crate::persist::lemma_apply_effects_concat(s0, e1, effects_after(s1, txs.skip(1)));
        lemma_transaction_sequence_net_effects(s1, txs.skip(1));
    }
}

/// Whether every transaction of a sequence writes well-formed values.
pub open spec fn txs_wf(txs: Seq<Seq<TxOp>>) -> bool {
    forall|i: int| 0 <= i < txs.len() ==> ops_wf(#[trigger] txs[i])
}

/// Log replay over a whole run: a log that replays to the initial store,
/// extended in order with the effects of every committed transaction,
/// replays to the final store. A fresh database opened over that log
/// (`Database::open_from_log`, whose contract turns a successful replay
/// into the loaded store) therefore observes exactly the store the run
/// committed.
pub proof fn lemma_log_replay_round_trip_sequence(log: Seq<char>, s0: Pairs, txs: Seq<Seq<TxOp>>)
    requires
        sorted_pairs(s0),
        txs_wf(txs),
        crate::persist::replay_full(log) == Some(s0),
    ensures
        crate::persist::replay_full(log + effects_text(effects_after(s0, txs))) == Some(
            stores_after(s0, txs),
        ),
    decreases txs.len(),
{
    if txs.len() == 0 {
        assert(effects_text(Seq::<Effect>::empty()) == Seq::<char>::empty());
        assert(log + Seq::<char>::empty() =~= log);
    } else {
        let t0 = TxnView {
            store: s0,
            journal: Seq::<UndoView>::empty(),
            pending: Seq::<Effect>::empty(),
        };
        let s1 = commit_result(s0, txs[0]).store;
        let e1 = commit_result(s0, txs[0]).pending;
        let rest = effects_after(s1, txs.skip(1));
        lemma_log_replay_round_trip(log, t0, txs[0]);
        lemma_committed_net_effects(t0, txs[0]);
        assert(txs_wf(txs.skip(1))) by {
            assert(forall|i: int| 0 <= i < txs.skip(1).len() ==> #[trigger] txs.skip(1)[i]
                == txs[i + 1]);
        }
        lemma_log_replay_round_trip_sequence(log + effects_text(e1), s1, txs.skip(1));
        crate::persist::lemma_effects_text_concat(e1, rest);
        assert(log + effects_text(e1 + rest) =~= (log + effects_text(e1)) + effects_text(rest));
    }
}

} // verus!
