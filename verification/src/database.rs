//! The database: one transaction behind a single-writer interface,
//! closure-based reads and updates, rollback on a failed closure, and
//! staged log I/O for the embedder to perform.
//!
//! The library itself touches no file. Where the configuration names a
//! log file, every commit under the always-sync policy and every save
//! stages the log text to write; the embedding layer takes the staged
//! step, performs it, and feeds a loaded log back in through
//! [`Database::open_from_log`].

use vstd::prelude::*;
use crate::data::DataView;
use crate::error::{Error, ErrorKind};
use crate::persist::{
    PersistType,
    SyncPolicy,
    MemoryStore,
    effects_text,
    image_pairs,
    load_from_str,
    replay_full,
    replay_err_kind,
};
use crate::store::StoreMap;
use crate::transaction::{Transaction, TxnView, undo_all};

verus! {

/// How a database is set up: where it persists, and when it syncs.
pub struct Config {
    pub persist_type: PersistType,
    pub sync_policy: SyncPolicy,
}

impl Default for Config {
    /// An ephemeral database that never syncs.
    fn default() -> (c: Self)
        ensures
            c.persist_type is Memory,
            c.sync_policy is Never,
    {
        Config { persist_type: PersistType::Memory, sync_policy: SyncPolicy::Never }
    }
}

/// One piece of log I/O staged for the embedder: nothing, an append,
/// or a full rewrite.
#[derive(Debug, PartialEq)]
pub enum PendingIo {
    Idle,
    Append(String),
    Rewrite(String),
}

/// The mathematical reading of a staged I/O step.
pub enum IoView {
    Idle,
    Append(Seq<char>),
    Rewrite(Seq<char>),
}

impl View for PendingIo {
    type V = IoView;

    open spec fn view(&self) -> IoView {
        match self {
            PendingIo::Idle => IoView::Idle,
            PendingIo::Append(t) => IoView::Append(t@),
            PendingIo::Rewrite(t) => IoView::Rewrite(t@),
        }
    }
}

/// Staging one more append after what is already staged.
pub open spec fn merge_append(s: IoView, t: Seq<char>) -> IoView {
    match s {
        IoView::Idle => IoView::Append(t),
        IoView::Append(a) => IoView::Append(a + t),
        IoView::Rewrite(a) => IoView::Rewrite(a + t),
    }
}

/// What the log file holds after a staged step is performed on a file
/// holding the given text.
pub open spec fn disk_after(disk: Seq<char>, s: IoView) -> Seq<char> {
    match s {
        IoView::Idle => disk,
        IoView::Append(t) => disk + t,
        IoView::Rewrite(t) => t,
    }
}

/// The mathematical state of a database.
pub struct DbView {
    pub txn: TxnView,
    pub sync_policy: SyncPolicy,
    pub persist_type: PersistType,
    pub closed: bool,
    pub staged: IoView,
    pub flushes: int,
}

/// The database itself.
pub struct Database {
    /// The count of full log rewrites performed so far.
    pub flushes: i32,
    txn: Transaction,
    sync_policy: SyncPolicy,
    persist_type: PersistType,
    closed: bool,
    staged: PendingIo,
}

impl View for Database {
    type V = DbView;

    closed spec fn view(&self) -> DbView {
        DbView {
            txn: self.txn@,
            sync_policy: self.sync_policy,
            persist_type: self.persist_type,
            closed: self.closed,
            staged: self.staged@,
            flushes: self.flushes as int,
        }
    }
}

impl Database {
    /// The transaction as a value, for speaking of the closures'
    /// contracts.
    pub closed spec fn txn_value(&self) -> Transaction {
        self.txn
    }

    /// The transaction value handed to an updating closure carries
    /// exactly the transaction state of the view: what a closure's own
    /// contract says of its input therefore applies to `self@.txn`.
    pub proof fn lemma_txn_value_view(&self)
        ensures
            self.txn_value()@ == self@.txn,
    {
    }

    /// Whether this database persists to a log file.
    pub open spec fn file_backed(&self) -> bool {
        self@.persist_type is File
    }

    /// A freshly created database: empty store, nothing staged but the
    /// truncation of a file-backed log, not closed, no rewrites yet.
    pub open spec fn fresh(&self, config: Config) -> bool {
        &&& self@.txn.store == Seq::<(Seq<char>, DataView)>::empty()
        &&& self@.txn.journal.len() == 0
        &&& self@.txn.pending.len() == 0
        &&& self@.sync_policy == config.sync_policy
        &&& self@.persist_type == config.persist_type
        &&& !self@.closed
        &&& self@.flushes == 0
        &&& self@.staged == (if config.persist_type is File {
            IoView::Rewrite(Seq::<char>::empty())
        } else {
            IoView::Idle
        })
    }

    /// Creates a database with an empty store. Where the configuration
    /// names a log file, the truncation of that file is staged: this is
    /// a fresh open, not a recovery; recovery goes through
    /// `open_from_log`.
    pub fn new(config: Config) -> (r: Result<Database, Error>)
        ensures
            r matches Ok(db) && db.fresh(config),
    {
        let (store, staged) = match &config.persist_type {
            PersistType::Memory => {
                let mut backend = MemoryStore::default();
                let store = match backend.load() {
                    Ok(s) => s,
                    Err(e) => {
                        return Err(e);
                    },
                };
                (store, PendingIo::Idle)
            },
            PersistType::File(_) => (StoreMap::new(), PendingIo::Rewrite(String::new())),
        };
        let db = Database {
            flushes: 0,
            txn: Transaction::new(store),
            sync_policy: config.sync_policy,
            persist_type: config.persist_type,
            closed: false,
            staged,
        };
        proof {
            assert(db@.txn.store =~= Seq::<(Seq<char>, DataView)>::empty());
            if db@.staged is Rewrite {
                assert(db@.staged->Rewrite_0 =~= Seq::<char>::empty());
            }
        }
        Ok(db)
    }

    /// Opens a database over the contents of an existing log: the log
    /// is replayed into the initial store, and nothing is staged.
    pub fn open_from_log(config: Config, content: &str) -> (r: Result<Database, Error>)
        ensures
            replay_full(content@) matches Some(ps) ==> (r matches Ok(db) && db@.txn.store == ps
                && db@.txn.journal.len() == 0 && db@.txn.pending.len() == 0 && !db@.closed
                && db@.flushes == 0 && db@.staged is Idle && db@.sync_policy == config.sync_policy
                && db@.persist_type == config.persist_type),
            replay_full(content@) is None ==> (r matches Err(e) && e.kind == replay_err_kind(
                content@,
            )),
    {
        let store = match load_from_str(content) {
            Ok(s) => s,
            Err(e) => {
                return Err(e);
            },
        };
        Ok(
            Database {
                flushes: 0,
                txn: Transaction::new(store),
                sync_policy: config.sync_policy,
                persist_type: config.persist_type,
                closed: false,
                staged: PendingIo::Idle,
            },
        )
    }

    /// Whether the database has been closed.
    pub fn is_closed(&self) -> (r: bool)
        ensures
            r == self@.closed,
    {
        self.closed
    }

    /// The configured sync policy.
    pub fn sync_policy(&self) -> (p: SyncPolicy)
        ensures
            p == self@.sync_policy,
    {
        self.sync_policy
    }

    /// The configured backend.
    pub fn persist_type(&self) -> (p: &PersistType)
        ensures
            *p == self@.persist_type,
    {
        &self.persist_type
    }

    /// Takes the staged log I/O, leaving nothing staged. The embedder
    /// performs the step on the log file.
    pub fn take_staged(&mut self) -> (io: PendingIo)
        ensures
            io@ == old(self)@.staged,
            final(self)@ == (DbView { staged: IoView::Idle, ..old(self)@ }),
    {
        let mut io = PendingIo::Idle;
        std::mem::swap(&mut io, &mut self.staged);
        io
    }

    /// Runs a read-only closure against the store. A closed database
    /// refuses the read; otherwise the closure's own result is
    /// returned, and the database is untouched.
    pub fn read<F: FnOnce(&Transaction) -> Result<(), Error>>(&self, f: F) -> (r: Result<
        (),
        Error,
    >)
        requires
            !self@.closed ==> forall|t: &Transaction|
                t@ == self@.txn ==> #[trigger] call_requires(f, (t,)),
        ensures
            self@.closed ==> (r matches Err(e) && e.kind == ErrorKind::DataBaseClosed),
            !self@.closed ==> exists|t: &Transaction, rr: Result<(), Error>|
                t@ == self@.txn && #[trigger] call_ensures(f, (t,), rr) && r == rr,
    {
        if self.closed {
            return Err(Error::new(ErrorKind::DataBaseClosed));
        }
        let rr = f(&self.txn);
        rr
    }

    /// Runs an updating closure against the transaction. A closed
    /// database refuses the update. Otherwise the closure stages its
    /// mutations on the transaction it is handed; when it returns an
    /// error, the journal is applied in reverse, so the store returns
    /// to what it held before the closure ran, and the closure's error
    /// is consumed. When it returns success, the store keeps the
    /// closure's mutations, and under the always-sync policy on a
    /// file-backed database the pending effects are staged for
    /// appending to the log before anything else happens. Either way
    /// the transaction ends at rest and the call reports success.
    pub fn update<F: FnOnce(Transaction) -> (Transaction, Result<(), Error>)>(
        &mut self,
        f: F,
    ) -> (r: Result<(), Error>)
        requires
            !old(self)@.closed ==> call_requires(f, (old(self).txn_value(),)),
        ensures
            old(self).txn_value()@ == old(self)@.txn,
            old(self)@.closed ==> (r matches Err(e) && e.kind == ErrorKind::DataBaseClosed
                && final(self)@ == old(self)@),
            !old(self)@.closed ==> (r is Ok && exists|t2: Transaction, cr: Result<(), Error>|
                {
                    &&& #[trigger] call_ensures(f, (old(self).txn_value(),), (t2, cr))
                    &&& final(self)@.txn.store == (if cr is Err {
                        undo_all(t2@.store, t2@.journal)
                    } else {
                        t2@.store
                    })
                    &&& final(self)@.txn.journal.len() == 0
                    &&& final(self)@.txn.pending.len() == 0
                    &&& final(self)@.staged == (if cr is Ok && old(self)@.sync_policy is Always
                        && old(self)@.persist_type is File {
                        merge_append(old(self)@.staged, effects_text(t2@.pending))
                    } else {
                        old(self)@.staged
                    })
                    &&& !final(self)@.closed
                    &&& final(self)@.flushes == old(self)@.flushes
                    &&& final(self)@.sync_policy == old(self)@.sync_policy
                    &&& final(self)@.persist_type == old(self)@.persist_type
                }),
    {
        if self.closed {
            return Err(Error::new(ErrorKind::DataBaseClosed));
        }
        let mut txn = Transaction::new(StoreMap::new());
        std::mem::swap(&mut txn, &mut self.txn);
        let (mut txn, cr) = f(txn);
        let failed = cr.is_err();
        if failed {
            txn.rollback();
        } else {
            let always = match self.sync_policy {
                SyncPolicy::Always => true,
                SyncPolicy::Never => false,
            };
            let file = match &self.persist_type {
                PersistType::File(_) => true,
                PersistType::Memory => false,
            };
            if always && file {
                let text = txn.pending_log_text();
                let mut staged = PendingIo::Idle;
                std::mem::swap(&mut staged, &mut self.staged);
                let merged = match staged {
                    PendingIo::Idle => PendingIo::Append(text),
                    PendingIo::Append(a) => PendingIo::Append(a.concat(text.as_str())),
                    PendingIo::Rewrite(a) => PendingIo::Rewrite(a.concat(text.as_str())),
                };
                self.staged = merged;
            }
        }
        txn.commit();
        std::mem::swap(&mut txn, &mut self.txn);
        Ok(())
    }

    /// Stages a full rewrite of the log from the live store, in key
    /// order, and counts the rewrite. On a memory-backed database there
    /// is no log, so nothing is staged and nothing is counted. On a
    /// closed database it refuses.
    pub fn save(&mut self) -> (r: Result<(), Error>)
        requires
            old(self)@.persist_type is File ==> old(self)@.flushes < i32::MAX,
        ensures
            old(self)@.closed ==> (r matches Err(e) && e.kind == ErrorKind::DataBaseClosed
                && final(self)@ == old(self)@),
            !old(self)@.closed ==> (r is Ok && final(self)@ == (DbView {
                flushes: if old(self)@.persist_type is File {
                    old(self)@.flushes + 1
                } else {
                    old(self)@.flushes
                },
                staged: if old(self)@.persist_type is File {
                    IoView::Rewrite(image_pairs(old(self)@.txn.store))
                } else {
                    old(self)@.staged
                },
                ..old(self)@
            })),
    {
        if self.closed {
            return Err(Error::new(ErrorKind::DataBaseClosed));
        }
        let file = match &self.persist_type {
            PersistType::File(_) => true,
            PersistType::Memory => false,
        };
        if file {
            let image = self.txn.image_text();
            self.staged = PendingIo::Rewrite(image);
            self.flushes = self.flushes + 1;
        }
        Ok(())
    }

    /// Closes the database; everything after refuses with the closed
    /// error, and a second close fails the same way.
    pub fn close(&mut self) -> (r: Result<(), Error>)
        ensures
            old(self)@.closed ==> (r matches Err(e) && e.kind == ErrorKind::DataBaseClosed
                && final(self)@ == old(self)@),
            !old(self)@.closed ==> (r is Ok && final(self)@ == (DbView {
                closed: true,
                ..old(self)@
            })),
    {
        if self.closed {
            return Err(Error::new(ErrorKind::DataBaseClosed));
        }
        self.closed = true;
        Ok(())
    }
}

} // verus!
