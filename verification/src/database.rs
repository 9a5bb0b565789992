//! The committed store and its transactions.
//!
//! A `Database` owns the committed map. A `Transaction` stages writes
//! in a volatile list; nothing of it is visible until the commit
//! records are durably appended, after which the overlay is applied to
//! the committed map. The log itself is a byte buffer here: the file
//! that backs it, and the append-and-sync discipline, belong to the
//! adapter around the library.

use vstd::prelude::*;
use crate::command::Command;
use crate::kvmap::KvMap;
use crate::replay::{
    SpecWrite, apply_writes, replay_from, last_write, group_records, writes_records, all_fit,
    lemma_apply_writes_push, lemma_writes_records_push, ReplayResult,
};
use crate::text::str_eq;
use crate::wal::{
    SpecCommand, SpecDecode, WalEntry, encode_record, read_record, write_fits, payload_fits,
    spec_cmd, spec_record,
};

verus! {

/// The view of a list of staged writes.
pub open spec fn pairs_view(v: Seq<(String, String)>) -> Seq<SpecWrite> {
    v.map_values(|p: (String, String)| (p.0@, p.1@))
}

/// The store: a committed map and the id handed to the next
/// transaction.
pub struct Database {
    map: KvMap,
    next_transaction_id: u64,
}

/// What a transaction read returns: the latest staged write for the
/// key, else the committed binding, else nothing.
pub open spec fn txn_read(
    ws: Seq<SpecWrite>,
    m: Map<Seq<char>, Seq<char>>,
    k: Seq<char>,
) -> Option<Seq<char>> {
    match last_write(ws, k) {
        Some(v) => Some(v),
        None => if m.contains_key(k) {
            Some(m[k])
        } else {
            None
        },
    }
}

impl Database {
    /// The committed mapping.
    pub closed spec fn committed(&self) -> Map<Seq<char>, Seq<char>> {
        self.map@
    }

    /// The id the next transaction will get.
    pub closed spec fn next_id(&self) -> u64 {
        self.next_transaction_id
    }

    /// The committed map is well formed.
    pub closed spec fn wf(&self) -> bool {
        self.map.wf()
    }

    /// A store with nothing committed; recovery fills it.
    pub fn new() -> (db: Database)
        ensures
            db.wf(),
            db.committed() == Map::<Seq<char>, Seq<char>>::empty(),
            db.next_id() == 1,
    {
        Database { map: KvMap::new(), next_transaction_id: 1 }
    }

    /// Replays a log: stages each write, publishes the staged writes at
    /// each commit, and stops at the clean end of the log or at the
    /// first record that is torn or broken. Returns the end of the last
    /// commit record: the length the log file must be cut back to
    /// before anything is appended.
    pub fn recover(&mut self, log: &[u8]) -> (commit_end: usize)
        requires
            old(self).wf(),
        ensures
            final(self).wf(),
            final(self).next_id() == old(self).next_id(),
            ({
                let r = replay_from(log@, 0, Seq::empty(), old(self).committed(), 0);
                final(self).committed() == r.map && commit_end == r.commit_end
            }),
    {
        let ghost target = replay_from(log@, 0, Seq::empty(), old(self).committed(), 0);
        let mut staged: Vec<(String, String)> = Vec::new();
        let mut pos: usize = 0;
        let mut commit_end: usize = 0;
        proof {
            assert(pairs_view(staged@) =~= Seq::<SpecWrite>::empty());
        }
        loop
            invariant
                self.wf(),
                self.next_id() == old(self).next_id(),
                pos <= log@.len(),
                target == replay_from(log@, 0, Seq::empty(), old(self).committed(), 0),
                replay_from(log@, pos as int, pairs_view(staged@), self.committed(), commit_end as int)
                    == target,
            decreases log@.len() - pos,
        {
            match read_record(log, pos) {
                Ok((entry, end)) => {
                    match entry.command {
                        Command::Write { key, value } => {
                            let ghost staged0 = pairs_view(staged@);
                            staged.push((key, value));
                            proof {
                                assert(pairs_view(staged@) =~= staged0.push(
                                    (entry.command->Write_key@, entry.command->Write_value@),
                                ));
                            }
                            pos = end;
                        },
                        Command::Commit => {
                            let ghost map0 = self.committed();
                            let ghost svs = pairs_view(staged@);
                            let mut j: usize = 0;
                            while j < staged.len()
                                invariant
                                    self.wf(),
                                    self.next_id() == old(self).next_id(),
                                    j <= staged@.len(),
                                    svs == pairs_view(staged@),
                                    self.committed() == apply_writes(map0, svs.take(j as int)),
                                decreases staged@.len() - j,
                            {
                                let key = staged[j].0.clone();
                                let value = staged[j].1.clone();
                                self.map.insert(key, value);
                                proof {
                                    assert(svs.take(j + 1) =~= svs.take(j as int).push(svs[j as int]));
                                    lemma_apply_writes_push(map0, svs.take(j as int), svs[j as int]);
                                }
                                j = j + 1;
                            }
                            proof {
                                assert(svs.take(staged@.len() as int) =~= svs);
                            }
                            staged.clear();
                            proof {
                                assert(pairs_view(staged@) =~= Seq::<SpecWrite>::empty());
                            }
                            commit_end = end;
                            pos = end;
                        },
                        _ => {
                            // `read_record` hands back loggable commands only.
                            proof {
                                assert(false);
                            }
                        },
                    }
                },
                Err(_) => {
                    return commit_end;
                },
            }
        }
    }

    /// Starts the next transaction, with an empty overlay.
    pub fn begin(&mut self) -> (t: Transaction)
        requires
            old(self).wf(),
        ensures
            final(self).wf(),
            final(self).committed() == old(self).committed(),
            final(self).next_id() == (if old(self).next_id() < u64::MAX {
                (old(self).next_id() + 1) as u64
            } else {
                old(self).next_id()
            }),
            t.wf(),
            t.id() == old(self).next_id(),
            t.writes() == Seq::<SpecWrite>::empty(),
    {
        let transaction_id = self.next_transaction_id;
        if self.next_transaction_id < u64::MAX {
            self.next_transaction_id = self.next_transaction_id + 1;
        }
        let t = Transaction { transaction_id, writes: Vec::new() };
        proof {
            assert(t.writes() =~= Seq::<SpecWrite>::empty());
        }
        t
    }
}

/// One transaction: an id and the volatile overlay of staged writes,
/// in the order they were made.
pub struct Transaction {
    transaction_id: u64,
    writes: Vec<(String, String)>,
}

/// The error a write returns when the record it would log cannot be
/// framed: its payload would overflow the record's 32-bit length.
#[derive(Debug, Clone, Copy, PartialEq, Eq, Structural)]
pub struct OversizedWrite;

impl Transaction {
    /// The staged writes, oldest first.
    pub closed spec fn writes(&self) -> Seq<SpecWrite> {
        pairs_view(self.writes@)
    }

    /// The transaction's id; in memory only.
    pub closed spec fn id(&self) -> u64 {
        self.transaction_id
    }

    /// Every staged write can be framed as a record.
    pub closed spec fn wf(&self) -> bool {
        all_fit(self.writes())
    }

    /// Reads a key: the transaction's own latest write wins; otherwise
    /// the committed map answers. Never touches the log.
    pub fn read(&self, db: &Database, key: &str) -> (r: Option<String>)
        requires
            db.wf(),
        ensures
            (match r {
                Some(v) => txn_read(self.writes(), db.committed(), key@) == Some(v@),
                None => txn_read(self.writes(), db.committed(), key@) is None,
            }),
    {
        let ghost ws = self.writes();
        let mut i: usize = self.writes.len();
        proof {
            assert(ws.take(i as int) =~= ws);
        }
        while i > 0
            invariant
                i <= self.writes@.len(),
                ws == self.writes(),
                last_write(ws, key@) == last_write(ws.take(i as int), key@),
            decreases i,
        {
            i = i - 1;
            if str_eq(self.writes[i].0.as_str(), key) {
                proof {
                    assert(ws.take(i + 1).last() == ws[i as int]);
                }
                return Some(self.writes[i].1.clone());
            }
            proof {
                assert(ws.take(i + 1).last() == ws[i as int]);
                assert(ws.take(i + 1).drop_last() =~= ws.take(i as int));
            }
        }
        proof {
            assert(ws.take(0) =~= Seq::<SpecWrite>::empty());
        }
        match db.map.get(key) {
            Some(v) => Some(v.clone()),
            None => None,
        }
    }

    /// Stages a write in the overlay; the log and the committed map are
    /// untouched. Rejected only when the record the write would become
    /// cannot be framed.
    pub fn write(&mut self, key: &str, value: &str) -> (r: Result<(), OversizedWrite>)
        requires
            old(self).wf(),
        ensures
            final(self).wf(),
            final(self).id() == old(self).id(),
            (if payload_fits(SpecCommand::Write { key: key@, value: value@ }) {
                r is Ok && final(self).writes() == old(self).writes().push((key@, value@))
            } else {
                r is Err && final(self).writes() == old(self).writes()
            }),
    {
        if !write_fits(key, value) {
            return Err(OversizedWrite);
        }
        let ghost ws0 = self.writes();
        self.writes.push((String::from_str(key), String::from_str(value)));
        proof {
            assert(self.writes() =~= ws0.push((key@, value@)));
            assert(forall|i: int|
                0 <= i < ws0.len() ==> #[trigger] self.writes()[i] == ws0[i]);
        }
        Ok(())
    }

    /// The bytes that make this transaction durable: one record per
    /// staged write, in order, then one commit record. The caller must
    /// append them to the log and reach stable storage before the
    /// overlay may be applied.
    pub fn commit_records(&self) -> (out: Vec<u8>)
        requires
            self.wf(),
        ensures
            out@ == group_records(self.writes()),
    {
        let ghost ws = self.writes();
        let mut out: Vec<u8> = Vec::new();
        let mut i: usize = 0;
        proof {
            assert(ws.take(0) =~= Seq::<SpecWrite>::empty());
            assert(writes_records(Seq::<SpecWrite>::empty()) =~= Seq::<u8>::empty());
            assert(out@ =~= writes_records(ws.take(0)));
        }
        while i < self.writes.len()
            invariant
                ws == self.writes(),
                all_fit(ws),
                i <= self.writes@.len(),
                out@ == writes_records(ws.take(i as int)),
            decreases self.writes@.len() - i,
        {
            let entry = WalEntry {
                transaction_id: self.transaction_id,
                command: Command::Write {
                    key: self.writes[i].0.clone(),
                    value: self.writes[i].1.clone(),
                },
            };
            proof {
                assert(spec_cmd(entry.command) == (SpecCommand::Write {
                    key: ws[i as int].0,
                    value: ws[i as int].1,
                }));
            }
            let rec = encode_record(&entry);
            let ghost out0 = out@;
            crate::bytes::push_bytes(&mut out, rec.as_slice());
            proof {
                lemma_writes_records_push(ws.take(i as int), ws[i as int]);
                assert(ws.take(i + 1) =~= ws.take(i as int).push(ws[i as int]));
            }
            i = i + 1;
        }
        proof {
            assert(ws.take(self.writes@.len() as int) =~= ws);
        }
        let commit = WalEntry { transaction_id: self.transaction_id, command: Command::Commit };
        proof {
            assert(payload_fits(SpecCommand::Commit)) by {
                assert(crate::bytes::varint(Seq::<u8>::empty().len()) =~= seq![0u8]);
            }
        }
        let rec = encode_record(&commit);
        crate::bytes::push_bytes(&mut out, rec.as_slice());
        out
    }

    /// Publishes the overlay into the committed map and clears it. Only
    /// to be called once the commit records are durably on the log.
    pub fn commit_apply(&mut self, db: &mut Database)
        requires
            old(self).wf(),
            old(db).wf(),
        ensures
            final(self).wf(),
            final(self).id() == old(self).id(),
            final(self).writes() == Seq::<SpecWrite>::empty(),
            final(db).wf(),
            final(db).next_id() == old(db).next_id(),
            final(db).committed() == apply_writes(old(db).committed(), old(self).writes()),
    {
        let ghost ws = self.writes();
        let ghost map0 = db.committed();
        let mut j: usize = 0;
        proof {
            assert(ws.take(0) =~= Seq::<SpecWrite>::empty());
        }
        while j < self.writes.len()
            invariant
                db.wf(),
                db.next_id() == old(db).next_id(),
                ws == self.writes(),
                j <= self.writes@.len(),
                db.committed() == apply_writes(map0, ws.take(j as int)),
            decreases self.writes@.len() - j,
        {
            let key = self.writes[j].0.clone();
            let value = self.writes[j].1.clone();
            db.map.insert(key, value);
            proof {
                assert(ws.take(j + 1) =~= ws.take(j as int).push(ws[j as int]));
                lemma_apply_writes_push(map0, ws.take(j as int), ws[j as int]);
            }
            j = j + 1;
        }
        proof {
            assert(ws.take(self.writes@.len() as int) =~= ws);
        }
        self.writes.clear();
        proof {
            assert(self.writes() =~= Seq::<SpecWrite>::empty());
        }
    }

    /// Discards the overlay without any effect on log or map.
    pub fn rollback(&mut self)
        ensures
            final(self).wf(),
            final(self).id() == old(self).id(),
            final(self).writes() == Seq::<SpecWrite>::empty(),
    {
        self.writes.clear();
        proof {
            assert(self.writes() =~= Seq::<SpecWrite>::empty());
        }
    }
}

} // verus!
