//! The MVCC layer: transactions begin, resume and commit against the ordered
//! KV store, each owning a snapshot of the transaction ids that were active
//! when it began. All bookkeeping is persisted in the store under the typed
//! keys of [`crate::mvcc_key`], so recovery needs no in-memory state.

use vstd::prelude::*;
use crate::bytes_order::{lex_lt, lex_le, lemma_lex_trichotomy};
use crate::encoding::{be_bytes, pow256, lemma_be_bytes_len, lemma_be_bytes_val};
use crate::error::Error;
use crate::kvstore::{
    MemStore, EntryForm, seq_get, sorted_strict, lemma_seq_get_present, lemma_seq_get_index,
};
use crate::metadata::{
    Mode, enc_u64, dec_u64, enc_mode, dec_mode, enc_ids, dec_ids, spec_dec_u64, spec_enc_mode,
    spec_dec_mode, spec_enc_ids, spec_dec_ids, lemma_ids_round_trip, proof_pow256_u64_facts,
};
use crate::mvcc_key::{
    MvccKey, KeyForm, spec_encode, spec_decode, lemma_key_round_trip, lemma_key_decode_strict,
    lemma_key_order, lemma_key_tag_grouping,
};

verus! {

/// The stored key of the id counter.
pub open spec fn next_key() -> Seq<u8> {
    spec_encode(KeyForm::TxnNext)
}

/// The stored key of the active marker of transaction `id`.
pub open spec fn active_key(id: nat) -> Seq<u8> {
    spec_encode(KeyForm::TxnActive { id })
}

/// The stored key of the persisted snapshot of version `version`.
pub open spec fn snapshot_key(version: nat) -> Seq<u8> {
    spec_encode(KeyForm::TxnSnapshot { version })
}

/// Whether transaction `id` has an active marker in the store.
pub open spec fn is_active(s: Seq<EntryForm>, id: nat) -> bool {
    seq_get(s, active_key(id)) is Some
}

/// The id the next `begin` will allocate: 1 on a fresh store, else the
/// stored counter, or nothing if the stored counter does not decode.
pub open spec fn txn_next_of(s: Seq<EntryForm>) -> Option<nat> {
    match seq_get(s, next_key()) {
        None => Some(1),
        Some(v) => spec_dec_u64(v),
    }
}

/// Whether `k` falls in the key range an active-set scan for `version` reads.
pub open spec fn in_active_range(k: Seq<u8>, version: nat) -> bool {
    lex_le(active_key(0), k) && lex_lt(k, active_key(version))
}

/// Every stored key in the scan range of `version` is an active marker.
pub open spec fn active_clean(s: Seq<EntryForm>, version: nat) -> bool {
    forall|k: Seq<u8>|
        (#[trigger] seq_get(s, k)) is Some && in_active_range(k, version) ==> (spec_decode(
            k,
        ) matches Some(KeyForm::TxnActive { .. }))
}

/// The id list persisted for `version`, if present and decodable.
pub open spec fn snapshot_ids_of(s: Seq<EntryForm>, version: nat) -> Option<Seq<u64>> {
    match seq_get(s, snapshot_key(version)) {
        None => None,
        Some(v) => spec_dec_ids(v),
    }
}

/// A strictly increasing id list.
pub open spec fn ids_sorted(s: Seq<u64>) -> bool {
    forall|x: int, y: int| 0 <= x < y < s.len() ==> s[x] < s[y]
}

/// A versioned snapshot: the transaction ids that were active when version
/// `version` began, and are therefore invisible to it.
pub struct Snapshot {
    /// The transaction id the snapshot belongs to.
    pub version: u64,
    /// The ids active at begin, ascending.
    pub invisible: Vec<u64>,
}

impl Snapshot {
    /// Captures the set of active transaction ids below `version` and
    /// persists it under the snapshot key of `version`. Fails, leaving the
    /// store unchanged, exactly when a key in the scanned range is not an
    /// active marker.
    pub fn take(store: &mut MemStore, version: u64) -> (r: Result<Snapshot, Error>)
        requires
            old(store).wf(),
        ensures
            final(store).wf(),
            match r {
                Ok(snap) => {
                    &&& active_clean(old(store)@, version as nat)
                    &&& snap.version == version
                    &&& ids_sorted(snap.invisible@)
                    &&& forall|id: u64| #[trigger] snap.invisible@.contains(id)
                        <==> ((id as nat) < version as nat && is_active(old(store)@, id as nat))
                    &&& seq_get(final(store)@, snapshot_key(version as nat))
                        == Some(spec_enc_ids(snap.invisible@))
                    &&& forall|k: Seq<u8>| k != snapshot_key(version as nat)
                        ==> #[trigger] seq_get(final(store)@, k) == seq_get(old(store)@, k)
                },
                Err(e) => {
                    &&& !active_clean(old(store)@, version as nat)
                    &&& final(store)@ == old(store)@
                    &&& (e == Error::UnexpectedScanKey || e matches Error::UnknownKeyPrefix(_)
                        || e == Error::TrailingKeyBytes || e == Error::MalformedKey)
                },
            },
    {
        proof {
            proof_pow256_u64_facts();
        }
        let lo = MvccKey::TxnActive(0).encode();
        let hi = MvccKey::TxnActive(version).encode();
        let scanned = store.scan(lo.as_slice(), hi.as_slice());
        let ghost stv = store@;
        let mut invisible: Vec<u64> = Vec::new();
        let mut j: usize = 0;
        while j < scanned.len()
            invariant
                j <= scanned.len(),
                store.wf(),
                store@ == stv,
                forall|x: int, y: int| 0 <= x < y < scanned@.len()
                    ==> lex_lt((#[trigger] scanned@[x]).0@, (#[trigger] scanned@[y]).0@),
                forall|x: int| 0 <= x < scanned@.len()
                    ==> in_active_range((#[trigger] scanned@[x]).0@, version as nat),
                forall|x: int| 0 <= x < scanned@.len()
                    ==> stv.contains(((#[trigger] scanned@[x]).0@, scanned@[x].1@)),
                forall|i: int| 0 <= i < stv.len()
                    && in_active_range((#[trigger] stv[i]).0, version as nat)
                    ==> exists|x: int| 0 <= x < scanned@.len()
                        && (#[trigger] scanned@[x]).0@ == stv[i].0
                        && scanned@[x].1@ == stv[i].1,
                invisible@.len() == j,
                forall|jj: int| 0 <= jj < j ==> (#[trigger] scanned@[jj]).0@
                    == spec_encode(KeyForm::TxnActive { id: invisible@[jj] as nat }),
                pow256(8) == 0x10000000000000000,
            decreases scanned.len() - j,
        {
            let decoded = MvccKey::decode(scanned[j].0.as_slice());
            match decoded {
                Ok(MvccKey::TxnActive(id)) => {
                    proof {
                        lemma_key_decode_strict(scanned@[j as int].0@);
                        assert(invisible@.push(id)[j as int] == id);
                    }
                    invisible.push(id);
                },
                Ok(_) => {
                    proof {
                        Self::witness_unclean(
                            stv, scanned@[j as int].0@, scanned@[j as int].1@, version as nat);
                    }
                    return Err(Error::UnexpectedScanKey);
                },
                Err(e) => {
                    proof {
                        Self::witness_unclean(
                            stv, scanned@[j as int].0@, scanned@[j as int].1@, version as nat);
                    }
                    return Err(e);
                },
            }
            j = j + 1;
        }
        proof {
            // Every stored in-range key is an active marker: the scan is
            // complete and each scanned key decoded as one.
            assert forall|k: Seq<u8>|
                (#[trigger] seq_get(stv, k)) is Some && in_active_range(k, version as nat)
                implies (spec_decode(k) matches Some(KeyForm::TxnActive { .. })) by {
                lemma_seq_get_index(stv, k);
                let i = choose|i: int| 0 <= i < stv.len()
                    && #[trigger] stv[i] == (k, seq_get(stv, k).unwrap());
                let jj = choose|jj: int| 0 <= jj < scanned@.len()
                    && (#[trigger] scanned@[jj]).0@ == stv[i].0 && scanned@[jj].1@ == stv[i].1;
                lemma_key_round_trip(KeyForm::TxnActive { id: invisible@[jj] as nat });
            }
            assert(active_clean(stv, version as nat));
            // Membership: the captured ids are exactly the active ids below
            // `version`.
            assert forall|id: u64| #[trigger] invisible@.contains(id)
                implies ((id as nat) < version as nat && is_active(stv, id as nat)) by {
                let jj = choose|jj: int| 0 <= jj < invisible@.len()
                    && #[trigger] invisible@[jj] == id;
                assert(scanned@[jj].0@ == active_key(id as nat));
                assert(stv.contains((scanned@[jj].0@, scanned@[jj].1@)));
                let i = choose|i: int| 0 <= i < stv.len()
                    && #[trigger] stv[i] == (scanned@[jj].0@, scanned@[jj].1@);
                lemma_seq_get_present(stv, i);
                lemma_key_order(
                    KeyForm::TxnActive { id: id as nat },
                    KeyForm::TxnActive { id: version as nat },
                );
            }
            assert forall|id: u64| ((id as nat) < version as nat && is_active(stv, id as nat))
                implies #[trigger] invisible@.contains(id) by {
                lemma_seq_get_index(stv, active_key(id as nat));
                let i = choose|i: int| 0 <= i < stv.len()
                    && #[trigger] stv[i] == (active_key(id as nat),
                        seq_get(stv, active_key(id as nat)).unwrap());
                lemma_key_order(
                    KeyForm::TxnActive { id: id as nat },
                    KeyForm::TxnActive { id: version as nat },
                );
                if id != 0 {
                    lemma_key_order(
                        KeyForm::TxnActive { id: 0 },
                        KeyForm::TxnActive { id: id as nat },
                    );
                }
                assert(in_active_range(stv[i].0, version as nat));
                let jj = choose|jj: int| 0 <= jj < scanned@.len()
                    && (#[trigger] scanned@[jj]).0@ == stv[i].0 && scanned@[jj].1@ == stv[i].1;
                lemma_key_round_trip(KeyForm::TxnActive { id: invisible@[jj] as nat });
                lemma_key_round_trip(KeyForm::TxnActive { id: id as nat });
                assert(invisible@[jj] == id);
            }
            // Order: scanned keys ascend, so the ids do.
            assert forall|x: int, y: int| 0 <= x < y < invisible@.len()
                implies invisible@[x] < invisible@[y] by {
                assert(lex_lt(scanned@[x].0@, scanned@[y].0@));
                lemma_key_order(
                    KeyForm::TxnActive { id: invisible@[x] as nat },
                    KeyForm::TxnActive { id: invisible@[y] as nat },
                );
            }
        }
        let value = enc_ids(&invisible);
        let skey = MvccKey::TxnSnapshot(version).encode();
        store.set(skey.as_slice(), value.as_slice());
        Ok(Snapshot { version, invisible })
    }

    /// An in-range scanned entry that is not an active marker refutes
    /// cleanliness.
    proof fn witness_unclean(stv: Seq<EntryForm>, k: Seq<u8>, v: Seq<u8>, version: nat)
        requires
            sorted_strict(stv),
            in_active_range(k, version),
            stv.contains((k, v)),
            !(spec_decode(k) matches Some(KeyForm::TxnActive { .. })),
        ensures
            !active_clean(stv, version),
    {
        let i = choose|i: int| 0 <= i < stv.len() && #[trigger] stv[i] == (k, v);
        lemma_seq_get_present(stv, i);
        assert(seq_get(stv, k) is Some);
    }

    /// Reads the snapshot persisted for `version` back, or fails if it is
    /// absent (`SnapshotNotFound`) or does not decode (`Serialization`).
    pub fn restore(store: &MemStore, version: u64) -> (r: Result<Snapshot, Error>)
        ensures
            match r {
                Ok(snap) => {
                    &&& snap.version == version
                    &&& snapshot_ids_of(store@, version as nat) == Some(snap.invisible@)
                },
                Err(e) => {
                    &&& snapshot_ids_of(store@, version as nat) is None
                    &&& e == (if seq_get(store@, snapshot_key(version as nat)) is None {
                        Error::SnapshotNotFound(version)
                    } else {
                        Error::Serialization
                    })
                },
            },
    {
        let skey = MvccKey::TxnSnapshot(version).encode();
        match store.get(skey.as_slice()) {
            None => Err(Error::SnapshotNotFound(version)),
            Some(v) => {
                match dec_ids(v.as_slice()) {
                    Some(invisible) => Ok(Snapshot { version, invisible }),
                    None => Err(Error::Serialization),
                }
            },
        }
    }
}

/// An MVCC transaction: its unique id, its mode, and the snapshot it reads
/// in. The underlying store is passed to each operation; transactions hold no
/// store state of their own.
pub struct Transaction {
    id: u64,
    mode: Mode,
    snapshot: Snapshot,
}

/// What a successful `begin` guarantees: the allocated id, the three keys it
/// wrote, the captured active set, and the transaction's working snapshot.
pub open spec fn begin_ok_post(
    olds: Seq<EntryForm>,
    news: Seq<EntryForm>,
    mode: Mode,
    txn: Transaction,
) -> bool {
    let id = txn_next_of(olds).unwrap() as nat;
    &&& txn_next_of(olds) is Some
    &&& id + 1 < pow256(8)
    &&& active_clean(olds, id)
    &&& txn.spec_id() == id
    &&& txn.spec_mode() == mode
    &&& seq_get(news, next_key()) == Some(be_bytes(id + 1, 8))
    &&& seq_get(news, active_key(id)) == Some(spec_enc_mode(mode))
    &&& snapshot_ids_of(news, id) is Some
    &&& ids_sorted(snapshot_ids_of(news, id).unwrap())
    &&& forall|id2: u64| #[trigger] snapshot_ids_of(news, id).unwrap().contains(id2)
        <==> ((id2 as nat) < id && is_active(olds, id2 as nat))
    &&& forall|k: Seq<u8>|
        k != next_key() && k != active_key(id) && k != snapshot_key(id)
            ==> #[trigger] seq_get(news, k) == seq_get(olds, k)
    &&& match mode {
        Mode::Snapshot { version } => {
            &&& txn.spec_snapshot_version() == version
            &&& snapshot_ids_of(news, version as nat) == Some(txn.spec_invisible())
        },
        _ => {
            &&& txn.spec_snapshot_version() == id
            &&& snapshot_ids_of(news, id) == Some(txn.spec_invisible())
        },
    }
}

/// When `begin` succeeds: the counter decodes and can grow, the active-set
/// scan meets only active markers, and for a snapshot-mode transaction the
/// requested version's snapshot exists (or is the one being taken).
pub open spec fn begin_ok_conditions(olds: Seq<EntryForm>, mode: Mode) -> bool {
    let id = txn_next_of(olds).unwrap() as nat;
    &&& txn_next_of(olds) is Some
    &&& id + 1 < pow256(8)
    &&& active_clean(olds, id)
    &&& match mode {
        Mode::Snapshot { version } => version as nat == id || snapshot_ids_of(
            olds,
            version as nat,
        ) is Some,
        _ => true,
    }
}

/// The version whose stored snapshot a `resume` of `id` reads: the mode's
/// version for a snapshot-mode transaction, else `id` itself. Meaningful
/// only when the stored mode decodes.
pub open spec fn resume_version_of(s: Seq<EntryForm>, id: u64) -> u64 {
    match spec_dec_mode(seq_get(s, active_key(id as nat)).unwrap()) {
        Some(m) => match m {
            Mode::Snapshot { version } => version,
            _ => id,
        },
        None => id,
    }
}

/// When `resume` succeeds: the active marker exists, its stored mode
/// decodes, and the snapshot of the mode's version (or of `id`) is stored
/// and decodes.
pub open spec fn resume_ok_conditions(s: Seq<EntryForm>, id: u64) -> bool {
    &&& is_active(s, id as nat)
    &&& spec_dec_mode(seq_get(s, active_key(id as nat)).unwrap()) is Some
    &&& snapshot_ids_of(s, resume_version_of(s, id) as nat) is Some
}

/// The error `resume` reports when it fails: each failing stage has its own.
pub open spec fn resume_err_of(s: Seq<EntryForm>, id: u64) -> Error {
    if !is_active(s, id as nat) {
        Error::NoActiveTransaction(id)
    } else if spec_dec_mode(seq_get(s, active_key(id as nat)).unwrap()) is None {
        Error::Serialization
    } else if seq_get(s, snapshot_key(resume_version_of(s, id) as nat)) is None {
        Error::SnapshotNotFound(resume_version_of(s, id))
    } else {
        Error::Serialization
    }
}

/// What a successful `resume` guarantees: the marker exists, its stored mode
/// decodes to the transaction's mode, and the snapshot contents are the
/// stored ones (of the mode's version, or of the transaction's own id).
pub open spec fn resume_ok_post(s: Seq<EntryForm>, id: u64, txn: Transaction) -> bool {
    &&& is_active(s, id as nat)
    &&& txn.spec_id() == id
    &&& spec_dec_mode(seq_get(s, active_key(id as nat)).unwrap()) == Some(txn.spec_mode())
    &&& match txn.spec_mode() {
        Mode::Snapshot { version } => {
            &&& txn.spec_snapshot_version() == version
            &&& snapshot_ids_of(s, version as nat) == Some(txn.spec_invisible())
        },
        _ => {
            &&& txn.spec_snapshot_version() == id
            &&& snapshot_ids_of(s, id as nat) == Some(txn.spec_invisible())
        },
    }
}

impl Transaction {
    /// The transaction's id.
    pub closed spec fn spec_id(&self) -> u64 {
        self.id
    }

    /// The transaction's mode.
    pub closed spec fn spec_mode(&self) -> Mode {
        self.mode
    }

    /// The version of the transaction's working snapshot.
    pub closed spec fn spec_snapshot_version(&self) -> u64 {
        self.snapshot.version
    }

    /// The ids invisible to the transaction.
    pub closed spec fn spec_invisible(&self) -> Seq<u64> {
        self.snapshot.invisible@
    }

    /// Returns the transaction id.
    pub fn id(&self) -> (r: u64)
        ensures
            r == self.spec_id(),
    {
        self.id
    }

    /// Returns the transaction mode.
    pub fn mode(&self) -> (r: Mode)
        ensures
            r == self.spec_mode(),
    {
        self.mode
    }

    /// Returns the transaction's working snapshot.
    pub fn snapshot(&self) -> (r: &Snapshot)
        ensures
            r.version == self.spec_snapshot_version(),
            r.invisible@ == self.spec_invisible(),
    {
        &self.snapshot
    }

    /// Begins a new transaction in the given mode: allocates the next id,
    /// marks it active, captures and persists the active set at this id, and
    /// — for snapshot mode — restores the requested version as the working
    /// view instead.
    pub fn begin(store: &mut MemStore, mode: Mode) -> (r: Result<Transaction, Error>)
        requires
            old(store).wf(),
        ensures
            final(store).wf(),
            r is Ok <==> begin_ok_conditions(old(store)@, mode),
            match r {
                Ok(txn) => begin_ok_post(old(store)@, final(store)@, mode, txn),
                Err(_) => true,
            },
    {
        proof {
            proof_pow256_u64_facts();
        }
        let ghost olds = store@;
        let nkey = MvccKey::TxnNext.encode();
        let id: u64 = match store.get(nkey.as_slice()) {
            Some(v) => match dec_u64(v.as_slice()) {
                Some(x) => x,
                None => {
                    proof {
                        assert(txn_next_of(olds) is None);
                    }
                    return Err(Error::Serialization);
                },
            },
            None => 1,
        };
        assert(txn_next_of(olds) == Some(id as nat));
        if id == u64::MAX {
            assert(id as nat + 1 == pow256(8));
            return Err(Error::TxnIdOverflow);
        }
        let ghost nk = next_key();
        let ghost ak = active_key(id as nat);
        let ghost sk = snapshot_key(id as nat);
        proof {
            lemma_key_kinds_distinct(id as nat, id as nat);
        }
        let next_val = enc_u64(id + 1);
        store.set(nkey.as_slice(), next_val.as_slice());
        let akey = MvccKey::TxnActive(id).encode();
        let mode_val = enc_mode(&mode);
        store.set(akey.as_slice(), mode_val.as_slice());
        let ghost mids = store@;
        proof {
            assert(seq_get(mids, nk) == Some(be_bytes(id as nat + 1, 8)));
            assert(seq_get(mids, ak) == Some(spec_enc_mode(mode)));
            // The two writes touch no key in the scan range of `id`, so the
            // range is clean in the updated store exactly when it was before.
            assert forall|k: Seq<u8>| in_active_range(k, id as nat)
                implies #[trigger] seq_get(mids, k) == seq_get(olds, k) by {
                lemma_meta_keys_outside_range(id as nat, k);
            }
            assert(active_clean(mids, id as nat) == active_clean(olds, id as nat)) by {
                if active_clean(mids, id as nat) {
                    assert forall|k: Seq<u8>|
                        (#[trigger] seq_get(olds, k)) is Some && in_active_range(k, id as nat)
                        implies (spec_decode(k) matches Some(KeyForm::TxnActive { .. })) by {
                        lemma_meta_keys_outside_range(id as nat, k);
                        assert(seq_get(mids, k) is Some);
                    }
                }
                if active_clean(olds, id as nat) {
                    assert forall|k: Seq<u8>|
                        (#[trigger] seq_get(mids, k)) is Some && in_active_range(k, id as nat)
                        implies (spec_decode(k) matches Some(KeyForm::TxnActive { .. })) by {
                        lemma_meta_keys_outside_range(id as nat, k);
                        assert(seq_get(olds, k) is Some);
                    }
                }
            }
        }
        let taken = match Snapshot::take(store, id) {
            Ok(s) => s,
            Err(e) => {
                return Err(e);
            },
        };
        let ghost s3 = store@;
        proof {
            lemma_ids_round_trip(taken.invisible@);
            assert(snapshot_ids_of(s3, id as nat) == Some(taken.invisible@));
            // Activity below `id` is unchanged by the two metadata writes.
            assert forall|id2: u64| (id2 as nat) < id as nat
                implies is_active(mids, id2 as nat) == is_active(olds, id2 as nat) by {
                lemma_key_kinds_distinct(id2 as nat, id as nat);
            }
            // Keys other than the three written ones are untouched.
            assert forall|k: Seq<u8>| k != nk && k != ak && k != sk
                implies #[trigger] seq_get(s3, k) == seq_get(olds, k) by {
            }
        }
        if let Mode::Snapshot { version } = mode {
            let restored = match Snapshot::restore(store, version) {
                Ok(s) => s,
                Err(e) => {
                    proof {
                        // The requested snapshot is absent: it is not the one
                        // just taken, and no key written here is a snapshot
                        // key of another version.
                        assert(snapshot_ids_of(s3, version as nat) is None);
                        assert(version as nat != id as nat);
                        lemma_key_kinds_distinct(version as nat, id as nat);
                        assert(seq_get(s3, snapshot_key(version as nat))
                            == seq_get(olds, snapshot_key(version as nat)));
                        assert(snapshot_ids_of(olds, version as nat) is None);
                    }
                    return Err(e);
                },
            };
            let txn = Transaction { id, mode, snapshot: restored };
            proof {
                if version == id {
                    assert(snapshot_ids_of(s3, version as nat) == Some(taken.invisible@));
                }
                assert(begin_ok_conditions(olds, mode)) by {
                    if version as nat != id as nat {
                        lemma_key_kinds_distinct(version as nat, id as nat);
                        assert(seq_get(s3, snapshot_key(version as nat))
                            == seq_get(olds, snapshot_key(version as nat)));
                    }
                }
                assert(begin_ok_post(olds, s3, mode, txn));
            }
            Ok(txn)
        } else {
            let txn = Transaction { id, mode, snapshot: taken };
            proof {
                assert(begin_ok_conditions(olds, mode));
                assert(begin_ok_post(olds, s3, mode, txn));
            }
            Ok(txn)
        }
    }

    /// Reattaches to the active transaction `id`: reads its stored mode and
    /// restores the stored snapshot (of the mode's version for snapshot
    /// transactions, else of `id` itself). Succeeds exactly when the marker
    /// exists, its mode decodes, and that snapshot is stored; each failing
    /// stage reports its own error.
    pub fn resume(store: &MemStore, id: u64) -> (r: Result<Transaction, Error>)
        ensures
            r is Ok <==> resume_ok_conditions(store@, id),
            match r {
                Ok(txn) => resume_ok_post(store@, id, txn),
                Err(e) => e == resume_err_of(store@, id),
            },
    {
        let akey = MvccKey::TxnActive(id).encode();
        let mode = match store.get(akey.as_slice()) {
            Some(v) => match dec_mode(v.as_slice()) {
                Some(m) => m,
                None => {
                    return Err(Error::Serialization);
                },
            },
            None => {
                return Err(Error::NoActiveTransaction(id));
            },
        };
        let snapshot = match mode {
            Mode::Snapshot { version } => Snapshot::restore(store, version),
            _ => Snapshot::restore(store, id),
        };
        match snapshot {
            Ok(s) => Ok(Transaction { id, mode, snapshot: s }),
            Err(e) => Err(e),
        }
    }

    /// Commits the transaction: removes its active marker and flushes.
    pub fn commit(self, store: &mut MemStore) -> (r: Result<(), Error>)
        requires
            old(store).wf(),
        ensures
            final(store).wf(),
            r is Ok,
            seq_get(final(store)@, active_key(self.spec_id() as nat)) is None,
            forall|k: Seq<u8>| k != active_key(self.spec_id() as nat)
                ==> #[trigger] seq_get(final(store)@, k) == seq_get(old(store)@, k),
    {
        let akey = MvccKey::TxnActive(self.id).encode();
        store.delete(akey.as_slice());
        store.flush()
    }
}

/// The MVCC manager: owns the store handle and issues transactions. It holds
/// no other state; all bookkeeping is persisted.
pub struct MVCC {
    store: MemStore,
}

impl MVCC {
    /// The manager's store contents.
    pub closed spec fn view(&self) -> Seq<EntryForm> {
        self.store@
    }

    /// The store invariant carried by the manager.
    pub closed spec fn wf(&self) -> bool {
        self.store.wf()
    }

    /// A manager over a fresh, empty store.
    pub fn new() -> (r: MVCC)
        ensures
            r.wf(),
            r@ == Seq::<EntryForm>::empty(),
    {
        MVCC { store: MemStore::new() }
    }

    /// Begins a new transaction in the given mode.
    pub fn begin(&mut self, mode: Mode) -> (r: Result<Transaction, Error>)
        requires
            old(self).wf(),
        ensures
            final(self).wf(),
            r is Ok <==> begin_ok_conditions(old(self)@, mode),
            match r {
                Ok(txn) => begin_ok_post(old(self)@, final(self)@, mode, txn),
                Err(_) => true,
            },
    {
        Transaction::begin(&mut self.store, mode)
    }

    /// Resumes the active transaction `id`.
    pub fn resume(&self, id: u64) -> (r: Result<Transaction, Error>)
        ensures
            r is Ok <==> resume_ok_conditions(self@, id),
            match r {
                Ok(txn) => resume_ok_post(self@, id, txn),
                Err(e) => e == resume_err_of(self@, id),
            },
    {
        Transaction::resume(&self.store, id)
    }

    /// Commits a transaction issued by this manager.
    pub fn commit(&mut self, txn: Transaction) -> (r: Result<(), Error>)
        requires
            old(self).wf(),
        ensures
            final(self).wf(),
            r is Ok,
            seq_get(final(self)@, active_key(txn.spec_id() as nat)) is None,
            forall|k: Seq<u8>| k != active_key(txn.spec_id() as nat)
                ==> #[trigger] seq_get(final(self)@, k) == seq_get(old(self)@, k),
    {
        txn.commit(&mut self.store)
    }
}

/// Metadata keys of different kinds are pairwise distinct, and keys of one
/// kind are distinct for distinct ids.
proof fn lemma_key_kinds_distinct(a: nat, b: nat)
    requires
        a < pow256(8),
        b < pow256(8),
    ensures
        next_key() != active_key(b),
        next_key() != snapshot_key(b),
        active_key(a) != snapshot_key(b),
        snapshot_key(a) != active_key(b),
        a != b ==> active_key(a) != active_key(b),
        a != b ==> snapshot_key(a) != snapshot_key(b),
{
    lemma_key_tag_grouping(KeyForm::TxnNext, KeyForm::TxnActive { id: b });
    lemma_key_tag_grouping(KeyForm::TxnNext, KeyForm::TxnSnapshot { version: b });
    lemma_key_tag_grouping(KeyForm::TxnActive { id: a }, KeyForm::TxnSnapshot { version: b });
    lemma_key_tag_grouping(KeyForm::TxnSnapshot { version: a }, KeyForm::TxnActive { id: b });
    crate::bytes_order::lemma_lex_irrefl(next_key());
    crate::bytes_order::lemma_lex_irrefl(active_key(b));
    crate::bytes_order::lemma_lex_irrefl(snapshot_key(b));
    lemma_key_round_trip(KeyForm::TxnActive { id: a });
    lemma_key_round_trip(KeyForm::TxnActive { id: b });
    lemma_key_round_trip(KeyForm::TxnSnapshot { version: a });
    lemma_key_round_trip(KeyForm::TxnSnapshot { version: b });
}

/// Neither the counter key nor the active marker of `id` itself lies in the
/// scan range `[active(0), active(id))`.
proof fn lemma_meta_keys_outside_range(id: nat, k: Seq<u8>)
    requires
        id < pow256(8),
        in_active_range(k, id),
    ensures
        k != next_key(),
        k != active_key(id),
{
    lemma_key_tag_grouping(KeyForm::TxnNext, KeyForm::TxnActive { id: 0 });
    crate::bytes_order::lemma_lex_irrefl(next_key());
    crate::bytes_order::lemma_lex_irrefl(active_key(id));
    if k == next_key() {
        // `next_key` sorts before the range's lower bound.
        lemma_lex_trichotomy(active_key(0), next_key());
    }
}

/// Id monotonicity: a `begin` that starts from the store a previous `begin`
/// left behind allocates exactly the next id, so ids strictly increase over
/// any chain of `begin` calls.
pub proof fn lemma_id_monotonicity(
    s0: Seq<EntryForm>,
    s1: Seq<EntryForm>,
    s2: Seq<EntryForm>,
    m1: Mode,
    m2: Mode,
    t1: Transaction,
    t2: Transaction,
)
    requires
        begin_ok_post(s0, s1, m1, t1),
        begin_ok_post(s1, s2, m2, t2),
    ensures
        t2.spec_id() == t1.spec_id() + 1,
        t1.spec_id() < t2.spec_id(),
{
    let id1 = txn_next_of(s0).unwrap() as nat;
    proof_pow256_u64_facts();
    lemma_be_bytes_len(id1 + 1, 8);
    lemma_be_bytes_val(id1 + 1, 8);
    assert(seq_get(s1, next_key()) == Some(be_bytes(id1 + 1, 8)));
    assert(txn_next_of(s1) == Some(id1 + 1));
}

/// Active-set correctness: a transaction that begins while `a` is active
/// (and `a` is older) cannot see `a`; one that begins after `a`'s marker is
/// gone can. Holds for the snapshot the `begin` captures, which is the
/// working view of every fresh (non-snapshot-mode) transaction.
pub proof fn lemma_active_set_correctness(
    s0: Seq<EntryForm>,
    s1: Seq<EntryForm>,
    mode: Mode,
    t: Transaction,
    a: u64,
)
    requires
        begin_ok_post(s0, s1, mode, t),
        !(mode matches Mode::Snapshot { .. }),
        (a as nat) < t.spec_id() as nat,
    ensures
        t.spec_invisible().contains(a) <==> is_active(s0, a as nat),
{
    let id = txn_next_of(s0).unwrap() as nat;
    assert(snapshot_ids_of(s1, id) == Some(t.spec_invisible()));
    assert(snapshot_ids_of(s1, id).unwrap().contains(a)
        <==> ((a as nat) < id && is_active(s0, a as nat)));
}

/// Snapshot immutability: as long as nothing overwrites the snapshot key of
/// `version`, a restore returns exactly the id list that was persisted.
pub proof fn lemma_snapshot_immutability(
    s1: Seq<EntryForm>,
    s2: Seq<EntryForm>,
    version: nat,
    inv: Seq<u64>,
)
    requires
        seq_get(s1, snapshot_key(version)) == Some(spec_enc_ids(inv)),
        seq_get(s2, snapshot_key(version)) == seq_get(s1, snapshot_key(version)),
    ensures
        snapshot_ids_of(s2, version) == Some(inv),
{
    lemma_ids_round_trip(inv);
}

/// Right after a `begin`, its transaction's id is resumable: the marker is
/// there, its stored mode decodes, and the snapshot it names is stored — so
/// `resume` is guaranteed to succeed on it.
pub proof fn lemma_begin_makes_resumable(
    s0: Seq<EntryForm>,
    s1: Seq<EntryForm>,
    mode: Mode,
    t: Transaction,
)
    requires
        begin_ok_post(s0, s1, mode, t),
    ensures
        resume_ok_conditions(s1, t.spec_id()),
        resume_version_of(s1, t.spec_id()) == t.spec_snapshot_version(),
{
    let id = txn_next_of(s0).unwrap() as nat;
    assert(seq_get(s1, active_key(id)) == Some(spec_enc_mode(mode)));
    crate::metadata::lemma_mode_round_trip(mode);
}

/// Resume fidelity: right after a `begin`, resuming the new transaction's
/// id is guaranteed to succeed, and whatever it returns carries the same id,
/// the same mode, and the same snapshot contents.
pub proof fn lemma_resume_fidelity(
    s0: Seq<EntryForm>,
    s1: Seq<EntryForm>,
    mode: Mode,
    t: Transaction,
    t2: Transaction,
)
    requires
        begin_ok_post(s0, s1, mode, t),
        resume_ok_post(s1, t.spec_id(), t2),
    ensures
        resume_ok_conditions(s1, t.spec_id()),
        t2.spec_id() == t.spec_id(),
        t2.spec_mode() == t.spec_mode(),
        t2.spec_snapshot_version() == t.spec_snapshot_version(),
        t2.spec_invisible() == t.spec_invisible(),
{
    lemma_begin_makes_resumable(s0, s1, mode, t);
    let id = txn_next_of(s0).unwrap() as nat;
    assert(seq_get(s1, active_key(id)) == Some(spec_enc_mode(mode)));
    crate::metadata::lemma_mode_round_trip(mode);
    assert(t2.spec_mode() == mode);
}

} // verus!
