//! MVCC transaction, snapshot and schema tests.

use kvcore::error::Error;
use kvcore::kvstore::MemStore;
use kvcore::metadata::Mode;
use kvcore::mvcc_key::MvccKey;
use kvcore::schema::{Catalog, Column, DataType, SqlTxn, Table, Value};
use kvcore::transaction::{Snapshot, Transaction, MVCC};

#[test]
fn test_begin_sequence_and_active_set() {
    // Fresh store: ids ascend from 1; a committed transaction leaves the
    // next snapshot, an uncommitted one enters it.
    let mut store = MemStore::new();
    let t1 = Transaction::begin(&mut store, Mode::ReadWrite).unwrap();
    assert_eq!(t1.id(), 1);
    let t2 = Transaction::begin(&mut store, Mode::ReadOnly).unwrap();
    assert_eq!(t2.id(), 2);
    t1.commit(&mut store).unwrap();
    let t3 = Transaction::begin(&mut store, Mode::ReadWrite).unwrap();
    assert_eq!(t3.id(), 3);
    assert_eq!(t3.snapshot().invisible, vec![2]);
}

#[test]
fn test_snapshot_mode_restores_and_records() {
    // Continue the begin sequence: a snapshot-mode transaction reads version
    // 1's (empty) snapshot as its view, while its own id still records the
    // set active at its begin.
    let mut store = MemStore::new();
    let t1 = Transaction::begin(&mut store, Mode::ReadWrite).unwrap();
    let _t2 = Transaction::begin(&mut store, Mode::ReadOnly).unwrap();
    t1.commit(&mut store).unwrap();
    let _t3 = Transaction::begin(&mut store, Mode::ReadWrite).unwrap();
    let t4 = Transaction::begin(&mut store, Mode::Snapshot { version: 1 }).unwrap();
    assert_eq!(t4.id(), 4);
    assert_eq!(t4.mode(), Mode::Snapshot { version: 1 });
    assert_eq!(t4.snapshot().version, 1);
    assert_eq!(t4.snapshot().invisible, Vec::<u64>::new());
    let own = Snapshot::restore(&store, 4).unwrap();
    assert_eq!(own.invisible, vec![2, 3]);
}

#[test]
fn test_snapshot_restore_is_immutable() {
    // What `take` persisted is returned unchanged by every later restore.
    let mut store = MemStore::new();
    let _t1 = Transaction::begin(&mut store, Mode::ReadWrite).unwrap();
    let _t2 = Transaction::begin(&mut store, Mode::ReadWrite).unwrap();
    let t3 = Transaction::begin(&mut store, Mode::ReadWrite).unwrap();
    assert_eq!(t3.snapshot().invisible, vec![1, 2]);
    let first = Snapshot::restore(&store, 3).unwrap();
    let _t4 = Transaction::begin(&mut store, Mode::ReadWrite).unwrap();
    let second = Snapshot::restore(&store, 3).unwrap();
    assert_eq!(first.invisible, vec![1, 2]);
    assert_eq!(second.invisible, vec![1, 2]);
    assert_eq!(first.version, 3);
    assert_eq!(second.version, 3);
}

#[test]
fn test_resume_fidelity() {
    // Resuming an active transaction restores its mode and snapshot.
    let mut store = MemStore::new();
    let _t1 = Transaction::begin(&mut store, Mode::ReadWrite).unwrap();
    let t2 = Transaction::begin(&mut store, Mode::ReadOnly).unwrap();
    let r = Transaction::resume(&store, t2.id()).unwrap();
    assert_eq!(r.id(), 2);
    assert_eq!(r.mode(), Mode::ReadOnly);
    assert_eq!(r.snapshot().version, t2.snapshot().version);
    assert_eq!(r.snapshot().invisible, t2.snapshot().invisible);
    assert_eq!(r.snapshot().invisible, vec![1]);
}

#[test]
fn test_resume_missing_transaction() {
    let store = MemStore::new();
    let r = Transaction::resume(&store, 42);
    assert!(matches!(r, Err(Error::NoActiveTransaction(42))));
}

#[test]
fn test_restore_missing_snapshot() {
    let store = MemStore::new();
    let r = Snapshot::restore(&store, 9);
    assert!(matches!(r, Err(Error::SnapshotNotFound(9))));
}

#[test]
fn test_begin_on_corrupt_counter() {
    // A counter value that does not decode is a serialization failure; an
    // exhausted counter is an internal error.
    let mut store = MemStore::new();
    let nkey = MvccKey::TxnNext.encode();
    store.set(&nkey, &[1, 2, 3]);
    assert!(matches!(
        Transaction::begin(&mut store, Mode::ReadWrite),
        Err(Error::Serialization)
    ));
    store.set(&nkey, &[0xff; 8]);
    assert!(matches!(
        Transaction::begin(&mut store, Mode::ReadWrite),
        Err(Error::TxnIdOverflow)
    ));
}

#[test]
fn test_begin_on_corrupt_active_marker() {
    // A malformed key inside the active-marker range fails the active-set
    // scan with the decoder's error.
    let mut store = MemStore::new();
    let bad_key: Vec<u8> = vec![2, 0, 0, 0, 0, 0, 0, 0, 0, 9];
    store.set(&bad_key, &[0]);
    let r = Transaction::begin(&mut store, Mode::ReadWrite);
    assert!(matches!(r, Err(Error::TrailingKeyBytes)));
}

#[test]
fn test_mvcc_manager() {
    let mut mvcc = MVCC::new();
    let t1 = mvcc.begin(Mode::ReadWrite).unwrap();
    assert_eq!(t1.id(), 1);
    let t2 = mvcc.begin(Mode::ReadOnly).unwrap();
    mvcc.commit(t1).unwrap();
    let r = mvcc.resume(t2.id()).unwrap();
    assert_eq!(r.mode(), Mode::ReadOnly);
    let t3 = mvcc.begin(Mode::ReadWrite).unwrap();
    assert_eq!(t3.id(), 3);
    assert_eq!(t3.snapshot().invisible, vec![2]);
}

#[test]
fn test_mode_allows_write() {
    assert!(Mode::ReadWrite.allows_write());
    assert!(!Mode::ReadOnly.allows_write());
    assert!(!Mode::Snapshot { version: 3 }.allows_write());
}

#[test]
fn test_store_operations() {
    let mut store = MemStore::new();
    store.set(b"b", b"2");
    store.set(b"a", b"1");
    store.set(b"c", b"3");
    store.set(b"b", b"22");
    assert_eq!(store.get(b"b"), Some(b"22".to_vec()));
    assert_eq!(store.get(b"d"), None);
    let scanned = store.scan(b"a", b"c");
    assert_eq!(
        scanned,
        vec![(b"a".to_vec(), b"1".to_vec()), (b"b".to_vec(), b"22".to_vec())]
    );
    store.delete(b"b");
    assert_eq!(store.get(b"b"), None);
    store.flush().unwrap();
    assert_eq!(store.get(b"a"), Some(b"1".to_vec()));
}

struct NoopTxn;

impl SqlTxn for NoopTxn {
    fn can_write(&self) -> bool {
        true
    }
}

fn column(name: &str, primary: bool) -> Column {
    Column {
        name: name.to_string(),
        datatype: DataType::Integer,
        is_primary: primary,
        is_nullable: false,
        default: None,
        is_unique: primary,
        references: None,
        is_indexed: false,
    }
}

#[test]
fn test_table_schema_validation() {
    let mut txn = NoopTxn;
    let good = Table::new("movies".to_string(), vec![column("id", true), column("year", false)])
        .unwrap();
    assert!(good.validate_schema(&mut txn).is_ok());

    let empty = Table::new("empty".to_string(), vec![]).unwrap();
    assert!(matches!(
        empty.validate_schema(&mut txn),
        Err(Error::TableHasNoColumns(_))
    ));

    let no_pk = Table::new("nopk".to_string(), vec![column("a", false)]).unwrap();
    assert!(matches!(
        no_pk.validate_schema(&mut txn),
        Err(Error::NoPrimaryKey(_))
    ));

    let two_pk = Table::new("twopk".to_string(), vec![column("a", true), column("b", true)])
        .unwrap();
    assert!(matches!(
        two_pk.validate_schema(&mut txn),
        Err(Error::MultiplePrimaryKeys(_))
    ));
}

struct OneTableCatalog {
    table: Table,
}

impl Catalog for OneTableCatalog {
    fn create_table(&mut self, table: Table) -> Result<(), Error> {
        self.table = table;
        Ok(())
    }

    fn read_table(&self, table_name: &str) -> Result<Option<Table>, Error> {
        if self.table.name == table_name {
            Ok(Some(self.table.clone()))
        } else {
            Ok(None)
        }
    }

    fn delete_table(&mut self, _table_name: &str) -> Result<(), Error> {
        Ok(())
    }

    fn scan_tables(&self) -> Result<kvcore::schema::Tables, Error> {
        Ok(vec![self.table.clone()])
    }

    fn create_index(&mut self, _table_name: &str, _column_name: &str) -> Result<(), Error> {
        Ok(())
    }
}

#[test]
fn test_catalog_read_table_or_error() {
    let cat = OneTableCatalog {
        table: Table::new("movies".to_string(), vec![column("id", true)]).unwrap(),
    };
    let t = cat.read_table_or_error("movies").unwrap();
    assert_eq!(t.name, "movies");
    let missing = cat.read_table_or_error("genres");
    assert!(matches!(missing, Err(Error::TableNotFound(n)) if n == "genres"));
}

#[test]
fn test_table_row_validation() {
    let mut txn = NoopTxn;
    let t = Table::new("movies".to_string(), vec![column("id", true), column("year", false)])
        .unwrap();
    assert!(t.validate_row(&vec![Value::Integer(1), Value::Integer(1979)], &mut txn).is_ok());
    assert!(matches!(
        t.validate_row(&vec![Value::Integer(1)], &mut txn),
        Err(Error::InvalidRowSize(_))
    ));
    assert_eq!(
        t.get_row_primary_key(&vec![Value::Integer(1), Value::Null]).unwrap(),
        Value::Null
    );
}
