//! Table schemas and the catalog interface layered above the MVCC core.
//! Validation here is structural: a table needs columns and exactly one
//! primary key.

use vstd::prelude::*;
use crate::error::Error;

verus! {

/// A column's data type.
#[derive(Clone, Copy, Debug, PartialEq, Eq, Structural)]
pub enum DataType {
    Boolean,
    Integer,
    Text,
}

/// A value stored in a row.
#[derive(Clone, Debug, PartialEq)]
pub enum Value {
    Null,
    Boolean(bool),
    Integer(i64),
    Text(String),
}

/// The transaction context schema validation runs in.
pub trait SqlTxn {
    /// Whether this transaction may mutate the catalog.
    fn can_write(&self) -> bool;
}

/// A table schema: a name and its columns.
#[derive(Clone, Debug, PartialEq)]
pub struct Table {
    pub name: String,
    pub columns: Vec<Column>,
}

/// A column definition.
#[derive(Clone, Debug, PartialEq)]
pub struct Column {
    /// Column name.
    pub name: String,
    /// Column datatype.
    pub datatype: DataType,
    /// Whether the column is the primary key.
    pub is_primary: bool,
    /// Whether the column allows null values.
    pub is_nullable: bool,
    /// The default value of the column.
    pub default: Option<Value>,
    /// Whether the column should only take unique values.
    pub is_unique: bool,
    /// The table referenced by this foreign key.
    pub references: Option<String>,
    /// Whether this column is indexed.
    pub is_indexed: bool,
}

/// The number of primary-key columns among the first `i`.
pub open spec fn primary_count(cols: Seq<Column>, i: int) -> int
    decreases i,
{
    if i <= 0 {
        0
    } else {
        primary_count(cols, i - 1) + (if cols[i - 1].is_primary {
            1int
        } else {
            0int
        })
    }
}

impl Table {
    /// Creates a new table schema.
    pub fn new(name: String, columns: Vec<Column>) -> (r: Result<Table, Error>)
        ensures
            r matches Ok(t) && t.name == name && t.columns == columns,
    {
        Ok(Table { name, columns })
    }

    /// Returns the primary key value of a row. The underlying row layout is
    /// not modelled yet; every row maps to the null key.
    pub fn get_row_primary_key(&self, row: &Vec<Value>) -> (r: Result<Value, Error>)
        ensures
            r matches Ok(v) && v == Value::Null,
    {
        Ok(Value::Null)
    }

    /// Validates the table schema: it has columns, and exactly one of them
    /// is the primary key; each column then validates in turn.
    pub fn validate_schema<T: SqlTxn>(&self, txn: &mut T) -> (r: Result<(), Error>)
        ensures
            *final(txn) == *old(txn),
            r is Ok <==> (self.columns@.len() > 0 && primary_count(
                self.columns@,
                self.columns@.len() as int,
            ) == 1),
            r matches Err(e) ==> {
                ||| (e matches Error::TableHasNoColumns(n) && n@ == self.name@
                    && self.columns@.len() == 0)
                ||| (e matches Error::NoPrimaryKey(n) && n@ == self.name@
                    && primary_count(self.columns@, self.columns@.len() as int) == 0)
                ||| (e matches Error::MultiplePrimaryKeys(n) && n@ == self.name@
                    && primary_count(self.columns@, self.columns@.len() as int) > 1)
            },
    {
        if self.columns.len() == 0 {
            return Err(Error::TableHasNoColumns(self.name.clone()));
        }
        let mut primaries: usize = 0;
        let mut i: usize = 0;
        while i < self.columns.len()
            invariant
                i <= self.columns@.len(),
                primaries == primary_count(self.columns@, i as int),
                primaries <= i,
            decreases self.columns@.len() - i,
        {
            if self.columns[i].is_primary {
                primaries = primaries + 1;
            }
            i = i + 1;
        }
        if primaries == 0 {
            return Err(Error::NoPrimaryKey(self.name.clone()));
        }
        if primaries > 1 {
            return Err(Error::MultiplePrimaryKeys(self.name.clone()));
        }
        let mut j: usize = 0;
        while j < self.columns.len()
            invariant
                j <= self.columns@.len(),
                *txn == *old(txn),
            decreases self.columns@.len() - j,
        {
            match self.columns[j].validate_schema(self, txn) {
                Ok(_) => {},
                Err(e) => {
                    return Err(e);
                },
            }
            j = j + 1;
        }
        Ok(())
    }

    /// Validates a row against the schema: one value per column, each value
    /// validating against its column.
    pub fn validate_row<T: SqlTxn>(&self, row: &Vec<Value>, txn: &mut T) -> (r: Result<(), Error>)
        ensures
            *final(txn) == *old(txn),
            r is Ok <==> row@.len() == self.columns@.len(),
            r matches Err(e) ==> e matches Error::InvalidRowSize(n) && n@ == self.name@,
    {
        if row.len() != self.columns.len() {
            return Err(Error::InvalidRowSize(self.name.clone()));
        }
        let primary_key = match self.get_row_primary_key(row) {
            Ok(v) => v,
            Err(e) => {
                return Err(e);
            },
        };
        let mut i: usize = 0;
        while i < self.columns.len()
            invariant
                i <= self.columns@.len(),
                row@.len() == self.columns@.len(),
                *txn == *old(txn),
            decreases self.columns@.len() - i,
        {
            match self.columns[i].validate_value(self, &primary_key, &row[i], txn) {
                Ok(_) => {},
                Err(e) => {
                    return Err(e);
                },
            }
            i = i + 1;
        }
        Ok(())
    }
}

impl Column {
    /// Validates the column schema. Cross-table checks are not modelled yet:
    /// every column schema passes.
    pub fn validate_schema<T: SqlTxn>(&self, table: &Table, txn: &mut T) -> (r: Result<(), Error>)
        ensures
            *final(txn) == *old(txn),
            r is Ok,
    {
        Ok(())
    }

    /// Validates a column value. Value-level constraints are not modelled
    /// yet: every value passes.
    pub fn validate_value<T: SqlTxn>(
        &self,
        table: &Table,
        primary_key: &Value,
        value: &Value,
        txn: &mut T,
    ) -> (r: Result<(), Error>)
        ensures
            *final(txn) == *old(txn),
            r is Ok,
    {
        Ok(())
    }
}

/// The stored tables a scan yields, in order.
pub type Tables = Vec<Table>;

/// The catalog: schema storage layered on a transaction. Implementations
/// live with the storage engine that embeds this core.
pub trait Catalog {
    /// Creates a new table.
    fn create_table(&mut self, table: Table) -> Result<(), Error>;

    /// Reads a table, if it exists.
    fn read_table(&self, table_name: &str) -> Result<Option<Table>, Error>;

    /// Deletes an existing table, or errors if it does not exist.
    fn delete_table(&mut self, table_name: &str) -> Result<(), Error>;

    /// Iterates over all tables.
    fn scan_tables(&self) -> Result<Tables, Error>;

    /// Creates an index on a table.
    fn create_index(&mut self, table_name: &str, column_name: &str) -> Result<(), Error>;

    /// Reads a table, or errors if it does not exist. `read_table` carries
    /// no contract here — implementations live outside — so nothing further
    /// can be promised of the result.
    fn read_table_or_error(&self, table_name: &str) -> Result<Table, Error> {
        match self.read_table(table_name) {
            Ok(Some(t)) => Ok(t),
            Ok(None) => Err(Error::TableNotFound(table_name.to_owned())),
            Err(e) => Err(e),
        }
    }
}

} // verus!
