//! Reading tables.
use vstd::prelude::*;

use crate::error::Error;
use crate::sql::engine::{Engine, Transaction};
use crate::sql::executor::{Executor, ResultSet};
use crate::sql::plan::NodeView;

verus! {

/// The operator that reads all the rows of a table.
pub struct Scan {
    table_name: String,
}

impl Scan {
    /// The table that is to be read.
    pub closed spec fn table_name(&self) -> Seq<char> {
        self.table_name@
    }

    /// The operator that reads `table_name`.
    pub fn new(table_name: String) -> (op: Scan)
        ensures
            op.table_name() == table_name@,
    {
        Scan { table_name }
    }
}

impl<E: Engine> Executor<E> for Scan {
    open spec fn node(&self) -> NodeView {
        NodeView::Scan { table_name: self.table_name() }
    }

    fn executor(self, engine: &mut E, txn: &mut E::Transaction) -> (r: Result<ResultSet, Error>) {
        proof {
            txn.lemma_active_sound(engine);
        }
        let table = txn.must_get_table(engine, self.table_name.as_str())?;
        let rows = txn.scan_table(engine, self.table_name.as_str())?;
        Ok(ResultSet::Scan { columns: table.column_names(), rows })
    }
}

} // verus!
