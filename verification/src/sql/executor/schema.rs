//! Creating tables.
use vstd::prelude::*;

use crate::error::Error;
use crate::sql::engine::{Engine, Transaction};
use crate::sql::executor::{Executor, ResultSet};
use crate::sql::plan::NodeView;
use crate::sql::schema::Table;

verus! {

/// The operator that creates a table.
pub struct CreateTable {
    schema: Table,
}

impl CreateTable {
    /// The table that is to be created.
    pub closed spec fn schema(&self) -> crate::sql::schema::TableView {
        self.schema@
    }

    /// The operator that creates `schema`.
    pub fn new(schema: Table) -> (op: CreateTable)
        ensures
            op.schema() == schema@,
    {
        CreateTable { schema }
    }
}

impl<E: Engine> Executor<E> for CreateTable {
    open spec fn node(&self) -> NodeView {
        NodeView::CreateTable { schema: self.schema() }
    }

    fn executor(self, engine: &mut E, txn: &mut E::Transaction) -> (r: Result<ResultSet, Error>) {
        proof {
            txn.lemma_active_sound(engine);
        }
        let table_name = self.schema.name.clone();
        txn.create_table(engine, self.schema)?;
        Ok(ResultSet::CreateTable { table_name })
    }
}

} // verus!
