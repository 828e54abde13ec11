//! Carrying out a statement on the table.

use vstd::prelude::*;
use crate::datatype::ScalarValue;
use crate::errors::Error;
use crate::statement::Statement;
use crate::table::Table;

verus! {

/// Carries out `statement`: an insert as [`Table::insert`] does it, which
/// gives nothing back, a read as [`Table::read`] does it, which gives back the
/// values of the row.
pub fn execution(statement: Statement, table: &mut Table) -> (r: Result<
    Option<Vec<ScalarValue>>,
    Error,
>)
    requires
        old(table).well_formed(),
    ensures
        final(table).well_formed(),
        match statement {
            Statement::Insert(insert) => {
                &&& old(table).inserted(
                    final(table),
                    insert.values.deep_view(),
                    match r {
                        Ok(_) => Ok(()),
                        Err(e) => Err(e),
                    },
                )
                &&& r matches Ok(values) ==> values is None
            },
            Statement::Read(index) => {
                &&& old(table).was_read(
                    final(table),
                    index as int,
                    match r {
                        Ok(Some(values)) => Ok(values),
                        Ok(None) => Err(Error::IOError),
                        Err(e) => Err(e),
                    },
                )
                &&& r matches Ok(values) ==> values is Some
            },
        },
{
    match statement {
        Statement::Insert(insert_statement) => match table.insert(insert_statement) {
            Ok(()) => Ok(None),
            Err(e) => Err(e),
        },
        Statement::Read(index) => match table.read(index) {
            Ok(values) => Ok(Some(values)),
            Err(e) => Err(e),
        },
    }
}

} // verus!
