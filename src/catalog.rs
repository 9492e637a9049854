use vstd::prelude::*;

use vstd::string::{StrSliceExecFns, StringExecFns};

verus! {

/// The id of a user that owns catalog objects.
pub type UserId = u32;

/// The prefix reserved for the hidden row-id column.
pub open spec fn row_id_prefix() -> Seq<char> {
    seq!['_', 'r', 'o', 'w', '_', 'i', 'd']
}

/// The name of the hidden row-id column.
pub fn row_id_column_name() -> (r: String)
    ensures
        r@ == row_id_prefix(),
{
    proof {
        reveal_strlit("_row_id");
    }
    let r = String::from_str("_row_id");
    assert(r@ =~= row_id_prefix());
    r
}

/// Whether `name` starts with the reserved row-id prefix.
pub fn is_row_id_column_name(name: &str) -> (r: bool)
    ensures
        r == (name@.len() >= row_id_prefix().len() && name@.subrange(0, row_id_prefix().len() as int)
            == row_id_prefix()),
{
    let prefix = "_row_id";
    proof {
        reveal_strlit("_row_id");
        assert(prefix@ =~= row_id_prefix());
    }
    let n = name.unicode_len();
    if n < 7 {
        return false;
    }
    let mut i: usize = 0;
    while i < 7
        invariant
            i <= 7,
            name@.len() >= 7,
            prefix@ == row_id_prefix(),
            forall|k: int| 0 <= k < i ==> name@[k] == row_id_prefix()[k],
        decreases 7 - i,
    {
        if name.get_char(i) != prefix.get_char(i) {
            assert(name@.subrange(0, 7)[i as int] != row_id_prefix()[i as int]);
            return false;
        }
        i += 1;
    }
    assert(name@.subrange(0, 7) =~= row_id_prefix());
    true
}

/// Why a column name is refused.
#[derive(Clone, Copy, PartialEq, Eq, Structural, Debug)]
pub enum ColumnNameError {
    /// The name starts with the prefix reserved for the row-id column.
    ReservedPrefix,
}

/// Refuses a column name that would clash with the hidden row-id column.
pub fn check_valid_column_name(column_name: &str) -> (r: Result<(), ColumnNameError>)
    ensures
        r is Err <==> (column_name@.len() >= row_id_prefix().len() && column_name@.subrange(
            0,
            row_id_prefix().len() as int,
        ) == row_id_prefix()),
        r is Err ==> r == Err::<(), ColumnNameError>(ColumnNameError::ReservedPrefix),
{
    if is_row_id_column_name(column_name) {
        Err(ColumnNameError::ReservedPrefix)
    } else {
        Ok(())
    }
}

/// Errors on catalog objects: the kind of object, its name, and for `NotEmpty` the kind
/// and name of what depends on it.
#[derive(Debug)]
pub enum CatalogError {
    NotFound(&'static str, String),
    Duplicated(&'static str, String),
    NotEmpty(&'static str, String, &'static str, String),
}

/// A relation of the catalog (table, index, sink, ...).
pub trait RelationCatalog {
    /// The owner of the relation.
    fn owner(&self) -> UserId;
}

} // verus!
