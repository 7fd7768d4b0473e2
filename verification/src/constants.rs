//! Fixed sizes of the row schema and of the table's page store.
use vstd::prelude::*;

verus! {

/// Maximum number of bytes in a username.
pub const COLUMN_USERNAME_SIZE: usize = 32;
/// Maximum number of bytes in an email address.
pub const COLUMN_EMAIL_SIZE: usize = 255;

/// Byte offset of the id inside a serialized row.
pub const ID_OFFSET: usize = 0;
/// Byte offset of the username inside a serialized row.
pub const USERNAME_OFFSET: usize = 4;
/// Byte offset of the email inside a serialized row.
pub const EMAIL_OFFSET: usize = 36;

pub const ID_SIZE: usize = 4;
pub const USERNAME_SIZE: usize = 32;
pub const EMAIL_SIZE: usize = 255;
pub const ROW_SIZE: usize = 291;

/// Size of one page, in bytes.
pub const PAGE_SIZE: usize = 4096;
/// Number of pages the table can hold.
pub const TABLE_MAX_PAGES: usize = 100;
pub const ROWS_PER_PAGE: usize = 14;
pub const TABLE_MAX_ROWS: usize = 1400;

/// How the row and table sizes above follow from one another.
pub proof fn lemma_row_sizes()
    ensures
        ID_SIZE == USERNAME_OFFSET - ID_OFFSET,
        USERNAME_SIZE == EMAIL_OFFSET - USERNAME_OFFSET,
        USERNAME_SIZE == COLUMN_USERNAME_SIZE,
        EMAIL_SIZE == COLUMN_EMAIL_SIZE,
        ROW_SIZE == ID_SIZE + USERNAME_SIZE + EMAIL_SIZE,
        ROWS_PER_PAGE == PAGE_SIZE / ROW_SIZE,
        TABLE_MAX_ROWS == ROWS_PER_PAGE * TABLE_MAX_PAGES,
{
}

} // verus!
