//! The first database of the notebook: entries with a date and a text.
//! Its requests go to SQLite through the application.
use vstd::prelude::*;

use crate::common::utils::time_now;

verus! {

pub struct TirraEntry {
    pub id: u32,
    pub date: String,
    pub text: String,
}

#[derive(Debug, PartialEq, Eq, Structural)]
pub enum TirraDbError {
    CryptoAccessFailure,
    DbOpenFailure,
    DbCloseFailure,
    DbInitError,
    DbRequestError,
}

/// The secrets open the database when decrypting it succeeds.
pub fn tirra_db_try_access(decrypted: Result<(), ()>) -> (b: bool)
    ensures
        b == decrypted is Ok,
{
    match decrypted {
        Ok(_) => true,
        Err(_) => false,
    }
}

/// Seconds since the Unix epoch, 0 when the clock is set before it.
pub fn tirra_db_time_now() -> (t: u64) {
    time_now()
}

/// The request that reads the latest entries.
pub fn tirra_db_default_read_req() -> (r: String)
    ensures
        r@ == "WHERE id > 0 ORDER BY date DESC LIMIT 200"@,
{
    "WHERE id > 0 ORDER BY date DESC LIMIT 200".to_owned()
}

} // verus!
