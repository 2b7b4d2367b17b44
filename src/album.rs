//! The decision taken on the retailer's album record before any catalog
//! lookup.
use vstd::prelude::*;
use crate::lookup::LookupError;
use crate::normalize::{expand_barcode, expansion, texts};

verus! {

/// The fields of the retailer's album record that the search reads.
#[derive(Debug)]
pub struct AlbumRecord {
    /// The record's status, where it has one as a string.
    pub status: Option<String>,
    /// The record's barcode, where it has one as a string.
    pub barcode: Option<String>,
}

/// What to do after the album record came back.
#[derive(Debug)]
pub enum Plan {
    /// The retailer reported an error: report it, and look nothing up.
    Rejected,
    /// Look up each candidate form of the barcode.
    Search { barcode: String, candidates: Vec<String> },
}

/// The retailer's status value that marks a failed request.
pub open spec fn is_error_status(status: Option<String>) -> bool {
    status is Some && status->Some_0@ == "error"@
}

/// Whether a status string is the retailer's error status.
pub fn status_is_error(status: &String) -> (r: bool)
    ensures
        r == (status@ == "error"@),
{
    *status == String::from_str("error")
}

/// Decides, from the album record, whether to search and for what. An error
/// status stops the search before any lookup; a record without a barcode is
/// malformed; else the candidates are the expansion of the barcode.
pub fn plan_search(record: &AlbumRecord) -> (r: Result<Plan, LookupError>)
    ensures
        is_error_status(record.status) ==> r matches Ok(Plan::Rejected),
        !is_error_status(record.status) && record.barcode is None ==> (r matches Err(
            LookupError::MalformedResponse(_),
        )),
        !is_error_status(record.status) && record.barcode is Some ==> match r {
            Ok(Plan::Search { barcode, candidates }) => {
                &&& barcode@ == record.barcode->Some_0@
                &&& texts(candidates@) == expansion(barcode@)
            },
            _ => false,
        },
{
    match &record.status {
        Some(status) => {
            if status_is_error(status) {
                return Ok(Plan::Rejected);
            }
        },
        None => {},
    }
    match &record.barcode {
        Some(barcode) => {
            let candidates = expand_barcode(barcode.as_str());
            Ok(Plan::Search { barcode: barcode.clone(), candidates })
        },
        None => Err(LookupError::MalformedResponse(String::from_str("upc"))),
    }
}

} // verus!
