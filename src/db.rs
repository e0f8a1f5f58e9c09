use vstd::prelude::*;

use crate::text::{chars_of, same_chars};

verus! {

/// A work as it is registered in the metadata store.
pub struct WorkRecord {
    pub title: String,
    pub path: String,
    pub work_type: String,
    pub page_count: i32,
    pub thumbnail: Vec<u8>,
    pub artist: Option<String>,
    pub year: Option<i32>,
    pub genre: Option<String>,
    pub circle: Option<String>,
    pub origin: Option<String>,
}

/// A registered work as a listing shows it.
pub struct WorkSummary {
    pub id: i64,
    pub title: String,
    pub work_type: String,
    pub page_count: i32,
    pub created_at: String,
}

/// A registered work with everything the store keeps of it but its thumbnail.
pub struct WorkDetail {
    pub id: i64,
    pub title: String,
    pub path: String,
    pub work_type: String,
    pub page_count: i32,
    pub created_at: String,
    pub artist: Option<String>,
    pub year: Option<i32>,
    pub genre: Option<String>,
    pub circle: Option<String>,
    pub origin: Option<String>,
}

/// The column and direction a listing of works is sorted by: `title` or else the
/// creation time; ascending for `asc`, else descending.
pub fn listing_order(sort_by: &str, sort_order: &str) -> (r: (&'static str, &'static str))
    ensures
        r.0@ == if sort_by@ == seq!['t', 'i', 't', 'l', 'e'] {
            "title"@
        } else {
            "created_at"@
        },
        r.1@ == if sort_order@ == seq!['a', 's', 'c'] {
            "ASC"@
        } else {
            "DESC"@
        },
{
    let by = chars_of(sort_by);
    let order = chars_of(sort_order);
    let title = vec!['t', 'i', 't', 'l', 'e'];
    let asc = vec!['a', 's', 'c'];
    assert(title@ =~= seq!['t', 'i', 't', 'l', 'e']);
    assert(asc@ =~= seq!['a', 's', 'c']);
    let column = if same_chars(by.as_slice(), title.as_slice()) {
        "title"
    } else {
        "created_at"
    };
    let direction = if same_chars(order.as_slice(), asc.as_slice()) {
        "ASC"
    } else {
        "DESC"
    };
    (column, direction)
}

} // verus!
