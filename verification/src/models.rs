//! Row shapes of the recipe storage layer: the queried and the insertable
//! form of one stored recipe record. (The storage itself lives outside
//! this crate; these are plain data carriers.)
use vstd::prelude::*;

verus! {

/// One recipe row as queried from storage.
#[derive(Debug, Clone)]
pub struct NytcQueryable {
    pub id: i32,
    pub title: String,
    pub author: Option<String>,
    pub yield_: String,
    pub time: Option<String>,
    pub description: Option<String>,
    pub featured: Option<String>,
    pub tags: Vec<String>,
    pub ratings: i32,
    pub rating: i32,
    pub sub_components: Option<Vec<String>>,
    pub indices: Option<Vec<i32>>,
    pub ingredients: Vec<String>,
    pub quantities: Vec<String>,
    pub steps: Vec<String>,
    pub comments: Option<Vec<String>>,
    pub comment_votes: Option<Vec<i32>>,
    pub url_id: String,
}

/// One recipe row in the column-per-list shape the storage layer inserts.
pub struct NytcInsertable {
    pub title: String,
    pub author: Option<String>,
    pub yield_: String,
    pub time: Option<String>,
    pub description: Option<String>,
    pub featured: Option<String>,
    pub tags: Vec<String>,
    pub ratings: i32,
    pub rating: i32,
    pub sub_components: Option<Vec<String>>,
    pub indices: Option<Vec<i32>>,
    pub ingredients: Vec<String>,
    pub quantities: Vec<String>,
    pub steps: Vec<String>,
    pub comments: Option<Vec<String>>,
    pub comment_votes: Option<Vec<i32>>,
    pub url_id: String,
}

} // verus!
