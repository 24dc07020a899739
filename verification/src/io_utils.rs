//! Boundary data carried as the serving layer frames it: documents to
//! index, queries, deletions, and their acknowledgements, all scoped to one
//! tenant group.

use vstd::prelude::*;

verus! {

#[derive(Clone, Debug)]
pub struct Document {
    pub document_id: String,
    pub text: String,
}

#[derive(Clone, Debug)]
pub struct Query {
    pub text: String,
}

#[derive(Clone, Debug)]
pub struct IndexingInput {
    pub group_id: String,
    pub user_id: String,
    pub session_id: String,
    pub documents: Vec<Document>,
}

#[derive(Clone, Debug)]
pub struct IndexingOutput {
    pub group_id: String,
    pub user_id: String,
    pub session_id: String,
    pub save_path: String,
}

#[derive(Clone, Debug)]
pub struct SearchInput {
    pub group_id: String,
    pub user_id: String,
    pub session_id: String,
    pub query: Query,
    pub top_k: u16,
}

#[derive(Clone, Debug)]
pub struct SearchOutput {
    pub group_id: String,
    pub user_id: String,
    pub session_id: String,
    pub related_documents: Vec<Document>,
}

#[derive(Clone, Debug)]
pub struct DeleteInput {
    pub group_id: String,
    pub user_id: String,
    pub session_id: String,
    pub document_id: String,
}

#[derive(Clone, Debug)]
pub struct DeleteOutput {
    pub group_id: String,
    pub user_id: String,
    pub session_id: String,
    pub deleted: bool,
}

} // verus!
