//! The tools' parameters, and the decisions of the tool handlers that do not
//! depend on the transport.

pub mod batch;
pub mod board;
pub mod format;
pub mod map;

use vstd::prelude::*;

verus! {

#[derive(Debug, Clone)]
pub struct ListWorldsParams {}

#[derive(Debug, Clone)]
pub struct ListResourcesParams {
    /// World name (omit if only one world is loaded).
    pub world: Option<String>,
    /// Keep only resources with this tag.
    pub tag: Option<String>,
    /// Keep only resources whose name contains this text.
    pub name: Option<String>,
}

#[derive(Debug, Clone)]
pub struct GetResourceParams {
    pub world: Option<String>,
    pub id_or_name: String,
}

#[derive(Debug, Clone)]
pub struct GetResourceTreeParams {
    pub world: Option<String>,
    pub root_id: Option<String>,
}

#[derive(Debug, Clone)]
pub struct SearchContentParams {
    pub world: Option<String>,
    pub query: String,
    pub limit: Option<usize>,
}

#[derive(Debug, Clone)]
pub struct GetMapParams {
    pub world: Option<String>,
    pub id_or_name: String,
}

#[derive(Debug, Clone)]
pub struct GetBoardParams {
    pub world: Option<String>,
    pub id_or_name: String,
}

#[derive(Debug, Clone)]
pub struct GetCalendarParams {
    pub world: Option<String>,
    pub id_or_name: String,
}

#[derive(Debug, Clone)]
pub struct CreateWorldParams {
    pub name: String,
}

#[derive(Debug, Clone)]
pub struct CreateResourceParams {
    pub name: String,
    pub parent_id: Option<String>,
    pub tags: Option<Vec<String>>,
    pub content: Option<String>,
    pub is_hidden: Option<bool>,
    pub template: Option<String>,
    pub aliases: Option<Vec<String>>,
    pub template_world: Option<String>,
}

#[derive(Debug, Clone)]
pub struct ListTemplatesParams {
    pub world: Option<String>,
}

#[derive(Debug, Clone)]
pub struct AddDocumentParams {
    pub resource_id: String,
    pub name: String,
    pub content: String,
    pub doc_type: Option<String>,
    pub is_hidden: Option<bool>,
}

#[derive(Debug, Clone)]
pub struct SetContentParams {
    pub resource_id: String,
    pub document_id: Option<String>,
    pub content: String,
}

#[derive(Debug, Clone)]
pub struct DeleteResourceParams {
    pub resource_id: String,
    pub recursive: Option<bool>,
}

#[derive(Debug, Clone)]
pub struct ReparentResourceParams {
    pub resource_id: String,
    pub new_parent_id: Option<String>,
}

#[derive(Debug, Clone)]
pub struct GetDraftResourceParams {
    pub id_or_name: String,
}

#[derive(Debug, Clone)]
pub struct GetDraftDocumentParams {
    pub resource_id: String,
    pub document_id: Option<String>,
}

#[derive(Debug, Clone)]
pub struct UpdateDraftResourceParams {
    pub resource_id: String,
    pub name: Option<String>,
    pub tags: Option<Vec<String>>,
    pub is_hidden: Option<bool>,
    pub aliases: Option<Vec<String>>,
}

#[derive(Debug, Clone)]
pub struct DeleteDocumentParams {
    pub resource_id: String,
    pub document_id: String,
}

#[derive(Debug, Clone)]
pub struct ListDraftParams {}

#[derive(Debug, Clone)]
pub struct LoadDraftParams {
    /// Name of the loaded world to copy into the draft.
    pub name: String,
}

#[derive(Debug, Clone)]
pub struct ExportWorldParams {
    pub output_path: Option<String>,
}

#[derive(Debug, Clone)]
pub struct BatchDocumentSpec {
    pub name: String,
    pub content: String,
    pub doc_type: Option<String>,
    pub is_hidden: Option<bool>,
}

#[derive(Debug, Clone)]
pub struct BatchResourceSpec {
    pub name: String,
    /// Parent: the name of a resource earlier in the batch, or an existing id.
    pub parent: Option<String>,
    pub tags: Option<Vec<String>>,
    pub content: Option<String>,
    pub is_hidden: Option<bool>,
    pub template: Option<String>,
    pub aliases: Option<Vec<String>>,
    pub documents: Option<Vec<BatchDocumentSpec>>,
}

#[derive(Debug, Clone)]
pub struct BatchCreateParams {
    pub world_name: Option<String>,
    pub template_world: Option<String>,
    pub resources: Vec<BatchResourceSpec>,
}

} // verus!
