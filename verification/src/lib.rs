//! Verified core of the conversation-graph console: stable and layered graph layout,
//! viewport responses, markdown documents and the decisions of the incremental builder.

pub mod api;
pub mod arithmetic;
pub mod graph;
pub mod incremental_build;
pub mod incremental_layout;
pub mod incremental_layout_laws;
pub mod incremental_store;
pub mod layout;
pub mod markdown;
pub mod markdown_code_laws;
pub mod markdown_laws;
pub mod markdown_model;
pub mod markdown_render;
pub mod markdown_syntax;
pub mod markdown_text;
pub mod numbers;
pub mod ordered;
pub mod publisher;
pub mod rank_propagation;
pub mod render;
pub mod render_laws;
pub mod sequences;
pub mod sorting;
pub mod text;
