pub mod add_footer_comment_plugin;
pub mod build_session;
pub mod chunk_graph;
pub mod chunk_group;
pub mod error;
pub mod laws;
pub mod mutation;
pub mod sequences;
pub mod split_chunk_share_module;
