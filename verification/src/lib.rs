//! Verified core of a terminal workspace manager: identifiers, the delegation
//! provenance forest, the lifecycle event history, pane collections and the
//! command-line grammars of the collection and delegation commands.

pub mod ids;
pub mod text;
pub mod delegation;
pub mod forest;
pub mod projection;
pub mod tombstones;
pub mod repair;
pub mod traversal;
pub mod event_hub;
pub mod observation;
pub mod event_poll;
pub mod schema;
pub mod cli;
pub mod layout;
pub mod tiles;
pub mod tile_layout;
pub mod collection_view;
pub mod collection_close;
pub mod collection_mouse;
pub mod close_dialog;
pub mod worktree_group;
pub mod workspace_close;
pub mod member_navigation;
pub mod delegation_api;
pub mod repository_text;
pub mod choices;
pub mod plugin_output;
pub mod choices_provider;
pub mod command_log;
pub mod member_order;
pub mod member_reorder;
pub mod collection_advice;
pub mod status_watch;
pub mod responses;
pub mod output_match;
