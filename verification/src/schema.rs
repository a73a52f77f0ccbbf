//! Request parameters and reports of the collection, delegation and
//! repository commands, as plain values.

use vstd::prelude::*;

verus! {

/// Which side of the target a new split opens on.
#[derive(Debug, Clone, Copy, PartialEq, Eq, Structural)]
pub enum SplitDirection {
    Right,
    Down,
}

// ---------------------------------------------------------------- answers

/// The code and message of a refused request.
#[derive(Debug, Clone, PartialEq, Eq)]
pub struct ErrorBody {
    pub code: String,
    pub message: String,
}

/// The answer to a refused request, carrying the request's identity.
#[derive(Debug, Clone, PartialEq, Eq)]
pub struct ErrorResponse {
    pub id: String,
    pub error: ErrorBody,
}

// ------------------------------------------------------------ delegations

#[derive(Debug, Clone, PartialEq, Eq, Default)]
pub struct DelegationCreateParams {
    pub pane_id: Option<String>,
    pub parent_id: Option<String>,
    pub purpose: Option<String>,
}

#[derive(Debug, Clone, PartialEq, Eq)]
pub struct DelegationTarget {
    pub delegation_id: String,
}

#[derive(Debug, Clone, PartialEq, Eq)]
pub struct DelegationReparentParams {
    pub delegation_id: String,
    pub parent_id: Option<String>,
}

/// Where a delegation moves among its siblings, by public identity.
#[derive(Debug, Clone, PartialEq, Eq)]
pub enum DelegationSiblingPosition {
    First,
    Last,
    Before { delegation_id: String },
    After { delegation_id: String },
}

#[derive(Debug, Clone, PartialEq, Eq)]
pub struct DelegationReorderParams {
    pub delegation_id: String,
    pub position: DelegationSiblingPosition,
}

// ------------------------------------------------------------ collections

#[derive(Debug, Clone, PartialEq, Eq, Default)]
pub struct CollectionListParams {
    pub workspace_id: Option<String>,
    pub tab_id: Option<String>,
}

#[derive(Debug, Clone, PartialEq, Eq)]
pub struct CollectionTarget {
    pub collection_id: String,
}

/// Parameters of a new collection. The split ratio is kept as the text of
/// a finite decimal number.
#[derive(Debug, Clone, PartialEq, Eq)]
pub struct CollectionCreateParams {
    pub target_pane_id: String,
    pub direction: SplitDirection,
    pub ratio: Option<String>,
    pub label: Option<String>,
    pub focus: bool,
}

/// Parameters of promoting a member out of its collection. The split ratio
/// is kept as the text of a finite decimal number.
#[derive(Debug, Clone, PartialEq, Eq)]
pub struct CollectionPromoteParams {
    pub pane_id: String,
    pub target_pane_id: String,
    pub direction: SplitDirection,
    pub ratio: Option<String>,
    pub focus: bool,
}

#[derive(Debug, Clone, PartialEq, Eq)]
pub struct CollectionAddParams {
    pub collection_id: String,
    pub pane_id: String,
}

#[derive(Debug, Clone, PartialEq, Eq)]
pub struct CollectionMoveParams {
    pub pane_id: String,
    pub collection_id: String,
}

#[derive(Debug, Clone, PartialEq, Eq)]
pub struct CollectionSelectParams {
    pub collection_id: String,
    pub pane_id: String,
    pub focus: bool,
}

#[derive(Debug, Clone, PartialEq, Eq)]
pub struct CollectionReorderParams {
    pub collection_id: String,
    pub pane_id: String,
    pub index: usize,
}

#[derive(Debug, Clone, PartialEq, Eq)]
pub struct CollectionMemberTarget {
    pub collection_id: String,
    pub pane_id: String,
}

/// What happens to the members of a closed collection.
#[derive(Debug, Clone, Copy, PartialEq, Eq, Structural)]
pub enum CollectionCloseDisposition {
    CascadeClose,
    PromoteMembers,
}

#[derive(Debug, Clone, PartialEq, Eq)]
pub struct CollectionCloseParams {
    pub collection_id: String,
    pub disposition: Option<CollectionCloseDisposition>,
    /// Legacy split-promotion target. Must be omitted: collection promotion
    /// now creates one standalone tab per member.
    pub target_pane_id: Option<String>,
    pub focus_promoted: bool,
}

/// Where a pane is placed: tiled, or a member of a collection.
#[derive(Debug, Clone, PartialEq, Eq)]
pub enum PanePlacementInfo {
    Tiled,
    Collection { collection_id: String, member_index: usize, archived: bool, selected: bool },
}

#[derive(Debug, Clone, PartialEq, Eq)]
pub struct CollectionMemberInfo {
    pub pane_id: String,
    pub index: usize,
    pub archived: bool,
    pub selected: bool,
}

#[derive(Debug, Clone, Copy, PartialEq, Eq, Structural)]
pub struct CollectionLifecycleSummary {
    pub active: usize,
    pub archived: usize,
    pub live: usize,
    pub working: usize,
    pub blocked: usize,
    pub exited: usize,
}

#[derive(Debug, Clone, PartialEq, Eq)]
pub struct CollectionInfo {
    pub collection_id: String,
    pub workspace_id: String,
    pub tab_id: String,
    pub label: Option<String>,
    pub focused: bool,
    pub selected_pane_id: Option<String>,
    pub members: Vec<CollectionMemberInfo>,
    pub lifecycle: CollectionLifecycleSummary,
    pub warnings: Vec<String>,
}

/// Parameters of a new collection member. The environment lists each
/// variable once, in the order it was first given; a repeated variable keeps
/// the last value given.
#[derive(Debug, Clone, PartialEq, Eq)]
pub struct CollectionCreateMemberParams {
    pub collection_id: String,
    pub cwd: Option<String>,
    pub env: Vec<(String, String)>,
    pub delegation_parent_id: Option<String>,
    pub purpose: Option<String>,
}

// ----------------------------------------------------------- repositories

/// The coarse state of the agents in a repository.
#[derive(Debug, Clone, Copy, PartialEq, Eq, Structural)]
pub enum AgentStatus {
    Idle,
    Working,
    Blocked,
    Done,
    Unknown,
}

/// Whether a checkout is the repository's primary worktree or a linked one.
#[derive(Debug, Clone, Copy, PartialEq, Eq, Structural)]
pub enum CheckoutKind {
    Primary,
    Linked,
}

#[derive(Debug, Clone, PartialEq, Eq)]
pub struct RepositoryTarget {
    pub repository_id: String,
}

#[derive(Debug, Clone, PartialEq, Eq)]
pub struct RepositoryRenameParams {
    pub repository_id: String,
    pub label: String,
}

#[derive(Debug, Clone, PartialEq, Eq)]
pub struct RepositoryMoveParams {
    pub repository_id: String,
    pub insert_index: usize,
}

#[derive(Debug, Clone, PartialEq, Eq)]
pub struct CheckoutMoveParams {
    pub workspace_id: String,
    /// Insertion coordinate in the repository's complete
    /// `checkout_workspace_ids` order (the pinned primary is index zero).
    /// Values targeting zero are clamped after the primary.
    pub insert_index: usize,
}

#[derive(Debug, Clone, PartialEq, Eq)]
pub struct CheckoutInfo {
    pub workspace_id: String,
    pub repository_id: String,
    pub checkout_path: String,
    pub kind: CheckoutKind,
}

#[derive(Debug, Clone, PartialEq, Eq)]
pub struct RepositoryInfo {
    pub repository_id: String,
    pub label: String,
    pub git_common_dir: String,
    pub checkout_workspace_ids: Vec<String>,
    pub last_focused_workspace_id: Option<String>,
    pub preferred_base: Option<String>,
    pub focused: bool,
    pub pane_count: usize,
    pub active_agent_count: usize,
    pub agent_status: AgentStatus,
    pub descendant_attention_count: usize,
}

} // verus!
