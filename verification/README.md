# herdr

The verified core of a terminal workspace manager, written in Verus.

`src/` is the library. Every function of it is verified, except the few trusted
wrappers that call outside code (text display width, lossy UTF-8 decoding, regular
expressions, JSON parsing and writing), whose contracts state what those calls do:

- `ids`, `text`: pane, collection and delegation identities, their text forms and allocators.
- `forest`, `delegation`, `projection`, `tombstones`, `repair`, `traversal`: the delegation
  provenance forest — creation, reparenting, reordering, tombstones and their collection,
  repair of saved records, preorder, descendants and local projections, with their laws.
- `event_hub`, `event_poll`, `observation`: the bounded lifecycle event history, its gap
  reporting, polling event subscriptions, and
  stamping replies with a reserved sequence.
- `layout`, `tiles`, `tile_layout`, `collection_view`, `member_order`, `collection_advice`:
  pane collections, the tiling tree of a tab, directional navigation, collection geometry
  queries, member display order and lifecycle advice.
- `worktree_group`: which workspaces close together with a worktree group.
- `member_navigation`, `member_reorder`, `collection_mouse`, `collection_close`, `close_dialog`:
  moving the selection and the members of a collection, planning a move to a displayed
  index, mouse hit-testing, how a close proceeds and its confirmation dialog.
- `cli`: the grammars of the `collection`, `delegation` and `repository` commands.
- `choices`, `choices_provider`, `plugin_output`, `command_log`: plugin action choices,
  provider runs, and the plugin command limit and log.
- `output_match`, `status_watch`: the decisions of pane output and agent status subscriptions.
- `schema`, `responses`, `delegation_api`, `repository_text`: request parameters, error
  answers and human-readable reports.

`app/` holds what stays outside verification: command plumbing, plugin process output,
thread-shared event history, wire encodings, and the floating-point layout geometry.
`tests/` exercises the library.
