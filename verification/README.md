# lignin-native-windows-gui

Shows a [lignin](https://crates.io/crates/lignin) virtual DOM with
`native-windows-gui` controls. The logic is a Verus library under `src/`:

- `vdom`: the virtual DOM as plain values, with its view.
- `controls`: the controls a tree renders to, and the specification of
  rendering (`text_of`, `plan_of`) with a depth limit.
- `render`: `insert_node`, `insert_html_element`, `collect_text`.
- `diff`: `diff_splice_node`, `diff_splice_node_list`, and the proofs that a
  successful diff leaves the controls a fresh render of the new tree would give,
  where the old controls were a render of the old tree and memoized nodes that
  share a state key carry the same content; a failed `diff_splice_node` leaves
  the controls as they were.
- `support`: tells ahead of time whether rendering or diffing a tree is supported.
- `ui`: `LigninUi`, the virtual DOM last shown and its controls.
- `rc_hash_map`, `count`, `key_order`: an ordered map with reference counts.
- `temp_set`: a set of event bindings lent out empty.

`app/` renders with the user's closure, converts lignin nodes into the
library's values and creates the native widgets that the control tree describes.
