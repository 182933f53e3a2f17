# warp — pane layout and tab settings, verified

A library of the decision logic behind a terminal's split panes and tab settings, written
in Verus and proved against its contracts.

- `src/tree.rs`, `src/layout.rs`, `src/pane_data.rs`, `src/hidden.rs`, `src/direction.rs`:
  the pane split tree (split, remove, move, replace, directional lookup), hidden panes
  (moves, jobs, undoable closes, temporary replacements, child agents, collapsed rails),
  resizing across rails and evening out sizes.
- `src/render_plan.rs`: what a branch lays out — panes, rails and draggable dividers.
- `src/tab_settings.rs`, `src/color_labels.rs`, `src/directory_colors.rs`,
  `src/settings_group.rs`: tab colors, user labels for color slots, directory colors and
  where each setting is stored.
- `src/slash_commands.rs`, `src/about.rs`, `src/text.rs`: parsing of slash command
  arguments, the About page's version text, and the string helpers they use.
- `src/laws.rs`, `src/label_laws.rs`, `src/adjacency_laws.rs`, `src/slot_laws.rs`,
  `src/divider_laws.rs`: properties that span operations, how directional lookups and
  resizes sit in the tree (the branch and slot they act on), and that divider ids stay
  distinct, proved.
- `app/`: pixel geometry and float resizing, settings-file (de)serialization, canonical
  directory paths and the build environment.
- `tests/`: tests of the library on concrete values.
