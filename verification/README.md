# task_tree

Time tracking on the tasks of a Markdown file. Headings are groups, list
items are tasks (optionally checked), and inline code spans after a task's
text are the sessions spent on it, such as `25/08/22_14-15` or
`25/08/22-25|weekly_%2`.

The library under `src/` is verified with Verus:

- `syntax`, `task`, `group`, `tasktree`: reading the Markdown tree into
  groups and tasks, writing them back, and the tree operations (insert,
  union, pluck, prune, archive completed tasks, record a session).
- `session` (`range`, `repeat`, `timestamp`): reading and writing sessions,
  their time within a span, calendar export values.
- `tree`, `taskpath`: paths into the tree, depth-first walks.
- `chart`, `print_color`, `active`, `context`: the chart's tree of minutes,
  terminal boxes, the running session, settings.
- `time`, `text`, `ranged`: dates and zones, text helpers, editor ranges.
- `properties`: laws over the tree operations (what they keep and what
  they leave behind).

Calls into `chrono`, `chrono-tz`, `rrule`, `markdown`, `console` and
`colored` go through small trusted wrappers whose contracts are stated in
their doc comments.

`app/` is the `tt` command and language server: files, the clock, the
network, the terminal and the editor protocol.
