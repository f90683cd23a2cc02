# githooks

A git hook manager. Hooks and their shell actions are defined in
`~/.githooks.json`; the program installs itself as the repository's hooks,
runs the selected actions when git calls a hook, and shows a screen on which
the actions are selected. Built-in actions reflow commit messages, add Gerrit
Change-Ids, stop commits that include submodules, check Chromium Java sources
for `@NullMarked`, and format Android resource files.

## Layout

- `src/` is the library, verified with Verus: the hook and action model, the
  decisions each action makes (which commands to run, which files to touch),
  the commit message tooling, the XML parsing and formatting, the configuration store and
  the selection screen's model. Each public function states what it returns
  in its contract; the `law_*` proof functions state properties that span
  several calls.
- `app/` is the program around it: reading the configuration file and the
  repository, running commands, rewriting files and drawing the screen.
- `tests/` runs the library on concrete values.
