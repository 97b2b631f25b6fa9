# capslock_indicator

Turns the keyboard's Caps Lock LED (or, on Mac laptops, the keyboard
backlight) into a status light for a coding agent: solid while it works,
blinking while it waits for you, off while it is idle.

The decisions of the tool are the verified library under `src/`:

- `led`: the targets (`capslock`, `backlight`) and their names, the choice of
  a light driver, and the small readings of the platform drivers (the Linux
  LED file, the Windows key state).
- `cli`: taking the target options out of the command line, and the commands
  and the light state each of them sets.
- `json`: a JSON document as plain values. `serde_json`'s values cannot be
  read by verified code, so the library holds a document in a type of its
  own: an object is its list of members, and its view is a map from keys to
  values (the first member with a key counts). A document that `serde_json`
  parses has sorted, unique keys, so nothing of it is lost.
- `json_text`: the settings file's text, parsed and written by `serde_json`
  behind two trusted wrappers whose results are named, and the verified
  steps around them. Before writing, shadowed members are dropped at every
  depth, so the text depends on the document's view alone.
- `hooks`: recognising, removing and installing the indicator's entries in
  the agent's hook settings. An entry is the indicator's when its command is
  a program, optionally a target option, then `on`, `off` or `blink` (the
  shape `install` writes), and the program's file name (in any directory) is
  the running program's own or holds `capslock` and no space. Proved for every program
  path with a file name: installing again gives what installing once gives,
  also after the program was moved or renamed from a name with `capslock`;
  uninstalling after installing gives the settings back (with an empty
  `hooks` object where there was none) when they held none of the
  indicator's entries; no entry that the indicator did not write is removed.
- `daemon`: the blink daemon's pid file (its name, and the pid written as
  decimal text that reads back as the same pid) and command line, which pid
  may be signalled, and the decisions of its blink loop (alternate the light; stop
  when the idle time drops).
- `text`: string helpers (`contains`, `ends_with`, `trim`, `u32` parsing)
  proved against their mathematical statement.

`app/` is the program around it: argument reading, files, processes, and the
platform drivers (IOKit, sysfs, user32).
