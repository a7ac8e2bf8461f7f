# wltile

`wltile` positions and configures the outputs (displays) of wlroots based
compositors: it lists them, shows the layout, places one output against another
(`position`), sets a property of an output (`set`), and can run as a daemon
that re-applies a configuration file whenever outputs come and go.

## Layout

- `src/` is the library, written in Verus. Every function there carries a
  contract that Verus proves: the placement geometry (`point`, `position`,
  `layout`), output transforms (`transform`), the configuration model
  (`config`), mode selection and sorting (`heads`, `snapshot`), the plan of
  protocol requests (`writer`, `set_property`), the text of `list` and `show`
  (`report`, `decimal`), the protocol event handling (`events`), the daemon's
  decisions (`daemon`) and the rasterised position overlay (`render`).
  `laws` holds the properties that relate several of these functions.
- `tests/` runs the library on concrete inputs.
- `app/` is the program around it: command line parsing, reading the
  configuration file, the Wayland connection, signal handling and drawing.
  It hands plain values to the library and carries out what the library
  decides.
