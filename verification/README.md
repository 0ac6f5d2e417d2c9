# breviewer

A terminal program for writing a batch of reviews: a grid of reviews, each
with a status (bound to a key) and a message, plus a few free-text fields.
When the user quits, it prints a report (how many reviews have each status,
every review, every field), copies it to the clipboard and saves it to a log.

The library in `src/` holds the program's logic, verified with Verus:

- `geometry`: areas given in percent of the terminal, and how each widget's
  neighbours in the four directions are found from them.
- `review`: the reviews grid: adding, deleting, moving through and editing
  reviews, and which cells are drawn where.
- `ui`, `tree`, `builder`: the widgets, the hover and selection state machine
  driven by the keyboard, and building a layout.
- `config`, `report`: the configuration, the key bindings and the report.
- `keys`, `style`, `text`, `textbox`: keys, colours, decimal numbers, and the
  text inputs (whose editing is done by the `ratatui-textarea` crate).

`app/main.rs` is the program around it: reading the configuration file and
the keyboard, drawing with `ratatui`, the clipboard and the log file.
