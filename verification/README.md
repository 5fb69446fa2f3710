# mr

A reader for GNU Info manuals: it parses a non-split Info file and lays its nodes out as
text for a terminal, with styles, filled and justified paragraphs, and menu and index
references that show the line where their node begins.

The library under `src/` is verified with Verus:

- `info/parse.rs`: the grammar of Info files, as spec functions over characters and parsers
  proved to follow them;
- `info/render.rs`: what each part of a manual renders to, as spec functions, the renderers
  proved to write exactly that, and the laws of the layout (greedy line filling, words kept,
  stretched lines filling the width, where each node begins);
- `info/search.rs`: where a manual is looked for, and the entries of a `dir` menu;
- `config.rs`, `pager.rs`: the settings and the pager's command line;
- `text.rs`, `parser_util.rs`, `control.rs`: characters, white space and scanning helpers.

`app/` is the command-line program around it: arguments, the settings file, reading the
manual, the terminal size and the pager process.
