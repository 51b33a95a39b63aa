# typed_fsm_diagram

Mermaid state diagrams for finite state machines that are written with the `state_machine!`
macro. The library is written in Verus: its functions are proved to meet their contracts.

- `text`, `labels`, `names`: strings, edge labels, and ordered sets and maps of names.
- `syntax`, `fence`: source text as a syntax tree, parsed by `ra_ap_syntax`, and which texts
  that parser takes.
- `macro_body`, `model`: the state machines that macro calls write down.
- `transitions`, `subfsm`, `nesting`, `reach`: what is found in a machine: transitions, and the
  machines that run inside it, at any depth.
- `diagram`, `output`: diagrams, and the files that they are written to.
- `source`, `workspace`, `config`: what stands in source files, parsed by `syn`, the machines
  of a source tree, and the settings of the tool.
- `input`, `parsed`, `visit`, `expand`, `expand_source`: what the procedural macro `generate_diagram!`
  expands to.
- `*_laws`: what holds of all of these together.

`app/` is the command line tool `fsm-gen`, with its settings and its files, the drawing of
diagrams with `mermaid_builder`, and the `quote` templates of the procedural macros. `tests/`
runs the library.
