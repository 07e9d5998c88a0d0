# luaux-graft

A graft for the Instar host that compiles, formats and lints LuauX sources
(JSX-style markup inside Luau). The host sends one JSON request on standard
input; the graft answers on standard output.

- `src/` is the library, verified with Verus:
  - `protocol`, `json`: the values exchanged with the host, and their models.
  - `text`, `markup`, `source`: UTF-8 byte facts, the markup tree, and parsing
    a source into markup regions, hole positions and top-level statements.
  - `formatter`, `settings`: the layout document of a source and the options
    that shape it.
  - `tiling`: how the parts of a formatted document cover the source, in
    order, from its first byte to its end.
  - `compiler`: line mappings from the compiler's output back to the source,
    and diagnostic messages.
  - `linter`: findings from the markup trees and from the compiler, in order.
  - `graft`: answering a request by its hook.
  - `outside`: the calls into `luaux`, `vermis`, `toml` and `std` that the
    library trusts, each with the contract it is trusted for.
- `app/main.rs` reads the request, converts it, and writes the answer.
- `tests/` runs the library against the real `luaux` and `vermis`.

Two behaviours worth knowing:

- Compile mappings cover only the lines of the output that are kept verbatim
  from the source; lines the compiler rewrote are left unmapped, so the
  mappings need not run contiguously to the end of the output.
- A format or lint request whose source does not parse is answered without
  reading its configuration: the source kept whole, or no findings. A compile
  request on such a source fails.
