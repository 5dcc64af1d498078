# netopo

A terminal tool that discovers the local network (interfaces, LAN hosts,
TCP/UDP connections) and shows it as ASCII art, Graphviz dot, JSON or an
interactive view. The logic is a library verified with Verus; the program
around it is ordinary Rust.

## Layout

- `src/` — the verified library. Every function states what it returns in
  `ensures`, over spec functions on `Seq`, `Option` and plain integers.
  - `text`, `order`, `layout`: characters, decimal and hexadecimal numbers,
    splitting, ordering of texts, display widths, padding and truncation.
  - `cli`, `scanner`: the options, port lists, CIDR host enumeration (through
    `ipnet`), interface and route parsing.
  - `connection_tracker`: `netstat` and `/proc/net/*` parsing and filtering.
  - `data_manager`, `graph_builder`, `index`: the graph, merging duplicate
    connections, placeholder nodes, filtering by connection count, and the
    `petgraph` index.
  - `labels`, `ascii`, `visualization`: LAN detection, provider labels, the
    ASCII overview (with the MaxMind ASN lookup) and the dot text.
  - `tui`: the interactive view's state and what every key does.
  - Public `law_*` proof functions state properties that relate several
    calls (merging twice, filtering twice, key sequences in the view, …).
- `app/` — `main`, command-line parsing with clap, JSON with serde, system
  commands, sockets, DNS and the ratatui drawing loop.
- `tests/` — tests run against the compiled library.
