# Apex

Apex is a local architecture workbench: it scans a source repository with
lightweight language recognizers, builds a property graph of files, types and
their relations, checks architecture rules, computes metrics and renders
diagrams (SVG, Mermaid, HTML, JSON).

The library in `src/` is verified with Verus; every public function states
what it computes over mathematical models (sequences, sets and maps of
character sequences):

- `model`, `keymap`, `graph`, `ops`: the graph, its sorted id maps and the
  updates that build it (`graph_view`, `apply_all`).
- `strs`, `text`, `recognize`, `spans`, `imports`, `parsers`, `line_parsers`,
  `manifest`: the recognizers of fifteen languages and of package manifests,
  each stated as the list of graph updates it makes of a file.
- `scan`: which files a scan takes, which recognizer each goes to, and the
  graph of a whole repository (`scan_view`).
- `rules`, `rules_file`: rule checking and the `apex.rules.yaml` reader.
- `metrics`, `metrics_json`, `metrics_text`: degrees, layers, components,
  cycles (a depth-first search stated as `found_cycles`), hotspots and their
  JSON and text reports.
- `layout`, `diagram`, `svg`, `render`, `api`: layouts and renderings.
- `web`, `http`, `server`, `cli`, `report`: the decisions of the command line
  and of the two local HTTP servers.
- `laws`: properties of the library as a whole, proved.

`app/` holds the program around it: the command line, file system and
environment access, the sockets of the servers and the embedded UI.
