# alladin-pcb

The verified core of a two-layer PCB editor, written in Verus.

`src/` is the library. A board (`board_doc`) holds an outline, a world of
copper items (`item`), placed parts, nets, zones and silkscreen. Every
operation states when it succeeds, what it changes and what it leaves alone,
and keeps the board in order:

- `nets`, `wires`, `vias`, `zones`, `silk`, `parts`, `placement`, `own_pose`,
  `batch`, `pins`, `matrix`: the operations of the editor and the rules they are held to;
- `footprint`, `world`, `dfm`: the parts library, a part at a pose, and the
  fabrication rules;
- `bom`, `kicad_export`, `kicad_import`, `external_router`: the bill of
  materials, and the way to other tools and back;
- `dxf_text`, `dxf_outline`, `dxf_contour`, `dxf_ring`: board outlines from
  drawings;
- `decimal`, `area`, `wide`: numbers as they are written, the area of a
  contour, and whole numbers of any size;
- `lcsc`, `easyeda`, `json`: parts from the component service;
- `cli`, `mcp`, `mcp_placement`: what the headless commands and the tool server
  decide and say;
- `soundness`: tests for a board that comes from outside;
- `geom`, `text`: lengths, points and distances, and text.

Lengths are whole nanometres. What needs floating point (turning a shape,
measuring how far two shapes are apart) is done by the caller, who hands the
results to the library: a `...Probe` says what was measured, a `...Plan` says
what is to be measured. Rotations are carried as bit patterns.

Laws that relate several operations are the public proof functions whose names
begin with `law_`.

`app/` is the program around the library: commands, the tool server, files,
downloads, the external autorouter, and the floating-point geometry. `tests/`
runs the library on concrete boards.
