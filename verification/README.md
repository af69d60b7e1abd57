# scenery

The verified core of a small scene / asset toolkit, written in Verus.

`src/` is the library; every function in it carries a contract that Verus proves:

- `store`: generational handle store (insert, get, remove, slot reuse, draining, moving
  one store into another).
- `wire`: little-endian words, chunk framing and the chunk walker shared by the blob
  formats.
- `skin_file`, `hierarchy`: the `SKIN` blob (inverse binds, names, parents, local
  transforms), the parent-list acyclicity check, and the mapping between a skin's joint
  handles and its parent table.
- `mesh_file`, `mesh_proofs`, `weld`: the `MESH` blob and what a written blob reads back
  as; vertices sharing a quantized position.
- `texgen`, `graph`, `fingerprint`, `eval_plan`, `bind_plan`, `gpu_params`, `regions`:
  the procedural texture graph: node kinds and parameter codes, links, upstream sets,
  evaluation order, parameter fingerprints, which nodes a GPU pass runs and which
  textures each samples, the integer side of the GPU parameter block, and the region
  labelling behind the flood-fill node.
- `texg_file`, `texg_proofs`: the `TEXG` graph payload and its round trip.
- `texture`, `material`, `material_file`, `mat_proofs`: textures, material texture maps
  (single and UDIM), and the `MAT ` recipe blob with its round trip.
- `hair_layout`, `hair_rng`: card order, joint budgets and fill pairs of hair guides,
  per-strand random streams.
- `settings`, `skinning`, `debug_view`, `hud`, `hud_font`, `gltf_load`: settings enums,
  widget ids and which widget holds the mouse, the bitmap HUD font atlas, and the
  file-independent parts of glTF import.

Public proof functions named `law_*` state properties that hold across calls (round
trips, skipped unknown chunks, handle stability, ...).

`app/` is ordinary Rust around the library: meshes and skins with `f32` data (via
`glam`), materials with `f32` parameters, skin joints as scene nodes, tangent
generation, and the floating-point steps of the texture graph.

`tests/` exercises the library from outside.
