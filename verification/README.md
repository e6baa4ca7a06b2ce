# bridges

A verified library that turns OpenStreetMap bridge ways into Minecraft block
placements, written in Verus.

- `blocks`: the block kinds bridges are built from.
- `text`: string comparison and decimal `i32` parsing.
- `geometry`: exact rounding of side offsets along a direction, in integers.
- `line`: Bresenham lines in the ground plane.
- `world`: an in-memory world editor (area, ground levels, blocks) and plans
  of block writes.
- `osm`: tags, nodes and ways.
- `way`: the segments of a way and their blocks.
- `bridges`: bridge configuration from tags, deck level, deck, pillars,
  railings, and the standalone bridge generator.
- `structures`: arches, trusses, suspension cables, cable stays, abutments.
- `laws`: properties proved of the library as a whole.

Every function states what it writes as a plan (a sequence of block writes)
given as a specification function; the world editor carries out a plan write
by write, a write taking effect on an empty position inside the area.
