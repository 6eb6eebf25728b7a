# dp_simplify

Topology-aware simplification of GeoPackage layers: Douglas-Peucker simplification and bend
reduction, with checks that lines keep their simplicity, do not cross each other and keep
their sidedness.

- `src/` is the verified library (Verus). It holds the feature model and its split into
  lines and back, the vertex edits of a line together with the segment-index edits that keep
  an index in step, the store of indexed segments, bend detection, bend flagging, alternate
  bends, pre-filtering of small polygons and holes, the work list of a Douglas-Peucker line and
  its branch choices, the order in which the bends of a line are tried, the choices made per
  line and per bend, the counting of passes, and the ordering
  of the output.
  Coordinates are carried as binary64 bit patterns and compared as binary64 numbers.
- `app/` is the command line program around it: GeoPackage I/O (GDAL), GEOS predicates,
  the R-tree, and every computation on floating-point values (distances, angles, areas,
  tolerances, smoothing), which drives the library's functions.
- `tests/` exercises the library on concrete values.
