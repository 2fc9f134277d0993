# geometer

Computational geometry on simple polygons with exact integer coordinates,
verified with Verus.

- `src/` is the library: orientation and intersection predicates, polygon
  construction and validation, vertex cleaning, ear-clipping triangulation,
  and seven convex hull algorithms (interior points, extreme edges, gift
  wrapping, QuickHull, Graham scan, incremental and divide and conquer).
  Coordinates are `i32` and all arithmetic is exact; products that need more
  than 128 bits are compared with a two-limb multiplication.
- `tests/` runs the library on concrete polygons.
- `app/` is a command line program around the library: it reads polygon
  files (JSON lists of coordinates, rounded to integers), prints hulls and
  triangulations, writes rotated copies of polygon files, edits metadata
  files and reads recorded algorithm steps back from logs. Floating point
  (rotation, rounding, real areas) stays there.

## What is proved

Each hull algorithm's contract pins its result down exactly: it states, as
a spec function, the steps the algorithm takes (which vertices it keeps,
in which order it walks them, which error it stops with), and Verus proves
that the code takes them. Beyond these step-by-step statements, the
following properties are proved:

- the interior points algorithm, when it succeeds, returns exactly the
  vertices that lie in no triangle of three other vertices (the extreme
  points);
- QuickHull collects every extreme point of a valid polygon
  (`extreme_points::lemma_quickhull_keeps_extreme_points`), and its hull has
  exactly the vertices it collects. It can collect more: a vertex on the
  segment between its two starting vertices, with no vertex strictly on that
  side, is kept (a test shows one);
- every edge that gift wrapping walks has every vertex on its left or on it
  (for vertices with distinct coordinates), and the final Graham scan stack
  turns left at every vertex;
- every hull uses only vertices of the input polygon;
- ear clipping, when it succeeds, produces `n - 2` triangles whose doubled
  areas add up to the polygon's doubled area;
- cleaning collinear vertices leaves no vertex collinear with its
  neighbours, keeps the remaining vertices in their boundary order, keeps
  the area (for vertices with distinct coordinates), and cleaning twice
  changes nothing more;
- angle sorting, stacks, bounding boxes and the area formulas have exact
  contracts.

That the other hull algorithms succeed on every valid polygon and return
the extreme points, and that ear clipping succeeds on every simple polygon,
are checked by the tests on concrete polygons but not proved.

The one call into an outside crate that the library makes is the regular
expression match that recognises a recorded step in a log line
(`alg_step::step_data`, through the `regex` crate).
