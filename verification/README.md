# raytracer

The verified core of a small path tracer, written in Verus.

`src/` is the library. Every function in it carries a contract that Verus
proves, except the two calls into `rand` in `src/rng.rs`, whose contracts
(any value; a value in the requested range) are trusted. The lemmas state the
laws the geometry obeys.

- `vec3`: integer vectors and their exact arithmetic.
- `aabb`: axis-aligned boxes, the surrounding box of two boxes, and the hull
  of a list of boxes, with the laws of both (enclosure, least enclosure,
  commutativity, associativity, idempotence, independence of order).
- `primitive`: an object as the hierarchy sees it (an index and a box), and a
  stable in-place range sort by the box's low corner on one axis.
- `bvh`: the hierarchy built over a range of a list, splitting at the middle of
  the range after sorting along a random axis (or along given axes).
- `bvh_tree`: the hierarchy that splits a list into halves; a single object
  stands for itself (random or given axes).
- `hittable`: object lists and the bounding box of a list; axis-aligned
  rectangles and the six-faced box built from two corners.
- `perlin`: random permutations (Fisher-Yates, with `permute_with` exact for
  given draws) and the lattice hashing of gradient noise.
- `material`: reflection of a direction off a surface normal (integer
  vectors), with its laws.
- `texture`: the single-colour texture and pixel clamping of image textures.
- `render`: how the image rows are shared among render jobs.

Box coordinates are integers that only get compared. The renderer in `app/`
computes geometry in floating point and maps each float to an integer with the
same order (`app/vec3.rs`, `key` and `from_key`). Both zeros map to the key of
`0.0`, as they compare equal, so the library's minimum, maximum and stable
sorting agree with the float ones, except that a minimum or maximum of zero
comes back as `0.0` even where a float comparison would keep `-0.0`, and a
NaN coordinate is refused (the renderer panics). Ray intersection, shading,
sampling and image output stay in `app/`.

The reflection in `material` is the integer form of the renderer's float
reflection; its laws hold for all integer vectors, and the unit normals among
integer vectors are the six axis directions. The renderer itself reflects in
floating point and does not call it.
