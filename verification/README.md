# facet_diff

Inspection and comparison of reflected values.

A value is held in its reflected form, `node::Node`: its type (a name and
whether values of the type can be compared) and its content (a scalar, a list,
map entries, struct or enum fields, an opaque value, or an unsupported one).

- `src/path.rs`: `FacetPath`, the dotted path to a sub-object (`$.field.0.key`),
  with splitting at dots and decimal indices.
- `src/node.rs`: the reflected form, its abstract view, equality and copying.
- `src/inspect.rs`: the depth-first inspection (`FacetIterator`,
  `FacetInspect::inspect` / `get`), specified by `walk` and `inspection`, and
  the laws of the walk.
- `src/path_map.rs`: `PathMap`, a map keyed by paths.
- `src/diff.rs`: `Diff` (side-by-side comparison of two values of one type),
  `ShapeDiff` (path-by-path comparison of any two values), and their laws.
- `app/lib.rs`: reading a `facet` value through `facet_reflect::Peek` into the
  reflected form, and entry points that take `facet` values.
