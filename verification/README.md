# thrust_build

The build-time core of a dependency-injection code generator for Axum
back ends, verified with Verus.

- `src/models.rs`: the scanned metadata (components, beans, layers, routes,
  trait implementations) and their abstract views.
- `src/scanner.rs`: what the attributes of a source file's items declare,
  and the scan of one source file.
- `src/syntax.rs`: `syn`'s parse of a source file, read into the plain
  item types the scanner works on.
- `src/resolve.rs`: trait-typed dependencies resolved to their implementor,
  the dependency adjacency, route parameter resolution.
- `src/validate.rs`: unresolved dependencies and invalid routes.
- `src/graph.rs`: the adjacency type, cycle detection by depth-first search,
  and the topological order (Kahn's algorithm), each specified exactly, with
  their laws.
- `src/codegen.rs`: the plans of the generated container, graph and router.
- `src/pipeline.rs`: the checks in order and the generation plan.
- `src/utils.rs`, `src/messages.rs`, `src/markers.rs`: names, module paths
  and their check (identifiers by `unicode-ident`),
  error texts, and the `#[service]` field rewrite.
- `src/services.rs`: the sample services.
- `app/`: file walking, rendering with `quote`, the attribute
  markers, and the sample handlers.
