# fluxdi

The verified core of a dependency injection container, written in Verus.

- `src/` is the library. It holds the error model, the dependency graph
  model with its rendering (DOT, Mermaid) and validation (missing
  dependencies, cycles), the registration rules and the merging of an
  injector chain's registrations, the planning of eager resolution
  (dependency maps, transitive closure, topological waves, scoped plans),
  cache placement by scope, and the run-time guard against circular
  resolution. Every function carries a contract that Verus proves; the files
  whose names end in `_laws` prove properties that span several functions.
- `app/` is the container around it: providers with their factories,
  instance caches along the injector chain, dynamic providers, and the async
  driver of eager resolution, which asks the library for every decision.
- `tests/` runs the library on concrete cases.
