# `bevy_stats`

A dependency-graph attribute/stat system, verified with
[Verus](https://github.com/verus-lang/verus).

Define interconnected stats (strength, health, damage, resistances, ...) as
declarative relationships instead of hand-written update code. Change one value
and everything derived from it, on the same entity or across linked entities,
recomputes automatically, exactly once, in dependency order. Reads are cached;
writes touch only what actually depends on them.

## Layout

- `src/` is the library. Every function in it is proved to meet its contract,
  given what the wrappers in `table` say of `bevy_platform`'s hash map (and
  `text` of `String::push`).
  - `lexer`, `parser`, `names`, `parens`, `tree`, `expr`: the expression language
  - `tags`, `stats`, `modifier`: tag sets, stat containers, modifier bundles
  - `world`, `eval`, `graph`: all stats as one state, what a stat comes to, and
    what depends on what
  - `schedule`, `recompute`: carrying a change on to what depends on it
  - `state`, `access`, `effect`, `require`, `attach`, `sync`: the operations
  - `transfer`, `coherence`, `exact`, `laws`, `history`: what holds of them together
  - `table`, `text`, `scalar`: building blocks
- `app/` puts the library into a Bevy `App`: components, observers, system
  parameters, component synchronization, and `f32` arithmetic.
- `tests/` runs the library.

## Numbers and entities

A stat value is a single-precision number, held as its bit pattern. Comparing,
negating and selecting are done on the patterns and proved; rounding arithmetic
is asked of an `Arithmetic` implementation that the embedding program supplies,
and contracts say which operations were applied to what, in which order.
Entities are numbers that the embedding program assigns.

## Semantics worth knowing

- **Reductions**: `Sum` (default; empty gives 0), `Product` (each value `v`
  contributes a factor `1 + v`; empty gives 1), or one that the embedding
  program adds. Configure per exact name or per last dot-segment (`"more"`).
- **Tag matching**: a modifier participates in a query iff its tags are a
  **subset** of the query's tags. Untagged modifiers apply everywhere; a
  `fire|sword` modifier does *not* apply to a plain `fire` query.
- **Bases vs. modifiers**: `set()` writes a single replaceable, untagged base
  slot; modifiers accumulate and detach symmetrically via handles or
  `AppliedModifiers` receipts.
- **Expression edge cases**: division by (near-)zero yields 0; non-finite power
  results yield 0; `==`/`!=` compare within `1e-6`; missing stats evaluate to
  their reduction identity; a stat that is asked for while it is being
  evaluated reads as 0, and the `Arithmetic` is told.
- **Lifecycle**: taking an entity's stats out tears down all its dependency
  edges and recomputes downstream readers (dangling links read as missing
  stats).
