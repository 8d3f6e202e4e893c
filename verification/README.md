# annealer

Reorders the attributes of HTML and Vue template start tags by semantic
meaning, following a profile of attribute groups, and delegates stylesheet
property order to [`malva`](https://crates.io/crates/malva).

The library in `src/` is written in Verus and verified:

- `attribute` — classification keys (`:class` and `class` share one) and
  name normalization (`v-bind:` → `:`, `v-on:` → `@`, camelCase props of
  components → kebab-case), with its laws (the shorthand keeps the key,
  normalizing twice changes nothing but in one stated case).
- `profile` — profiles: groups of exact and `prefix*` patterns in priority
  order, validation of a profile's plain definition, the built-in `html` and
  `vue` profiles, and classification (most specific pattern wins).
- `order` — the attribute order of one start tag: spreads (`v-bind="obj"`)
  are boundaries, groups decide inside a segment, same-name clusters stay
  together. Its laws (spread boundary, group priority, cluster order,
  stability) are proof functions there.
- `markup` — the lexer-level scanner: start tags are tokenized and
  rewritten, everything else is copied through; Vue single-file components
  are scanned block by block.
- `stylesheet` — the calls into `malva`, behind a few trusted wrappers, and
  the re-indentation of `<style>` contents.
- `error`, `text` — error positions and character helpers.

`app/` is the `anyl` command-line tool: argument parsing, file I/O, reading
profiles from YAML, and error messages.
