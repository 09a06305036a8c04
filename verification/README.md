# graphql_core

Selection handling for GraphQL documents, verified with Verus.

- `validation`: whether the fields of a selection set can be merged. `fields` expands fragments and
  groups fields by response name, `pairs` pairs the fields of each group, `shape` compares what
  fields look like in a response, `arguments` compares what they are given, `merge` puts these
  together, and `selection` validates a selection set as a whole. `merged` states what holds of
  fields that merge, `settled` when the comparisons come to an end.
- `execution`: the response of an object to a selection set. `collect` finds the fields that apply
  and groups them by response key, `engine` executes them and propagates nulls, and `error` reports
  what went wrong and where.
- `mutation`: adds a field to an object type of a document.
- `ast`, `schema`, `database`, `diagnostics`, `names`: the data that these work on. `grouping` and
  `lookup` hold the mathematics of grouping by key and of searching.

What the library calls without proof stands in `execution/groups.rs` (an insertion-ordered map); the
error of `mutation` is passed on unread. The rules for single selections, the resolvers, the coercion
of values and the source of random definitions are traits: nothing is presumed of what their
implementations return.
