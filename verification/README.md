# html_table

The logic of an HTML `table` element, verified with Verus: where the table
finds and places its caption, `thead`, `tfoot` and `tbody` sections, which
nodes are its rows and in what order the rows collection lists them, how
`insertRow` and `deleteRow` change them, and what the `border`,
`cellpadding`, `cellspacing`, `bgcolor` and `width` attributes become.

- `src/node.rs`: the nodes of the table's subtree and the spec functions
  over them (the rows, grouped by section kind, and the first and last
  child that passes a test).
- `src/table.rs`: the table element, its live rows and bodies collections,
  and its operations.
- `src/attr.rs`: the attributes the table reacts to and how their values parse.
- `src/lemmas.rs`, `src/rows.rs`: the facts the proofs use about children
  and rows.
- `src/laws.rs`: what holds of the operations taken together.
- `app/`: conversions to and from the atoms and attribute values of the
  `html5ever` and `style` crates.
