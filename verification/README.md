# jpp

A verified library for JPP: Java sources with two kinds of extension
islands, `prop` properties and `mapper` methods, turned into plain Java.

A line opens a property when its text, after spaces and tabs, is `prop`
followed by a space or tab, and a mapper when it is `mapper` followed by a
space or tab, unless the rest of the line is a Java use of the word as a
variable, type or method (`prop = 1;`, `prop x;`, `prop += 2;`,
`mapper (a);`, `mapper a, b;`). So Java that uses a variable named `prop` or
`mapper` stays valid, and a malformed declaration such as `prop String x;` is
still reported.

- `src/text.rs`: character classes, trimming, words, lines, joining.
- `src/scan.rs`: island starts, header ends, matching braces, mapper
  statements, set blocks, body edges, the class name.
- `src/parser.rs`: `parse_source`, with its specification `parsed`.
- `src/nullsafe.rs`: the `?.` / `?:` rewrite, with its specification
  `null_safe_rewrite`.
- `src/generator.rs`: `generate_java`, with its specification `generated`.
- `src/diagnostics.rs`, `src/model.rs`, `src/paths.rs`: locations,
  diagnostics, the parsed model, file paths.
- `src/cli.rs`: command-line forms.
- `src/laws.rs`: properties of parsing and generation as a whole.
- `app/main.rs`: the `jpp` command (file system access).
