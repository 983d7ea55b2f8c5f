# wraith_dom

A small HTML toolkit whose behaviour is stated in contracts and proved with
Verus: an HTML parser producing a flat node arena, CSS selectors, form and
login-form detection, text, title and link extraction, and the decision logic
for Cloudflare "Under Attack Mode" challenge pages.

## Layout

- `src/chars.rs` — character sequences: whitespace, trimming, ASCII lowercase,
  searching, splitting into words.
- `src/parser.rs` — the document model (`Document`, `Node`, `NodeData`) and
  `parse`, specified step by step over the input (`step`, `build`,
  `parse_tree`).
- `src/selector.rs` — selector parsing and matching; `select` returns exactly
  the matching nodes, in document order.
- `src/forms.rs` — forms, their controls, and the login-form heuristics.
- `src/text.rs` — visible text, title and links.
- `src/cloudflare.rs` — challenge detection, script and form extraction, and a
  solver that hands out one JavaScript evaluation at a time (`JsCall`) and is
  resumed with its outcome.
- `app/` — the JavaScript engine attached: runs the evaluations the solver
  hands out with `js_lite` and gives callers the one-call API.
- `tests/` — examples and edge cases, run against the compiled library.

The public proof functions (`lemma_*`) state the library's laws: for example
that a comma-separated selector matches the union of its alternatives, that
the text of scripts and styles never reaches the visible text, that a solver
always makes progress, and that a clearance cookie is always for the host
that was accessed.
