# ironpress (verified core)

The verified core of an HTML-to-PDF converter, written in Verus.

- `src/security/sanitizer.rs` — input limits (size, tag nesting depth), removal of
  dangerous elements, event-handler attributes and `javascript:`, repeated until the
  text no longer changes.
- `src/parser/dom.rs` — tags, elements and text nodes; tag names are case-insensitive.
- `src/parser/css.rs` — style values (lengths and numbers in hundredths, keywords,
  colors), style maps, and the parser of inline `style` attributes: declarations,
  lengths in `pt`, `px` and `em`, colors as `#hex`, `rgb()` or names, and the `margin`
  and `padding` shorthands.
- `src/style/` — the default style of each tag, and how keywords and colors resolve:
  inherited flags, then the tag's defaults, then the element's inline styles.
- `src/layout/engine.rs` — whitespace collapsing, base64 decoding (and its round trip
  with the standard encoding), image sources, table rows and column counts, list
  markers, style steps and inline runs with their resolved flags.
- `src/layout/plan.rs` — the block plan of a document: text blocks, numbered and
  nested list items, table rows with their cells, rules, line breaks, images and page
  breaks, each with the chain of elements its style comes from and its resolved flags.
- `src/text.rs` — character-level helpers; `src/error.rs`, `src/types.rs` — the error
  and color types.

Each public function states its result in its `ensures` clause; the properties that
span several calls (idempotence of collapsing and of sanitizing, what sanitized output
never holds, base64 decoding inverting encoding, list numbering, inline styles
overriding tag defaults, page-break styles starting a page, ...) are proof functions
next to the code they speak of.

`app/` holds what stays outside the verified library: the error type with its
`Display` impl, reading image files, and the page layout in points (sizes as
floating-point numbers, text wrapping and pagination) around the verified block plan.
