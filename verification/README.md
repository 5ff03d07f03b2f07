# emmet_expand

Expands compact tag abbreviations into indented markup, for instance

    div.box>p*2+a:href={url}

becomes a `div` with class `box` holding two `p` elements and an `a` element.
`>` goes down to the children, `+` adds a sibling, `(...)` groups, `*n` repeats,
`.x` adds classes, `:x=y` adds props and `<text` adds the inner text; a text that
ends with `/` is a single tag.

Layout:

- `src/text.rs`: character-sequence helpers (search, counting, decimal numbers, and the byte
  offsets of the UTF-8 encoding).
- `src/checker.rs`: the balanced-parentheses check made before expanding.
- `src/statement/`: splitting an abbreviation into statements (`mod.rs`), elements
  (`element.rs`), attributes (`attribute.rs`) and snippets (`snippets.rs`), with the
  specification of the markup each one renders to.
- `src/lib.rs`: `expand`, the entry point.
- `app/lib.rs`: the Node binding.

Every function in `src/` is verified against its specification with Verus, except
`text::push_char`, a trusted wrapper of std's `String::push`.

Positions: a few searches count characters and then slice at that count as a byte offset
(the `)` closing a group, the `.` starting the class list, the `:` between props), while the
other bounds are byte offsets.  For ASCII text the two agree; for other text the
specification states the mixed reading exactly (`byte_offset`, `char_pos` and
`is_boundary` in `text.rs`), and an abbreviation whose slice would fall inside a character
has no expansion (`expand_is_defined` says so).
