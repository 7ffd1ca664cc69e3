# riddle

The device side of a handwriting diary for a reMarkable Paper Pro: a child
draws, a server answers with "paper cards" (stamps, sketches, counts, trace
templates, short text, whole-page layouts), and the diary writes them onto
the page in animated pen strokes.

`src/` is the verified library:

- `layout` — the coarse ink-coverage grid of the page and the placement
  search that finds room for new content without touching existing ink.
- `cards` — the `/turn` card model, its field parsers and the clamps every
  card goes through, plus the rules for a whole turn (at most three cards,
  a page card alone).
- `cardrender` — turning one card into placed, animated stroke plans.
- `script` — skeleton thinning and stroke tracing of rasterized text, and
  the tokens text wraps at.
- `touch` — the multitouch gesture recognizer, including the held
  five-finger exit.
- `diary` — the page image sent upstream (as PNG bytes), erase checks, and
  the layout of Tom's reply and of a summoned memory.
- `session` — the diary's main loop as decisions: what each pen sample,
  each pass of the clock and each answer from the servers does to the
  page's phase (listening, thinking, writing, drawing cards, the guide, a
  memory), and the effects the loop must carry out.
- `geom`, `surface` — page geometry and the page's pixels.

`app/` holds what needs the font, floating-point geometry, the network or
the devices: rasterizing text, stamp and shape outlines, the JSON layer of
`/turn`, the touch device, and a small command-line front end.
