# yata

The layout engine of a terminal browser, verified with Verus.

A document, its computed styles and a width in cells become a tree of
positioned boxes; the tree becomes rows of styled text, answers where a click
landed, and lists the links that can be seen. Every step is a function of its
inputs: each executable function's contract says what it returns, in terms of
spec functions over sequences and integers.

- `dom`, `style`, `image`, `term`: the inputs and what a cell can look like
- `cells`, `dimensions`, `clip`: arithmetic on cells, boxes and visible regions
- `boxes`, `engine`: the tree, and how it grows
- `boxmodel`, `intrinsic`, `context`: sizes of one box, and of its content
- `inline`, `linebox`, `breaker`: text on lines
- `blocks`, `flex`, `flexbox`, `grid`, `columns`, `table`, `borders`: formatting
  contexts
- `page`, `document`, `lines`: a whole page, and its rows
- `field`, `painted`: form controls
- `hit`: clicks, links and focus
- `msg`, `net`, `batch`, `headless`: messages, what they ask of the event loop,
  and runs without a screen
- `column_laws`, `depth`, `flex_laws`, `frame_laws`, `line_laws`, `page_laws`,
  `plot_laws`, `reverse_laws`, `row_laws`, `run_laws`: laws that span several of these
- `text`, `order`, `sums`, `views`: shared pieces

Lengths and flex factors are thousandths, so no step rounds twice. How wide a
character is comes from `unicode-width`.

`app/` is the terminal program around the library.
