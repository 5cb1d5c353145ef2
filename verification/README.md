# printandcut

Turns an SVG drawing with a cut layer (a group whose `id` is `Cut-Layer`) into a print-and-cut job:
an FCM file for the cutting machine, and the drawing to print, in which registration marks stand in
the place of the cut layer.

`src/` is the verified library.

- `text`, `words`, `tags`: searching and slicing text by byte positions, splitting it into words,
  telling where a tag begins and ends.
- `cut_layer`, `joined`: finding the cut layer, extracting its path data, replacing it, and what text
  before or behind a drawing changes of that.
- `page`, `ratio`: reading the view box and choosing the page by its proportions. Ratios are doubles,
  given by their bits and compared exactly with integers.
- `geometry`, `single`: the box around a drawing, its centre as single precision gives it, and moving
  the drawing there.
- `fcm`, `fcm_types`: the FCM file and its bytes, with the types of `fcmlib`.
- `contents`, `job`: what a file holds as plain values, what a job's file holds, and which inputs lead
  to the same file.
- `convert`, `drawing`: a conversion on a given page, with its first and last step, and the whole
  conversion of a drawing on the page that its view box asks for.

What is trusted: the bytes that `fcmlib` makes of a file, and the values of two of its flag words.

`app/` holds the WebAssembly entry points, the path parser and the registration marks of `fcmlib`, and
what needs floating point. `tests/` runs the library with the real `fcmlib`.
