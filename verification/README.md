# tchunk-pdf

Splits a PDF into smaller PDFs along structural boundaries, so that each stays under a token
budget. The planning, the reading of the outline, the cutting of a document, the checks on the
options and the text of warnings, reports and the index are verified with Verus.

## Layout

- `src/` is the library. All of it is verified.
  - `level`, `model`, `plan`, `laws`: where a split may fall, what a plan is, the planner, and what
    holds of every plan.
  - `document`, `access`, `outline`, `titles`, `subset`, `pdf`: what a document holds, how it is
    read, its outline as page boundaries, entries without a title, and the document that holds some
    of its pages.
  - `tokenize`: counting tokens.
  - `text`, `inspect`, `index`, `report`: what is printed and recorded.
  - `cli`: the options and the checks on them.
- `app/` is the program around it: arguments, files, threads, progress bars.
- `tests/` runs the library.

## What is taken on trust

`lopdf` reads, walks and prunes documents, `tiktoken-rs` encodes texts, `indexmap` keeps the inputs
in order, and the standard library classifies, quotes and decodes characters. Each call stands in a
small function of its own, in `document`, `outline`, `subset`, `tokenize` and `cli`, whose comment
names the outside function and says what is believed of it.

`lopdf` does not return, or panics, on an outline that leads back into itself or has a destination
that is cut short. `Pdf::check_outline` and `Pdf::check_entries` tell such an outline before it is
read. Text extraction has no such test: it stays in `app/`.
