# MDF backend

MDF turns PDFs into readable web pages. This crate is its backend: an HTTP
server that receives a PDF and answers, page by page, the semantic blocks of
its content (headings, paragraphs, list items, tables, images, diagrams).

## Layout

- `src/` — the library, verified with Verus. It holds the decisions taken
  on what the PDF engine and the page geometry report:
  - `text`: trimming, UTF-8 lengths, substring search, ordered-list markers;
  - `lines`: fragments and lines, style majority, bullets, the folding of
    per-glyph fragments into word runs;
  - `blocks`: line classification, the merging of lines into blocks, and
    heading levels;
  - `table`: cell texts and table rows of a ruled grid;
  - `diagram`: grouping nearby vector paths into diagram candidates;
  - `imaging`: size limits, cropping, JPEG and Base64 `data:` URIs;
  - `pages`: sharing pages among worker processes and reassembling them;
  - `parser`: the first-generation reconstruction, kept for comparison;
  - `api`: statuses and messages of the HTTP answers.
- `app/` — the program around it: the Axum server, PDFium access, the
  worker processes, and the floating-point page geometry that produces the
  facts the library decides on.
- `tests/` — tests of the library on concrete values.
