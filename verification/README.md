# scanner_processor

Turns pairs of A3 scans into one four-page A4 PDF per student, named after the
application number read from page 1.

- `src/` — the verified library (Verus): file name rules (`utils`), text
  helpers (`text`), images and the A3 split (`image`), the adaptive threshold
  (`threshold`), OCR preprocessing and number extraction (`ocr`), page order and
  output naming (`processor`), the processed-pairs record file (`records`), and
  the pairing of scans at startup and while watching (`pairing`).
- `app/` — the program around it: configuration file, PDF rendering, the OCR
  engine, PDF assembly, the directory watcher and its threads.
- `tests/` — tests of the library.
