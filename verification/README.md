# tesseract_ocr

Page-image layout primitives for an OCR pipeline, written in Verus: every
function in `src/` carries a `requires` / `ensures` contract that Verus
proves, and the laws the primitives obey are stated as proof functions.

## Layout

- `src/` — the verified library:
  - `grid` — row-major pixel-grid conventions and index lemmas;
  - `stats` — integer histogram (`Stats`) with mode and bucket queries;
  - `binreduce` — 2× rank reduction and power-of-two replication;
  - `morph` — brick dilation, erosion, opening and closing;
  - `seedfill` — binary seed filling (morphological reconstruction);
  - `conncomp` — connected components with bounding boxes and pixel counts
    (Heckbert scanline fill), proved to list exactly the components of the ink;
  - `morphapp` — selection of components by bounding-box size;
  - `deskew` — quarter-turn rotation and the per-row ink profile;
  - `binarize` — mirrored borders, summed-area table, window guard,
    threshold application;
  - `image_input` — binary PGM (P5) parsing and the integer bilinear
    sample used by grey rescaling;
  - `line_segment` — text-line bands from a row ink profile;
  - `grid_raster`, `seq_util` — column-raster detection for table-like pages,
    with the law that a detected lattice is regular;
  - `page_furniture`, `text` — running headers, footers and page numbers;
  - `renderer` — hOCR escaping, page-box conversion and blank-row runs;
  - `network` — model-file vocabulary and the little-endian field reader;
  - `blob_filter` — component box corners.
- `tests/` — tests of the library on concrete inputs.
- `app/` — the floating-point stages around the library (local-threshold
  binarization, grey scaling, rotation by an angle, blob filtering, drop-cap
  detection, shear rectification, paragraph-gap detection, histogram mean /
  deviation / percentiles).

## Not included

These parts of the pipeline are not in this crate, in `src/` or in `app/`,
because the code they are built on is not part of it:

- the LSTM recogniser (model loading, the network-tree reader and its
  forward pass, line recognition, row cropping, whole-document recognition
  and its options): it rests on the separate recogniser-core crates and on
  floating-point weights;
- the text, TSV and hOCR renderers that turn recognised words into output:
  they read the recogniser's word results and character set;
- page segmentation (halftone, text-line and text-block masks, region
  extraction, table decision, border stripping) and component-wise
  morphology sequences: they are built on the morphology-sequence
  interpreter, the border-safe closing and the replicating expansion, which
  this crate does not have;
- text-line finding on a grey page, page segmentation into rows, and
  automatic shear rectification: they need the grey-level thresholding and
  the row segmenter, which this crate does not have. The band logic of
  text-line finding is here (`line_segment::bands_from_profile`), and so are
  the ramp fit and rectification it drives (`app/`).
