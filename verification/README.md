# gallery

A small web photo gallery. Pictures live under `content/`; every directory
gets a listing page, every picture a page of its own with links to its
neighbours, and thumbnails are made on demand.

- `src/` is the verified library (Verus):
  - `web_path` — request paths as lists of non-empty segments, read from and
    written back to `/`-separated text, with the laws that connect the two;
  - `page` — the picture view (with previous/next neighbours), the directory
    listing (sorting, information text, sub-directory thumbnails, breadcrumbs)
    and the search step for a directory's first picture;
  - `thumbnail` — the thumbnail endpoint as a state machine, with its answer
    stated directly from the outcomes it meets;
  - `media` — which file names are pictures, and the frame-extractor command line;
  - `api` — the JSON directory listing;
  - `assets` — content types of the static assets;
  - `markup` and `text` — Markdown rendering and character-sequence helpers.
- `app/` is the web server around it (actix-web, file system, image decoding,
  templates), which performs the I/O and asks the library for every decision.
- `tests/` runs the library on concrete values.
