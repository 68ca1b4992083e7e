# pocket_kindle

The verified core of a PocketJS host for jailbroken Kindle e-readers, with
the host glue around it.

`src/` is checked by Verus:

- `text` — font atlas blobs (header, sorted cmap, coverage cells), glyph
  lookup, density-averaged coverage, and the registry of atlases with its
  budgeted least-recently-used cache of runtime-rasterized glyphs and the
  queue of missing glyphs for the host.
- `touch` — packed touch samples and the bottom-left exit-hold gesture.
- `inject` — the command file protocol that synthesizes taps and frame
  dumps, and PGM framing.
- `chars`, `json` — string helpers and the small JSON dialect spoken with
  the guest (escaping, flat header objects).
- `http` — the session cookie jar, redirect resolution, and the decisions of
  a request that follows redirects by hand.
- `remote_image` — pages: fetch checks, decoding and resampling through the
  image crate, the ink box that trims scan margins, and the letterbox that
  centres a page in the Gray8 panel.
- `manga` — the state of the guest's `manga` surface: underlay page, page
  cache, job table, progress stamp, config sandbox paths.
- `runtime_font`, `cli`, `probe` — runtime glyph requests, command-line
  options, and the byte-budgeted cache of the font memory probe.

`app/` holds what Verus does not see: threads, network (ureq), disk,
floating-point text metrics and fit scale, font rasterizing (ab_glyph),
logging and the environment.

`tests/` exercises the library from outside.
