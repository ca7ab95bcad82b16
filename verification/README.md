# sppl

Serve a static single-page application (a SvelteKit `adapter-static` build,
for instance) from a bundle of files embedded in the binary.

`src/` is a Verus-verified library:

- `accept` — parsing of the `Accept-Encoding` header value;
- `bundle` — the bundle of named files (a map from name to bytes);
- `resolve` — resolution of a request path: exact path, `<path>.html`,
  `<path>/index.html`, then the SPA fallback `index.html`, each tried in the
  given encodings (brotli, gzip, raw by default);
- `router` — encoding preferences, the reply to a request, and the router;
- `codec` — decoding of stored bytes and media-type guessing (`flate2`,
  `brotli`, `mime_guess`);
- `compress` — which files are pre-compressed, and the compressors;
- `encoding`, `paths` — content encodings, character helpers and the
  extension of a path (as `Path::extension` finds it on Unix).

`app/` holds the unverified glue: turning a `rust_embed` bundle into a
`Bundle`, the axum router around the verified handler, and the
directory walk that writes pre-compressed siblings at build time.
