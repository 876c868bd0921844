# gausify_server

A local server for a Gausify splat library: a drop-in replacement for an nginx
static host that serves the library's files, answers directory requests with
nginx-style JSON listings, and listens on HTTP and HTTPS with a self-signed
certificate.

- `src/` is the library, verified with Verus: settings resolution, request
  path resolution, directory listings, request dispatch and counters, the
  startup banner, announced addresses, and the certificate request and cache
  decision. Certificate generation itself is `rcgen`'s, reached through a
  trusted wrapper whose contract is believed, not proved.
- `app/` is the program around it: command line and config file reading,
  network interface discovery, the `axum` router, file serving, and the
  certificate files on disk.
- `tests/` exercises the library on concrete values.
