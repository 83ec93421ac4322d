# regexr_server

Backend of a private RegExr deployment: the `regex/solve` API (PCRE2 with
PHP-compatible semantics) and the static frontend.

- `src/` — the verified library (Verus). Request routing and form decoding
  (`http::api`), stub answers (`actions::stubs`), static-asset headers and the
  init script (`http::static_assets`), and the solve logic: flag parsing and
  compile errors, PCRE2 option bits, status codes and JIT choice
  (`solve::pcre2`), the global match scan, the step-by-step solver, replacement
  expansion, replace/list tools with their output budget, UTF-16 offset
  reporting and error objects (`solve::*`).
- `app/` — the binary: axum server, security headers, embedded assets, JSON
  (de)serialisation, and the PCRE2 FFI that performs the engine calls the
  library asks for.
- `tests/` — tests of the library.
