# subsink

A terminal tool that picks a raw anime video, finds its Japanese subtitles on
Jimaku.cc, downloads them and aligns their timings to the video (with alass, or by
a manual offset).

## Layout

- `src/` — the verified library (Verus). Every function there has a contract that
  Verus proves, except seven small trusted wrappers (`#[verifier::external_body]`)
  around calls into `std`, `regex`, `fuzzy-matcher` and `html-escape`, whose
  contracts are believed, not proved; each says in its doc comment what it claims:
  - `parser` — title and episode number read from a release file name;
  - `natural`, `scanner` — natural ordering, which files are videos, how they are
    shown, merging the scanned trees without duplicates;
  - `provider`, `site` — the Jimaku index and entry pages, fuzzy search over the
    index, choosing the files of an episode, cache and download names;
  - `cli` — command-line arguments and resolving the picked search entry;
  - `offset`, `shift`, `syncer` — manual offsets, shifting SRT/ASS timings, reading
    alass's output and the order in which the aligners are tried;
  - `text`, `paths` — characters, trimming, searching, decimal numbers, path pieces.
  Laws that span functions are public `law_*` proof functions beside the code they
  speak of.
- `tests/` — tests of the library on concrete values.
- `app/` — the program: prompts, terminal output, HTTP, files, the alass process.
  It hands what it reads to the library and acts on what the library decides.
