# zed_mojom

Verified core of a Mojom language integration for an editor.

- `src/` is the library, verified with Verus:
  - `bytes`, `lines`: byte-level text handling of UTF-8 documents (Unicode
    whitespace trimming, line ranges, positions to offsets);
  - `docs`: the documentation comment (`//` runs or `/* */` blocks) above a
    declaration, as shown in hovers;
  - `syntax`, `hover`: the name ranges of a parsed Mojom file and the lookups
    by identifier (bare or qualified, such as `Interface.Method`) and by
    position;
  - `launch`: how the editor extension picks the language-server binary (user
    settings, search path, earlier installation, download) and the steps of
    installing a release, as a state machine that the host drives.
- `app/` is the editor extension and the hover handlers: the host calls, the
  protocol types and the file system work around the library.
- `tests/` exercise the library on concrete inputs.
