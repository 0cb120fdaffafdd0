# zkitap

Converts Fernus Z-Kitap projector executables into PDF files.

- `src/` is the library, verified with Verus: the aPLib decompressor and
  the Enigma Virtual Box reader (`aplib`, `pe`, `records`, `enigma`), the
  scanner for embedded SWF files and ActionScript strings (`scanner`,
  `swf`), the Fernus ciphers (`kk`, `kry`, `crypto`, `publisher`), the
  `.frns` book format (`frns`), the v3 Flutter key derivation (`v3`), the
  decisions of the conversion pipeline (`pipeline`, `assets`, `payloads`) and the page
  helpers (`pdf`, `overlay`).
- `tests/` exercises the library on concrete inputs.
- `app/` is the command-line program around it: argument handling, Wine,
  the temporary-folder watcher, SWF rendering with Ruffle and PDF writing.
