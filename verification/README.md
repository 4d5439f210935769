# hn_decypher

Decrypts the "dec" file format of the video game Hacknet without the password,
and finds in-game files in the game's XML save files. The library is written in
Verus. Its functions carry contracts that Verus proves, except three small
wrappers that are trusted rather than proved: `chars_to_string` and
`char_from_u32` (calls into the standard library) and `parse_xml` (the call into
`roxmltree` that parses a save file).

## Layout

- `src/text.rs` – characters: Unicode whitespace, splitting on a separator,
  whitespace-separated items, trimming.
- `src/int_parse.rs` – reading a decimal `i32` (sign, digits, range).
- `src/decrypt.rs` – decrypting one field under a passcode; the game's
  encryption as a specification, and the proof that decryption undoes it.
- `src/headers.rs` – the header line: finding the passcode by search, and the
  proof that a header the game wrote reads back.
- `src/lib.rs` – a whole file (header line and body line).
- `src/output.rs` – what the command line shows and writes for a file.
- `src/save_read.rs`, `src/save_read/document.rs`,
  `src/save_read/save_file.rs` – choosing a profile's save file, the parsed XML
  document (parsed by `roxmltree`), and finding a computer and a file on it,
  with the laws of path handling.
- `app/` – the command-line program: arguments, reading and writing files.
- `tests/` – tests on concrete values.
