# mdx_rs

Parsing, lookup and asset resolution for MDict dictionaries (`.mdx` keyword
dictionaries and `.mdd` resource archives), verified with Verus.

## Layout

- `src/` — the library, every function with a contract that Verus proves:
  - `binary`, `mdict`, `codec`: big-endian readers, UTF-8/UTF-16 text, header
    attributes, the MDict file layout (key blocks, record blocks) and block
    decoding (stored, zlib through `flate2`, LZO through `lzokay`, Adler-32 checks);
  - `dictionary`: metadata, keyword entries, exact and comparable lookups,
    `@@LINK=` redirects and record resolution;
  - `range_tree`: record block ranges and offset queries;
  - `index`, `store`: comparable keys, fuzzy scoring, in-memory exact, prefix
    and fuzzy indexes;
  - `asset`: asset references, lookup candidates, resource extraction,
    `@@@LINK=` redirects, memory and dictionary sources, the resolver;
  - `version`: the engine version read as a float literal (signs, exponents,
    `inf`, `nan`) and compared with 2 exactly as single precision rounds it,
    with integers only;
  - `library`: dictionaries by id with their companion archives;
  - `text`, `sorting`, `keyed`, `hit`: the specifications and facts the others share.
- `app/` — file-system access: opening dictionaries from disk, reading assets
  from a directory, loading a library's registered files, and an error type
  with `Display`.
- `tests/` — scenarios on concrete values.

## Contracts in brief

Results are stated over mathematical views (`Seq`, `Map`, spec functions):
each parser says exactly which bytes it accepts and what it builds; the stores
say what a read gives back after a write; the fuzzy search is proved to answer
best hits first; normalized asset paths are proved to stay under their root;
the resolver's answer is the fold of its sources' answers, in order,
following redirects.

## Behaviour worth knowing

- `DictionaryLibrary::open` answers only for dictionaries already loaded.
  Reading the files of a registered dictionary is I/O, which the library
  leaves to its caller: `open_from_disk` in `app/` reads them in order,
  parses them through the library and hands the result to `install`, which
  wires the asset resolver (the files beside the MDX file, then each MDD
  archive in order).
- An asset read follows redirects until it meets a reference it has already
  followed. `MAX_ASSET_REDIRECTS` bounds the chain at `usize::MAX` steps so
  that a read provably ends; memory runs out long before a chain that never
  repeats could reach it.

