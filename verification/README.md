# dtr_precompare

Normalises Datareon bus export files so that two exports can be compared.

For every JSON file under a directory:

- volatile fields (`FolderId`, `ClusterId`, `EntityId`, `Version`, `X`, `Y`,
  `Key`, `Id`) get canonical values;
- `SystemMetadataId` fields, the `RouteSystemDataTypes` list and the
  `HandlerId`s of `Config.HandlersList` refer to other exported objects by
  identifier; these identifiers are replaced by the objects' names, and a list
  in which a name was put is ordered.

Layout:

- `src/` is the library, verified with Verus:
  - `text.rs`: byte order of strings, slicing at byte offsets, splicing
    replacement texts into a string;
  - `ids.rs`: the identifier-to-name table and the naming rule for objects;
  - `slots.rs`: ordering a list by the identifiers its elements carry;
  - `pattern.rs`: regular expressions of the `regex` crate and the
    replacement of their matches;
  - `rules.rs`: the normalisation patterns and their compiled form;
  - `json.rs`: the library's model of a JSON document (parsed and printed by
    `serde_json`) and the renaming and ordering of its two lists of
    references;
  - `precompare.rs`: the normalisation of one file's text.
- `app/main.rs` is the command-line program: it walks the directory, reads
  and writes the files in parallel, and calls the library.
- `tests/` holds the tests.
