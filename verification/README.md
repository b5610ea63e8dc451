# kessel_parquet

A Parquet reader in verified Rust. It takes the bytes of a file and the names of the wanted columns
and gives rows of values, or one error that says what is wrong or out of reach. It needs nothing but
the standard library: the Thrift records, the encodings and the codecs (Snappy, LZ4, gzip,
Zstandard) are all decoded here.

```rust
let rows = kessel_parquet::extract(&bytes, &["id", "name"])?;
```

Every function states, over mathematical values, what it returns and on which bytes it fails, and
Verus proves it, and with it that no file makes the reader panic, overflow a number or run on without
end. No page above `DEFAULT_MAX_PAGE_SIZE` (or the cap given to `extract_with_cap`) is decompressed.
The depth of the call stack is outside what is proved. Values that are passed over and the schema's
tree are walked with a list of what is still open, so neither follows the nesting of the input;
planning a column of nested structs, and freeing a schema's tree, take a call for each level.

## Layout

- `src/extract.rs`: the way in. `footer`, `thrift`, `meta` and `schema` read the metadata, `classify`
  and `plan` say how a column is stored, `chunk`, `page` and `nested` read it, `assembly` puts lists,
  maps and structs together.
- `src/plain.rs`, `src/rle.rs`, `src/dict.rs`, `src/float.rs`: the encodings of values.
- `src/snappy.rs`, `src/lz4.rs`, `src/gzip.rs`, `src/zstd*.rs`: the codecs, joined in `src/codec.rs`.
- `src/json.rs`: values as JSON, with the text of floating-point numbers left open.
- `src/laws/`: what holds of the decoders together. `tables.rs` states that a flat table that was
  written is read back, `nested_files.rs`, `lists.rs` and `struct_columns.rs` the same of nested
  columns.
- `app/`: the same interface with `f64`, `Display` and `Error`.

A floating-point number is held as its bit pattern throughout `src/`.
