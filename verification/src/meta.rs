//! Parquet metadata: file metadata, schema, row groups, column chunks and page headers.
use vstd::prelude::*;

use crate::error::{bad, outcome, PqError, PqErrorView};
use crate::schema::{
    build_tree, collect_leaves, element_views, flat, is_flat, leaf_views, leaves_of, tree_of,
    SchemaElement, SchemaElementView,
};
use crate::text::{read_text, text_of, texts};
use crate::thrift::{
    binary_at, ctype, field_at, field_binary_at, i32_at, i64_at, ivarint_at, list_header_at,
    reads, reads_view, skip_at, Field, Parsed, StructReader, TResult,
};

pub use crate::schema::{
    LogicalType, Repetition, SchemaLeaf, SchemaLeafView, SchemaNode, SchemaNodeView, SchemaTree,
    Type,
};

verus! {

/// How the bytes of a page are compressed.
#[derive(Clone, Copy, Debug, PartialEq, Eq, Structural)]
pub enum Codec {
    Uncompressed,
    Snappy,
    Gzip,
    Brotli,
    Zstd,
    Lz4Raw,
    Other(i32),
}

impl Codec {
    /// The codec with the given number.
    pub open spec fn of(v: i32) -> Codec {
        if v == 0 {
            Codec::Uncompressed
        } else if v == 1 {
            Codec::Snappy
        } else if v == 2 {
            Codec::Gzip
        } else if v == 4 {
            Codec::Brotli
        } else if v == 6 {
            Codec::Zstd
        } else if v == 7 {
            Codec::Lz4Raw
        } else {
            Codec::Other(v)
        }
    }

    /// The codec with the given number.
    pub fn from_i32(v: i32) -> (r: Codec)
        ensures
            r == Codec::of(v),
    {
        match v {
            0 => Codec::Uncompressed,
            1 => Codec::Snappy,
            2 => Codec::Gzip,
            4 => Codec::Brotli,
            6 => Codec::Zstd,
            7 => Codec::Lz4Raw,
            o => Codec::Other(o),
        }
    }
}

/// How the values of a page are coded.
#[derive(Clone, Copy, Debug, PartialEq, Eq, Structural)]
pub enum Encoding {
    Plain,
    /// Runs and bit-packed groups; in a column's list it describes the levels.
    Rle,
    /// Dictionary indices, under the older tag.
    PlainDictionary,
    /// Dictionary indices, under the current tag.
    RleDictionary,
    Other(i32),
}

impl Encoding {
    /// The encoding with the given number.
    pub open spec fn of(v: i32) -> Encoding {
        if v == 0 {
            Encoding::Plain
        } else if v == 2 {
            Encoding::PlainDictionary
        } else if v == 3 {
            Encoding::Rle
        } else if v == 8 {
            Encoding::RleDictionary
        } else {
            Encoding::Other(v)
        }
    }

    /// The encoding with the given number.
    pub fn from_i32(v: i32) -> (r: Encoding)
        ensures
            r == Encoding::of(v),
    {
        match v {
            0 => Encoding::Plain,
            2 => Encoding::PlainDictionary,
            3 => Encoding::Rle,
            8 => Encoding::RleDictionary,
            o => Encoding::Other(o),
        }
    }
}

/// One column's data within a row group.
#[derive(Clone, Debug)]
pub struct ColumnChunk {
    pub path: Vec<String>,
    pub ptype: Type,
    pub codec: Codec,
    pub encodings: Vec<Encoding>,
    pub num_values: i64,
    pub data_page_offset: i64,
    pub dictionary_page_offset: Option<i64>,
}

/// What a [`ColumnChunk`] says.
pub struct ColumnChunkView {
    pub path: Seq<Seq<char>>,
    pub ptype: Type,
    pub codec: Codec,
    pub encodings: Seq<Encoding>,
    pub num_values: i64,
    pub data_page_offset: i64,
    pub dictionary_page_offset: Option<i64>,
}

impl View for ColumnChunk {
    type V = ColumnChunkView;

    open spec fn view(&self) -> ColumnChunkView {
        ColumnChunkView {
            path: texts(self.path@),
            ptype: self.ptype,
            codec: self.codec,
            encodings: self.encodings@,
            num_values: self.num_values,
            data_page_offset: self.data_page_offset,
            dictionary_page_offset: self.dictionary_page_offset,
        }
    }
}

/// A horizontal slice of the table: one chunk for each leaf column.
#[derive(Clone, Debug)]
pub struct RowGroup {
    pub columns: Vec<ColumnChunk>,
    pub num_rows: i64,
}

/// What a [`RowGroup`] says.
pub struct RowGroupView {
    pub columns: Seq<ColumnChunkView>,
    pub num_rows: i64,
}

/// What a list of column chunks says.
pub open spec fn chunks(s: Seq<ColumnChunk>) -> Seq<ColumnChunkView> {
    s.map_values(|c: ColumnChunk| c@)
}

impl View for RowGroup {
    type V = RowGroupView;

    open spec fn view(&self) -> RowGroupView {
        RowGroupView { columns: chunks(self.columns@), num_rows: self.num_rows }
    }
}

/// What a list of row groups says.
pub open spec fn groups(s: Seq<RowGroup>) -> Seq<RowGroupView> {
    s.map_values(|g: RowGroup| g@)
}

/// The metadata of a file.
#[derive(Clone, Debug)]
pub struct FileMetaData {
    pub version: i32,
    pub num_rows: i64,
    /// The leaf columns in schema order.
    pub leaves: Vec<SchemaLeaf>,
    /// The schema as a tree.
    pub schema_tree: SchemaTree,
    /// Whether every column is a leaf right below the root.
    pub flat_schema: bool,
    pub row_groups: Vec<RowGroup>,
}

/// What a [`FileMetaData`] says.
pub struct FileMetaDataView {
    pub version: i32,
    pub num_rows: i64,
    pub leaves: Seq<SchemaLeafView>,
    pub root: SchemaNodeView,
    pub flat_schema: bool,
    pub row_groups: Seq<RowGroupView>,
}

impl View for FileMetaData {
    type V = FileMetaDataView;

    open spec fn view(&self) -> FileMetaDataView {
        FileMetaDataView {
            version: self.version,
            num_rows: self.num_rows,
            leaves: leaf_views(self.leaves@),
            root: self.schema_tree.root@,
            flat_schema: self.flat_schema,
            row_groups: groups(self.row_groups@),
        }
    }
}

/// The scale and precision of a decimal type whose next field stands at position `p`.
pub open spec fn decimal_fields_at(b: Seq<u8>, p: int, last: i16, acc: (i32, i32)) -> Parsed<
    (i32, i32),
>
    decreases b.len() - p,
{
    match field_at(b, p, last) {
        Err(x) => Err(x),
        Ok((None, e)) => Ok((acc, e)),
        Ok((Some(f), e)) => match decimal_field_at(b, e, f, acc) {
            Err(x) => Err(x),
            Ok((acc2, e2)) => if e <= e2 <= b.len() {
                decimal_fields_at(b, e2, f.id, acc2)
            } else {
                Ok((acc2, e2))
            },
        },
    }
}

/// One field of a decimal type: 1 is the scale, 2 the precision.
pub open spec fn decimal_field_at(b: Seq<u8>, p: int, f: Field, acc: (i32, i32)) -> Parsed<
    (i32, i32),
> {
    if f.id == 1 {
        match i32_at(b, p, f.ctype) {
            Ok((v, e)) => Ok(((v, acc.1), e)),
            Err(x) => Err(x),
        }
    } else if f.id == 2 {
        match i32_at(b, p, f.ctype) {
            Ok((v, e)) => Ok(((acc.0, v), e)),
            Err(x) => Err(x),
        }
    } else {
        match skip_at(b, p, f.ctype) {
            Ok(e) => Ok((acc, e)),
            Err(x) => Err(x),
        }
    }
}

/// What a logical type says of lists and maps, and of decimals.
pub type Logical = (Option<LogicalType>, Option<(i32, i32)>);

/// The logical type whose next field stands at position `p`.
pub open spec fn logical_fields_at(b: Seq<u8>, p: int, last: i16, acc: Logical) -> Parsed<Logical>
    decreases b.len() - p,
{
    match field_at(b, p, last) {
        Err(x) => Err(x),
        Ok((None, e)) => Ok((acc, e)),
        Ok((Some(f), e)) => match logical_field_at(b, e, f, acc) {
            Err(x) => Err(x),
            Ok((acc2, e2)) => if e <= e2 <= b.len() {
                logical_fields_at(b, e2, f.id, acc2)
            } else {
                Ok((acc2, e2))
            },
        },
    }
}

/// One alternative of a logical type: 2 is a map, 3 a list, 5 a decimal.
pub open spec fn logical_field_at(b: Seq<u8>, p: int, f: Field, acc: Logical) -> Parsed<Logical> {
    if f.id == 5 {
        if f.ctype != ctype::STRUCT {
            Err(PqErrorView::Bad("LogicalType.DECIMAL: expected struct"@))
        } else {
            match decimal_fields_at(b, p, 0, (0, 0)) {
                Ok((d, e)) => Ok(((acc.0, Some(d)), e)),
                Err(x) => Err(x),
            }
        }
    } else {
        match skip_at(b, p, f.ctype) {
            Ok(e) => Ok(
                (
                    (
                        if f.id == 2 {
                            Some(LogicalType::MapKv)
                        } else if f.id == 3 {
                            Some(LogicalType::List)
                        } else {
                            acc.0
                        },
                        acc.1,
                    ),
                    e,
                ),
            ),
            Err(x) => Err(x),
        }
    }
}

/// An element before any of its fields.
pub open spec fn blank_element() -> SchemaElementView {
    SchemaElementView {
        name: Seq::empty(),
        ptype: None,
        repetition: Repetition::Required,
        num_children: 0,
        type_length: None,
        converted_type: None,
        scale: None,
        precision: None,
        logical_group: None,
        logical_decimal: None,
    }
}

/// The element at its end: where both its converted type and its logical type are decimals, they
/// must agree on scale and precision.
pub open spec fn element_end(acc: SchemaElementView, e: int) -> Parsed<SchemaElementView> {
    match acc.logical_decimal {
        Some((scale, precision)) => if acc.converted_type == Some(5i32) && !(scale
            == or_zero(acc.scale) && precision == or_zero(acc.precision)) {
            Err(PqErrorView::Bad("DECIMAL converted_type vs LogicalType disagree"@))
        } else {
            Ok((acc, e))
        },
        None => Ok((acc, e)),
    }
}

/// A number that counts as zero where it is absent.
pub open spec fn or_zero(n: Option<i32>) -> i32 {
    match n {
        Some(v) => v,
        None => 0,
    }
}

/// The schema element whose next field stands at position `p`.
#[verifier::opaque]
pub open spec fn element_fields_at(
    b: Seq<u8>,
    p: int,
    last: i16,
    acc: SchemaElementView,
) -> Parsed<SchemaElementView>
    decreases b.len() - p,
{
    match field_at(b, p, last) {
        Err(x) => Err(x),
        Ok((None, e)) => element_end(acc, e),
        Ok((Some(f), e)) => match element_field_at(b, e, f, acc) {
            Err(x) => Err(x),
            Ok((acc2, e2)) => if e <= e2 <= b.len() {
                element_fields_at(b, e2, f.id, acc2)
            } else {
                Ok((acc2, e2))
            },
        },
    }
}

/// One field of a schema element: 1 type, 2 type length, 3 repetition, 4 name, 5 number of
/// children, 6 converted type, 7 scale, 8 precision, 10 logical type.
pub open spec fn element_field_at(
    b: Seq<u8>,
    p: int,
    f: Field,
    acc: SchemaElementView,
) -> Parsed<SchemaElementView> {
    if f.id == 4 {
        match field_binary_at(b, p, f.ctype) {
            Ok((v, e)) => Ok((SchemaElementView { name: text_of(v), ..acc }, e)),
            Err(x) => Err(x),
        }
    } else if f.id == 10 {
        if f.ctype != ctype::STRUCT {
            Err(PqErrorView::Bad("SchemaElement.logicalType: expected struct"@))
        } else {
            match logical_fields_at(b, p, 0, (acc.logical_group, acc.logical_decimal)) {
                Ok((l, e)) => Ok(
                    (SchemaElementView { logical_group: l.0, logical_decimal: l.1, ..acc }, e),
                ),
                Err(x) => Err(x),
            }
        }
    } else if f.id == 1 || f.id == 2 || f.id == 3 || f.id == 5 || f.id == 6 || f.id == 7 || f.id
        == 8 {
        match i32_at(b, p, f.ctype) {
            Ok((v, e)) => Ok(
                (
                    if f.id == 1 {
                        SchemaElementView { ptype: Some(Type::of(v)), ..acc }
                    } else if f.id == 2 {
                        SchemaElementView { type_length: Some(v), ..acc }
                    } else if f.id == 3 {
                        SchemaElementView { repetition: Repetition::of(v), ..acc }
                    } else if f.id == 5 {
                        SchemaElementView { num_children: v, ..acc }
                    } else if f.id == 6 {
                        SchemaElementView { converted_type: Some(v), ..acc }
                    } else if f.id == 7 {
                        SchemaElementView { scale: Some(v), ..acc }
                    } else {
                        SchemaElementView { precision: Some(v), ..acc }
                    },
                    e,
                ),
            ),
            Err(x) => Err(x),
        }
    } else {
        match skip_at(b, p, f.ctype) {
            Ok(e) => Ok((acc, e)),
            Err(x) => Err(x),
        }
    }
}

/// `count` schema elements from position `p` on.
pub open spec fn elements_at(b: Seq<u8>, p: int, count: nat) -> Parsed<Seq<SchemaElementView>>
    decreases count,
{
    if count == 0 {
        Ok((Seq::empty(), p))
    } else {
        match elements_at(b, p, (count - 1) as nat) {
            Err(x) => Err(x),
            Ok((s, e)) => match element_fields_at(b, e, 0, blank_element()) {
                Err(x) => Err(x),
                Ok((v, e2)) => Ok((s.push(v), e2)),
            },
        }
    }
}

/// `count` encodings from position `p` on, in a list of elements of type `et`.
pub open spec fn encodings_at(b: Seq<u8>, p: int, et: u8, count: nat) -> Parsed<Seq<Encoding>>
    decreases count,
{
    if count == 0 {
        Ok((Seq::empty(), p))
    } else {
        match encodings_at(b, p, et, (count - 1) as nat) {
            Err(x) => Err(x),
            Ok((s, e)) => if et != ctype::I32 && et != ctype::I8 && et != ctype::I16 {
                Err(PqErrorView::Bad("encodings list type"@))
            } else {
                match ivarint_at(b, e) {
                    Err(x) => Err(x),
                    Ok((v, e2)) => if i32::MIN <= v <= i32::MAX {
                        Ok((s.push(Encoding::of(v as i32)), e2))
                    } else {
                        Err(PqErrorView::Bad("encoding range"@))
                    },
                }
            },
        }
    }
}

/// `count` path segments from position `p` on.
pub open spec fn segments_at(b: Seq<u8>, p: int, count: nat) -> Parsed<Seq<Seq<char>>>
    decreases count,
{
    if count == 0 {
        Ok((Seq::empty(), p))
    } else {
        match segments_at(b, p, (count - 1) as nat) {
            Err(x) => Err(x),
            Ok((s, e)) => match binary_at(b, e, "path len"@) {
                Err(x) => Err(x),
                Ok((v, e2)) => Ok((s.push(text_of(v)), e2)),
            },
        }
    }
}

/// A column chunk before any of its fields.
pub open spec fn blank_chunk() -> ColumnChunkView {
    ColumnChunkView {
        path: Seq::empty(),
        ptype: Type::Other((-1int) as i32),
        codec: Codec::Uncompressed,
        encodings: Seq::empty(),
        num_values: 0,
        data_page_offset: 0,
        dictionary_page_offset: None,
    }
}

/// The column metadata whose next field stands at position `p`.
#[verifier::opaque]
pub open spec fn column_fields_at(
    b: Seq<u8>,
    p: int,
    last: i16,
    acc: ColumnChunkView,
) -> Parsed<ColumnChunkView>
    decreases b.len() - p,
{
    match field_at(b, p, last) {
        Err(x) => Err(x),
        Ok((None, e)) => Ok((acc, e)),
        Ok((Some(f), e)) => match column_field_at(b, e, f, acc) {
            Err(x) => Err(x),
            Ok((acc2, e2)) => if e <= e2 <= b.len() {
                column_fields_at(b, e2, f.id, acc2)
            } else {
                Ok((acc2, e2))
            },
        },
    }
}

/// One field of column metadata: 1 type, 2 encodings, 3 path, 4 codec, 5 number of values, 9
/// offset of the first data page, 11 offset of the dictionary page. Encodings and path segments
/// add to those of an earlier field of the same id.
pub open spec fn column_field_at(
    b: Seq<u8>,
    p: int,
    f: Field,
    acc: ColumnChunkView,
) -> Parsed<ColumnChunkView> {
    if f.id == 1 || f.id == 4 {
        match i32_at(b, p, f.ctype) {
            Ok((v, e)) => Ok(
                (
                    if f.id == 1 {
                        ColumnChunkView { ptype: Type::of(v), ..acc }
                    } else {
                        ColumnChunkView { codec: Codec::of(v), ..acc }
                    },
                    e,
                ),
            ),
            Err(x) => Err(x),
        }
    } else if f.id == 2 {
        match list_header_at(b, p) {
            Err(x) => Err(x),
            Ok((h, e)) => match encodings_at(b, e, h.0, h.1 as nat) {
                Err(x) => Err(x),
                Ok((s, e2)) => Ok((ColumnChunkView { encodings: acc.encodings + s, ..acc }, e2)),
            },
        }
    } else if f.id == 3 {
        match list_header_at(b, p) {
            Err(x) => Err(x),
            Ok((h, e)) => if h.0 != ctype::BINARY {
                Err(PqErrorView::Bad("path list type"@))
            } else {
                match segments_at(b, e, h.1 as nat) {
                    Err(x) => Err(x),
                    Ok((s, e2)) => Ok((ColumnChunkView { path: acc.path + s, ..acc }, e2)),
                }
            },
        }
    } else if f.id == 5 || f.id == 9 || f.id == 11 {
        match i64_at(b, p, f.ctype) {
            Ok((v, e)) => Ok(
                (
                    if f.id == 5 {
                        ColumnChunkView { num_values: v, ..acc }
                    } else if f.id == 9 {
                        ColumnChunkView { data_page_offset: v, ..acc }
                    } else {
                        ColumnChunkView { dictionary_page_offset: Some(v), ..acc }
                    },
                    e,
                ),
            ),
            Err(x) => Err(x),
        }
    } else {
        match skip_at(b, p, f.ctype) {
            Ok(e) => Ok((acc, e)),
            Err(x) => Err(x),
        }
    }
}

/// The column chunk whose next field stands at position `p`; `acc` is what its metadata, field 3,
/// has said so far.
#[verifier::opaque]
pub open spec fn chunk_fields_at(
    b: Seq<u8>,
    p: int,
    last: i16,
    acc: Option<ColumnChunkView>,
) -> Parsed<ColumnChunkView>
    decreases b.len() - p,
{
    match field_at(b, p, last) {
        Err(x) => Err(x),
        Ok((None, e)) => match acc {
            Some(c) => Ok((c, e)),
            None => Err(PqErrorView::Bad("ColumnChunk missing meta_data"@)),
        },
        Ok((Some(f), e)) => if f.id == 3 {
            if f.ctype != ctype::STRUCT {
                Err(PqErrorView::Bad("ColumnChunk.meta_data: expected struct"@))
            } else {
                match column_fields_at(b, e, 0, blank_chunk()) {
                    Err(x) => Err(x),
                    Ok((c, e2)) => if e <= e2 <= b.len() {
                        chunk_fields_at(b, e2, f.id, Some(c))
                    } else {
                        Ok((c, e2))
                    },
                }
            }
        } else {
            match skip_at(b, e, f.ctype) {
                Err(x) => Err(x),
                Ok(e2) => if e <= e2 <= b.len() {
                    chunk_fields_at(b, e2, f.id, acc)
                } else {
                    Err(PqErrorView::Bad("ColumnChunk missing meta_data"@))
                },
            }
        },
    }
}

/// `count` column chunks from position `p` on.
pub open spec fn chunks_at(b: Seq<u8>, p: int, count: nat) -> Parsed<Seq<ColumnChunkView>>
    decreases count,
{
    if count == 0 {
        Ok((Seq::empty(), p))
    } else {
        match chunks_at(b, p, (count - 1) as nat) {
            Err(x) => Err(x),
            Ok((s, e)) => match chunk_fields_at(b, e, 0, None) {
                Err(x) => Err(x),
                Ok((v, e2)) => Ok((s.push(v), e2)),
            },
        }
    }
}

/// The row group whose next field stands at position `p`.
#[verifier::opaque]
pub open spec fn group_fields_at(b: Seq<u8>, p: int, last: i16, acc: RowGroupView) -> Parsed<
    RowGroupView,
>
    decreases b.len() - p,
{
    match field_at(b, p, last) {
        Err(x) => Err(x),
        Ok((None, e)) => Ok((acc, e)),
        Ok((Some(f), e)) => match group_field_at(b, e, f, acc) {
            Err(x) => Err(x),
            Ok((acc2, e2)) => if e <= e2 <= b.len() {
                group_fields_at(b, e2, f.id, acc2)
            } else {
                Ok((acc2, e2))
            },
        },
    }
}

/// One field of a row group: 1 the column chunks, 3 the number of rows.
pub open spec fn group_field_at(b: Seq<u8>, p: int, f: Field, acc: RowGroupView) -> Parsed<
    RowGroupView,
> {
    if f.id == 1 {
        match list_header_at(b, p) {
            Err(x) => Err(x),
            Ok((h, e)) => if h.0 != ctype::STRUCT {
                Err(PqErrorView::Bad("columns list type"@))
            } else {
                match chunks_at(b, e, h.1 as nat) {
                    Err(x) => Err(x),
                    Ok((s, e2)) => Ok((RowGroupView { columns: acc.columns + s, ..acc }, e2)),
                }
            },
        }
    } else if f.id == 3 {
        match i64_at(b, p, f.ctype) {
            Ok((v, e)) => Ok((RowGroupView { num_rows: v, ..acc }, e)),
            Err(x) => Err(x),
        }
    } else {
        match skip_at(b, p, f.ctype) {
            Ok(e) => Ok((acc, e)),
            Err(x) => Err(x),
        }
    }
}

/// A row group before any of its fields.
pub open spec fn blank_group() -> RowGroupView {
    RowGroupView { columns: Seq::empty(), num_rows: 0 }
}

/// `count` row groups from position `p` on.
pub open spec fn groups_at(b: Seq<u8>, p: int, count: nat) -> Parsed<Seq<RowGroupView>>
    decreases count,
{
    if count == 0 {
        Ok((Seq::empty(), p))
    } else {
        match groups_at(b, p, (count - 1) as nat) {
            Err(x) => Err(x),
            Ok((s, e)) => match group_fields_at(b, e, 0, blank_group()) {
                Err(x) => Err(x),
                Ok((v, e2)) => Ok((s.push(v), e2)),
            },
        }
    }
}

/// The fields of file metadata.
pub struct FileFields {
    pub version: i32,
    pub num_rows: i64,
    pub elements: Seq<SchemaElementView>,
    pub row_groups: Seq<RowGroupView>,
}

/// The file metadata whose next field stands at position `p`.
pub open spec fn file_fields_at(b: Seq<u8>, p: int, last: i16, acc: FileFields) -> Parsed<FileFields>
    decreases b.len() - p,
{
    match field_at(b, p, last) {
        Err(x) => Err(x),
        Ok((None, e)) => Ok((acc, e)),
        Ok((Some(f), e)) => match file_field_at(b, e, f, acc) {
            Err(x) => Err(x),
            Ok((acc2, e2)) => if e <= e2 <= b.len() {
                file_fields_at(b, e2, f.id, acc2)
            } else {
                Ok((acc2, e2))
            },
        },
    }
}

/// One field of file metadata: 1 version, 2 schema, 3 number of rows, 4 row groups.
pub open spec fn file_field_at(b: Seq<u8>, p: int, f: Field, acc: FileFields) -> Parsed<FileFields> {
    if f.id == 1 {
        match i32_at(b, p, f.ctype) {
            Ok((v, e)) => Ok((FileFields { version: v, ..acc }, e)),
            Err(x) => Err(x),
        }
    } else if f.id == 2 {
        match list_header_at(b, p) {
            Err(x) => Err(x),
            Ok((h, e)) => if h.0 != ctype::STRUCT {
                Err(PqErrorView::Bad("schema list type"@))
            } else {
                match elements_at(b, e, h.1 as nat) {
                    Err(x) => Err(x),
                    Ok((s, e2)) => Ok((FileFields { elements: acc.elements + s, ..acc }, e2)),
                }
            },
        }
    } else if f.id == 3 {
        match i64_at(b, p, f.ctype) {
            Ok((v, e)) => Ok((FileFields { num_rows: v, ..acc }, e)),
            Err(x) => Err(x),
        }
    } else if f.id == 4 {
        match list_header_at(b, p) {
            Err(x) => Err(x),
            Ok((h, e)) => if h.0 != ctype::STRUCT {
                Err(PqErrorView::Bad("row_groups list type"@))
            } else {
                match groups_at(b, e, h.1 as nat) {
                    Err(x) => Err(x),
                    Ok((s, e2)) => Ok((FileFields { row_groups: acc.row_groups + s, ..acc }, e2)),
                }
            },
        }
    } else {
        match skip_at(b, p, f.ctype) {
            Ok(e) => Ok((acc, e)),
            Err(x) => Err(x),
        }
    }
}

/// File metadata before any of its fields.
pub open spec fn blank_file() -> FileFields {
    FileFields { version: 0, num_rows: 0, elements: Seq::empty(), row_groups: Seq::empty() }
}

/// The file metadata with the fields.
pub open spec fn metadata_with(f: FileFields) -> FileMetaDataView {
    let root = tree_of(f.elements);
    FileMetaDataView {
        version: f.version,
        num_rows: f.num_rows,
        leaves: leaves_of(f.elements),
        root,
        flat_schema: is_flat(root),
        row_groups: f.row_groups,
    }
}

/// The file metadata that some bytes hold.
pub open spec fn metadata_of(b: Seq<u8>) -> Result<FileMetaDataView, PqErrorView> {
    match file_fields_at(b, 0, 0, blank_file()) {
        Err(x) => Err(x),
        Ok((f, _)) => Ok(metadata_with(f)),
    }
}

/// Reads the scale and precision of a decimal type.
fn decode_decimal(s: &mut StructReader<'_>) -> (r: TResult<(i32, i32)>)
    requires
        old(s).wf(),
    ensures
        final(s).follows(old(s)),
        reads(r, final(s).at(), decimal_fields_at(old(s).bytes(), old(s).at(), 0, (0, 0))),
{
    let ghost b = s.bytes();
    s.reset_last_id();
    let mut acc: (i32, i32) = (0, 0);
    loop
        invariant
            s.wf(),
            s.follows(old(s)),
            b == old(s).bytes(),
            s.bytes() == b,
            decimal_fields_at(b, old(s).at(), 0, (0, 0)) == decimal_fields_at(
                b,
                s.at(),
                s.last(),
                acc,
            ),
        decreases b.len() - s.at(),
    {
        match s.next_field()? {
            None => return Ok(acc),
            Some(f) => match f.id {
                1 => {
                    acc.0 = s.read_i32(&f)?;
                },
                2 => {
                    acc.1 = s.read_i32(&f)?;
                },
                _ => {
                    s.skip(f.ctype)?;
                },
            },
        }
    }
}

/// Reads a logical type, whose alternatives 2, 3 and 5 are a map, a list and a decimal.
fn decode_logical_type(s: &mut StructReader<'_>, start: Logical) -> (r: TResult<Logical>)
    requires
        old(s).wf(),
    ensures
        final(s).follows(old(s)),
        reads(r, final(s).at(), logical_fields_at(old(s).bytes(), old(s).at(), 0, start)),
{
    let ghost b = s.bytes();
    s.reset_last_id();
    let mut acc: Logical = start;
    loop
        invariant
            s.wf(),
            s.follows(old(s)),
            b == old(s).bytes(),
            s.bytes() == b,
            logical_fields_at(b, old(s).at(), 0, start) == logical_fields_at(
                b,
                s.at(),
                s.last(),
                acc,
            ),
        decreases b.len() - s.at(),
    {
        match s.next_field()? {
            None => return Ok(acc),
            Some(f) => match f.id {
                5 => {
                    if f.ctype != ctype::STRUCT {
                        return Err(bad("LogicalType.DECIMAL: expected struct"));
                    }
                    let d = decode_decimal(s)?;
                    acc.1 = Some(d);
                    s.restore_last_id(f.id);
                },
                id => {
                    s.skip(f.ctype)?;
                    if id == 2 {
                        acc.0 = Some(LogicalType::MapKv);
                    } else if id == 3 {
                        acc.0 = Some(LogicalType::List);
                    }
                },
            },
        }
    }
}

/// Reads a schema element.
fn decode_schema_element(s: &mut StructReader<'_>) -> (r: TResult<SchemaElement>)
    requires
        old(s).wf(),
    ensures
        final(s).follows(old(s)),
        reads_view(
            r,
            final(s).at(),
            element_fields_at(old(s).bytes(), old(s).at(), 0, blank_element()),
        ),
{
    let ghost b = s.bytes();
    s.reset_last_id();
    let mut acc = SchemaElement {
        name: String::new(),
        ptype: None,
        repetition: Repetition::Required,
        num_children: 0,
        type_length: None,
        converted_type: None,
        scale: None,
        precision: None,
        logical_group: None,
        logical_decimal: None,
    };
    assert(acc@ == blank_element());
    loop
        invariant
            s.wf(),
            s.follows(old(s)),
            b == old(s).bytes(),
            s.bytes() == b,
            element_fields_at(b, old(s).at(), 0, blank_element()) == element_fields_at(
                b,
                s.at(),
                s.last(),
                acc@,
            ),
        decreases b.len() - s.at(),
    {
        proof {
            reveal(element_fields_at);
        }
        match s.next_field()? {
            None => {
                match (acc.converted_type, acc.logical_decimal) {
                    (Some(5), Some((scale, precision))) => {
                        if scale != acc.scale.unwrap_or(0) || precision != acc.precision.unwrap_or(
                            0,
                        ) {
                            return Err(bad("DECIMAL converted_type vs LogicalType disagree"));
                        }
                    },
                    _ => {},
                }
                return Ok(acc);
            },
            Some(f) => match f.id {
                1 => {
                    acc.ptype = Some(Type::from_i32(s.read_i32(&f)?));
                },
                2 => {
                    acc.type_length = Some(s.read_i32(&f)?);
                },
                3 => {
                    acc.repetition = Repetition::from_i32(s.read_i32(&f)?);
                },
                4 => {
                    acc.name = read_text(s.read_binary(&f)?);
                },
                5 => {
                    acc.num_children = s.read_i32(&f)?;
                },
                6 => {
                    acc.converted_type = Some(s.read_i32(&f)?);
                },
                7 => {
                    acc.scale = Some(s.read_i32(&f)?);
                },
                8 => {
                    acc.precision = Some(s.read_i32(&f)?);
                },
                10 => {
                    if f.ctype != ctype::STRUCT {
                        return Err(bad("SchemaElement.logicalType: expected struct"));
                    }
                    let l = decode_logical_type(s, (acc.logical_group, acc.logical_decimal))?;
                    acc.logical_group = l.0;
                    acc.logical_decimal = l.1;
                    s.restore_last_id(f.id);
                },
                _ => {
                    s.skip(f.ctype)?;
                },
            },
        }
    }
}

proof fn lemma_elements_error(b: Seq<u8>, p: int, few: nat, count: nat)
    requires
        few <= count,
        elements_at(b, p, few) is Err,
    ensures
        elements_at(b, p, count) == elements_at(b, p, few),
    decreases count - few,
{
    if few < count {
        lemma_elements_error(b, p, few, (count - 1) as nat);
    }
}

/// Reads `count` schema elements.
fn decode_elements(s: &mut StructReader<'_>, count: usize) -> (r: TResult<Vec<SchemaElement>>)
    requires
        old(s).wf(),
    ensures
        final(s).follows(old(s)),
        match (r, elements_at(old(s).bytes(), old(s).at(), count as nat)) {
            (Ok(v), Ok((w, e))) => element_views(v@) == w && final(s).at() == e,
            (Err(x), Err(y)) => x@ == y,
            _ => false,
        },
{
    let ghost b = s.bytes();
    let ghost p = s.at();
    let mut v: Vec<SchemaElement> = Vec::new();
    let mut i: usize = 0;
    assert(element_views(v@) =~= Seq::<SchemaElementView>::empty());
    while i < count
        invariant
            i <= count,
            s.wf(),
            s.follows(old(s)),
            b == old(s).bytes(),
            p == old(s).at(),
            s.bytes() == b,
            elements_at(b, p, i as nat) == Ok::<(Seq<SchemaElementView>, int), PqErrorView>(
                (element_views(v@), s.at()),
            ),
        decreases count - i,
    {
        let ghost before = v@;
        match decode_schema_element(s) {
            Err(x) => {
                proof {
                    lemma_elements_error(b, p, (i + 1) as nat, count as nat);
                }
                return Err(x);
            },
            Ok(e) => {
                v.push(e);
                assert(element_views(v@) =~= element_views(before).push(e@));
            },
        }
        i += 1;
    }
    Ok(v)
}

proof fn lemma_encodings_error(b: Seq<u8>, p: int, et: u8, few: nat, count: nat)
    requires
        few <= count,
        encodings_at(b, p, et, few) is Err,
    ensures
        encodings_at(b, p, et, count) == encodings_at(b, p, et, few),
    decreases count - few,
{
    if few < count {
        lemma_encodings_error(b, p, et, few, (count - 1) as nat);
    }
}

/// Reads `count` encodings.
fn decode_encodings(s: &mut StructReader<'_>, et: u8, count: usize) -> (r: TResult<Vec<Encoding>>)
    requires
        old(s).wf(),
    ensures
        final(s).follows(old(s)),
        match (r, encodings_at(old(s).bytes(), old(s).at(), et, count as nat)) {
            (Ok(v), Ok((w, e))) => v@ == w && final(s).at() == e,
            (Err(x), Err(y)) => x@ == y,
            _ => false,
        },
{
    let ghost b = s.bytes();
    let ghost p = s.at();
    let mut v: Vec<Encoding> = Vec::new();
    let mut i: usize = 0;
    assert(v@ =~= Seq::<Encoding>::empty());
    while i < count
        invariant
            i <= count,
            s.wf(),
            s.follows(old(s)),
            b == old(s).bytes(),
            p == old(s).at(),
            s.bytes() == b,
            encodings_at(b, p, et, i as nat) == Ok::<(Seq<Encoding>, int), PqErrorView>(
                (v@, s.at()),
            ),
        decreases count - i,
    {
        let ghost before = v@;
        proof {
            if encodings_at(b, p, et, (i + 1) as nat) is Err {
                lemma_encodings_error(b, p, et, (i + 1) as nat, count as nat);
            }
        }
        if et != ctype::I32 && et != ctype::I8 && et != ctype::I16 {
            return Err(bad("encodings list type"));
        }
        let e: i64 = s.reader().ivarint()?;
        if e < i32::MIN as i64 || e > i32::MAX as i64 {
            return Err(bad("encoding range"));
        }
        v.push(Encoding::from_i32(e as i32));
        i += 1;
    }
    Ok(v)
}

proof fn lemma_segments_error(b: Seq<u8>, p: int, few: nat, count: nat)
    requires
        few <= count,
        segments_at(b, p, few) is Err,
    ensures
        segments_at(b, p, count) == segments_at(b, p, few),
    decreases count - few,
{
    if few < count {
        lemma_segments_error(b, p, few, (count - 1) as nat);
    }
}

/// Reads `count` path segments.
fn decode_segments(s: &mut StructReader<'_>, count: usize) -> (r: TResult<Vec<String>>)
    requires
        old(s).wf(),
    ensures
        final(s).follows(old(s)),
        match (r, segments_at(old(s).bytes(), old(s).at(), count as nat)) {
            (Ok(v), Ok((w, e))) => texts(v@) == w && final(s).at() == e,
            (Err(x), Err(y)) => x@ == y,
            _ => false,
        },
{
    let ghost b = s.bytes();
    let ghost p = s.at();
    let mut v: Vec<String> = Vec::new();
    let mut i: usize = 0;
    assert(texts(v@) =~= Seq::<Seq<char>>::empty());
    while i < count
        invariant
            i <= count,
            s.wf(),
            s.follows(old(s)),
            b == old(s).bytes(),
            p == old(s).at(),
            s.bytes() == b,
            segments_at(b, p, i as nat) == Ok::<(Seq<Seq<char>>, int), PqErrorView>(
                (texts(v@), s.at()),
            ),
        decreases count - i,
    {
        let ghost before = v@;
        proof {
            if segments_at(b, p, (i + 1) as nat) is Err {
                lemma_segments_error(b, p, (i + 1) as nat, count as nat);
            }
        }
        let n: u64 = s.reader().uvarint()?;
        if n > usize::MAX as u64 {
            return Err(bad("path len"));
        }
        let seg = s.reader().take(n as usize)?;
        let t = read_text(seg);
        v.push(t);
        assert(texts(v@) =~= texts(before).push(t@));
        i += 1;
    }
    Ok(v)
}

/// Reads one field of column metadata into `acc`.
fn decode_column_field(s: &mut StructReader<'_>, f: &Field, acc: &mut ColumnChunk) -> (r: TResult<()>)
    requires
        old(s).wf(),
    ensures
        final(s).follows(old(s)),
        match (r, column_field_at(old(s).bytes(), old(s).at(), *f, old(acc)@)) {
            (Ok(_), Ok((c, e))) => final(acc)@ == c && final(s).at() == e,
            (Err(x), Err(y)) => x@ == y,
            _ => false,
        },
{
    let ghost before = *acc;
    match f.id {
        1 => {
            acc.ptype = Type::from_i32(s.read_i32(f)?);
        },
        2 => {
            let (et, count) = s.list_header()?;
            let mut v = decode_encodings(s, et, count)?;
            acc.encodings.append(&mut v);
        },
        3 => {
            let (et, count) = s.list_header()?;
            if et != ctype::BINARY {
                return Err(bad("path list type"));
            }
            let mut v = decode_segments(s, count)?;
            let ghost w = v@;
            acc.path.append(&mut v);
            assert(texts(acc.path@) =~= texts(before.path@) + texts(w));
        },
        4 => {
            acc.codec = Codec::from_i32(s.read_i32(f)?);
        },
        5 => {
            acc.num_values = s.read_i64(f)?;
        },
        9 => {
            acc.data_page_offset = s.read_i64(f)?;
        },
        11 => {
            acc.dictionary_page_offset = Some(s.read_i64(f)?);
        },
        _ => {
            s.skip(f.ctype)?;
        },
    }
    Ok(())
}

/// Reads column metadata.
fn decode_column_meta(s: &mut StructReader<'_>) -> (r: TResult<ColumnChunk>)
    requires
        old(s).wf(),
    ensures
        final(s).follows(old(s)),
        reads_view(
            r,
            final(s).at(),
            column_fields_at(old(s).bytes(), old(s).at(), 0, blank_chunk()),
        ),
{
    let ghost b = s.bytes();
    s.reset_last_id();
    let mut acc = ColumnChunk {
        path: Vec::new(),
        ptype: Type::Other(-1),
        codec: Codec::Uncompressed,
        encodings: Vec::new(),
        num_values: 0,
        data_page_offset: 0,
        dictionary_page_offset: None,
    };
    assert(acc@ =~= blank_chunk()) by {
        assert(texts(acc.path@) =~= Seq::<Seq<char>>::empty());
    }
    loop
        invariant
            s.wf(),
            s.follows(old(s)),
            b == old(s).bytes(),
            s.bytes() == b,
            column_fields_at(b, old(s).at(), 0, blank_chunk()) == column_fields_at(
                b,
                s.at(),
                s.last(),
                acc@,
            ),
        decreases b.len() - s.at(),
    {
        proof {
            reveal(column_fields_at);
        }
        match s.next_field()? {
            None => return Ok(acc),
            Some(f) => {
                decode_column_field(s, &f, &mut acc)?;
                s.restore_last_id(f.id);
            },
        }
    }
}

/// Reads a column chunk, whose field 3 holds its metadata.
fn decode_column_chunk(s: &mut StructReader<'_>) -> (r: TResult<ColumnChunk>)
    requires
        old(s).wf(),
    ensures
        final(s).follows(old(s)),
        reads_view(r, final(s).at(), chunk_fields_at(old(s).bytes(), old(s).at(), 0, None)),
{
    let ghost b = s.bytes();
    s.reset_last_id();
    let mut acc: Option<ColumnChunk> = None;
    loop
        invariant
            s.wf(),
            s.follows(old(s)),
            b == old(s).bytes(),
            s.bytes() == b,
            chunk_fields_at(b, old(s).at(), 0, None) == chunk_fields_at(
                b,
                s.at(),
                s.last(),
                match acc {
                    Some(c) => Some(c@),
                    None => None,
                },
            ),
        decreases b.len() - s.at(),
    {
        proof {
            reveal(chunk_fields_at);
        }
        match s.next_field()? {
            None => {
                return match acc {
                    Some(c) => Ok(c),
                    None => Err(bad("ColumnChunk missing meta_data")),
                };
            },
            Some(f) => match f.id {
                3 => {
                    if f.ctype != ctype::STRUCT {
                        return Err(bad("ColumnChunk.meta_data: expected struct"));
                    }
                    let c = decode_column_meta(s)?;
                    acc = Some(c);
                    s.restore_last_id(f.id);
                },
                _ => {
                    s.skip(f.ctype)?;
                },
            },
        }
    }
}

proof fn lemma_chunks_error(b: Seq<u8>, p: int, few: nat, count: nat)
    requires
        few <= count,
        chunks_at(b, p, few) is Err,
    ensures
        chunks_at(b, p, count) == chunks_at(b, p, few),
    decreases count - few,
{
    if few < count {
        lemma_chunks_error(b, p, few, (count - 1) as nat);
    }
}

/// Reads `count` column chunks.
fn decode_chunks(s: &mut StructReader<'_>, count: usize) -> (r: TResult<Vec<ColumnChunk>>)
    requires
        old(s).wf(),
    ensures
        final(s).follows(old(s)),
        match (r, chunks_at(old(s).bytes(), old(s).at(), count as nat)) {
            (Ok(v), Ok((w, e))) => chunks(v@) == w && final(s).at() == e,
            (Err(x), Err(y)) => x@ == y,
            _ => false,
        },
{
    let ghost b = s.bytes();
    let ghost p = s.at();
    let mut v: Vec<ColumnChunk> = Vec::new();
    let mut i: usize = 0;
    assert(chunks(v@) =~= Seq::<ColumnChunkView>::empty());
    while i < count
        invariant
            i <= count,
            s.wf(),
            s.follows(old(s)),
            b == old(s).bytes(),
            p == old(s).at(),
            s.bytes() == b,
            chunks_at(b, p, i as nat) == Ok::<(Seq<ColumnChunkView>, int), PqErrorView>(
                (chunks(v@), s.at()),
            ),
        decreases count - i,
    {
        let ghost before = v@;
        match decode_column_chunk(s) {
            Err(x) => {
                proof {
                    lemma_chunks_error(b, p, (i + 1) as nat, count as nat);
                }
                return Err(x);
            },
            Ok(e) => {
                v.push(e);
                assert(chunks(v@) =~= chunks(before).push(e@));
            },
        }
        i += 1;
    }
    Ok(v)
}

/// Reads a row group.
fn decode_row_group(s: &mut StructReader<'_>) -> (r: TResult<RowGroup>)
    requires
        old(s).wf(),
    ensures
        final(s).follows(old(s)),
        reads_view(
            r,
            final(s).at(),
            group_fields_at(old(s).bytes(), old(s).at(), 0, blank_group()),
        ),
{
    let ghost b = s.bytes();
    s.reset_last_id();
    let mut acc = RowGroup { columns: Vec::new(), num_rows: 0 };
    assert(acc@ =~= blank_group()) by {
        assert(chunks(acc.columns@) =~= Seq::<ColumnChunkView>::empty());
    }
    loop
        invariant
            s.wf(),
            s.follows(old(s)),
            b == old(s).bytes(),
            s.bytes() == b,
            group_fields_at(b, old(s).at(), 0, blank_group()) == group_fields_at(
                b,
                s.at(),
                s.last(),
                acc@,
            ),
        decreases b.len() - s.at(),
    {
        proof {
            reveal(group_fields_at);
        }
        let ghost before = acc;
        match s.next_field()? {
            None => return Ok(acc),
            Some(f) => match f.id {
                1 => {
                    let (et, count) = s.list_header()?;
                    if et != ctype::STRUCT {
                        return Err(bad("columns list type"));
                    }
                    let mut v = decode_chunks(s, count)?;
                    let ghost w = v@;
                    acc.columns.append(&mut v);
                    assert(chunks(acc.columns@) =~= chunks(before.columns@) + chunks(w));
                    s.restore_last_id(f.id);
                },
                3 => {
                    acc.num_rows = s.read_i64(&f)?;
                },
                _ => {
                    s.skip(f.ctype)?;
                },
            },
        }
    }
}

proof fn lemma_groups_error(b: Seq<u8>, p: int, few: nat, count: nat)
    requires
        few <= count,
        groups_at(b, p, few) is Err,
    ensures
        groups_at(b, p, count) == groups_at(b, p, few),
    decreases count - few,
{
    if few < count {
        lemma_groups_error(b, p, few, (count - 1) as nat);
    }
}

/// Reads `count` row groups.
fn decode_groups(s: &mut StructReader<'_>, count: usize) -> (r: TResult<Vec<RowGroup>>)
    requires
        old(s).wf(),
    ensures
        final(s).follows(old(s)),
        match (r, groups_at(old(s).bytes(), old(s).at(), count as nat)) {
            (Ok(v), Ok((w, e))) => groups(v@) == w && final(s).at() == e,
            (Err(x), Err(y)) => x@ == y,
            _ => false,
        },
{
    let ghost b = s.bytes();
    let ghost p = s.at();
    let mut v: Vec<RowGroup> = Vec::new();
    let mut i: usize = 0;
    assert(groups(v@) =~= Seq::<RowGroupView>::empty());
    while i < count
        invariant
            i <= count,
            s.wf(),
            s.follows(old(s)),
            b == old(s).bytes(),
            p == old(s).at(),
            s.bytes() == b,
            groups_at(b, p, i as nat) == Ok::<(Seq<RowGroupView>, int), PqErrorView>(
                (groups(v@), s.at()),
            ),
        decreases count - i,
    {
        let ghost before = v@;
        match decode_row_group(s) {
            Err(x) => {
                proof {
                    lemma_groups_error(b, p, (i + 1) as nat, count as nat);
                }
                return Err(x);
            },
            Ok(e) => {
                v.push(e);
                assert(groups(v@) =~= groups(before).push(e@));
            },
        }
        i += 1;
    }
    Ok(v)
}

impl FileMetaData {
    /// Decodes the metadata of a file.
    pub fn decode(bytes: &[u8]) -> (r: Result<FileMetaData, PqError>)
        ensures
            outcome(r) == metadata_of(bytes@),
    {
        let ghost b = bytes@;
        let mut s = StructReader::new(bytes);
        let mut version: i32 = 0;
        let mut num_rows: i64 = 0;
        let mut elements: Vec<SchemaElement> = Vec::new();
        let mut row_groups: Vec<RowGroup> = Vec::new();
        let ghost blank = blank_file();
        assert(element_views(elements@) =~= Seq::<SchemaElementView>::empty());
        assert(groups(row_groups@) =~= Seq::<RowGroupView>::empty());
        loop
            invariant_except_break
                s.wf(),
                s.bytes() == b,
                file_fields_at(b, 0, 0, blank) == file_fields_at(
                    b,
                    s.at(),
                    s.last(),
                    FileFields {
                        version,
                        num_rows,
                        elements: element_views(elements@),
                        row_groups: groups(row_groups@),
                    },
                ),
            invariant
                b == bytes@,
                blank == blank_file(),
            ensures
                file_fields_at(b, 0, 0, blank) matches Ok((ff, _)) && ff == (FileFields {
                    version,
                    num_rows,
                    elements: element_views(elements@),
                    row_groups: groups(row_groups@),
                }),
            decreases b.len() - s.at(),
        {
            match s.next_field()? {
                None => {
                    break;
                },
                Some(f) => match f.id {
                    1 => {
                        version = s.read_i32(&f)?;
                    },
                    2 => {
                        let ghost before = elements@;
                        let (et, count) = s.list_header()?;
                        if et != ctype::STRUCT {
                            return Err(bad("schema list type"));
                        }
                        let mut v = decode_elements(&mut s, count)?;
                        let ghost w = v@;
                        elements.append(&mut v);
                        assert(element_views(elements@) =~= element_views(before)
                            + element_views(w));
                        s.restore_last_id(f.id);
                    },
                    3 => {
                        num_rows = s.read_i64(&f)?;
                    },
                    4 => {
                        let ghost before = row_groups@;
                        let (et, count) = s.list_header()?;
                        if et != ctype::STRUCT {
                            return Err(bad("row_groups list type"));
                        }
                        let mut v = decode_groups(&mut s, count)?;
                        let ghost w = v@;
                        row_groups.append(&mut v);
                        assert(groups(row_groups@) =~= groups(before) + groups(w));
                        s.restore_last_id(f.id);
                    },
                    _ => {
                        s.skip(f.ctype)?;
                    },
                },
            }
        }
        let schema_tree = build_tree(&elements);
        let leaves = collect_leaves(&elements);
        let flat_schema: bool = flat(&schema_tree.root);
        Ok(FileMetaData { version, num_rows, leaves, schema_tree, flat_schema, row_groups })
    }
}

/// The header of a page.
#[derive(Clone, Debug)]
pub struct PageHeader {
    pub page_type: i32,
    pub uncompressed_size: i32,
    pub compressed_size: i32,
    pub dp_num_values: i32,
    pub dp_encoding: i32,
    pub dict_num_values: i32,
    pub dict_encoding: i32,
    pub v2_num_values: i32,
    pub v2_num_nulls: i32,
    pub v2_encoding: i32,
    pub v2_def_len: i32,
    pub v2_rep_len: i32,
    pub v2_is_compressed: bool,
}

/// A page header before any of its fields.
pub open spec fn blank_header() -> PageHeader {
    PageHeader {
        page_type: (-1int) as i32,
        uncompressed_size: 0,
        compressed_size: 0,
        dp_num_values: 0,
        dp_encoding: (-1int) as i32,
        dict_num_values: 0,
        dict_encoding: (-1int) as i32,
        v2_num_values: 0,
        v2_num_nulls: 0,
        v2_encoding: (-1int) as i32,
        v2_def_len: 0,
        v2_rep_len: 0,
        v2_is_compressed: true,
    }
}

/// One field of a data page header: 1 the number of values, 2 the encoding.
pub open spec fn data_header_field_at(b: Seq<u8>, p: int, f: Field, acc: PageHeader) -> Parsed<
    PageHeader,
> {
    if f.id == 1 || f.id == 2 {
        match i32_at(b, p, f.ctype) {
            Ok((v, e)) => Ok(
                (
                    if f.id == 1 {
                        PageHeader { dp_num_values: v, ..acc }
                    } else {
                        PageHeader { dp_encoding: v, ..acc }
                    },
                    e,
                ),
            ),
            Err(x) => Err(x),
        }
    } else {
        match skip_at(b, p, f.ctype) {
            Ok(e) => Ok((acc, e)),
            Err(x) => Err(x),
        }
    }
}

/// The data page header whose next field stands at position `p`.
pub open spec fn data_header_fields_at(b: Seq<u8>, p: int, last: i16, acc: PageHeader) -> Parsed<PageHeader>
    decreases b.len() - p,
{
    match field_at(b, p, last) {
        Err(x) => Err(x),
        Ok((None, e)) => Ok((acc, e)),
        Ok((Some(f), e)) => match data_header_field_at(b, e, f, acc) {
            Err(x) => Err(x),
            Ok((acc2, e2)) => if e <= e2 <= b.len() {
                data_header_fields_at(b, e2, f.id, acc2)
            } else {
                Ok((acc2, e2))
            },
        },
    }
}

/// One field of a dictionary page header: 1 the number of values, 2 the encoding.
pub open spec fn dict_header_field_at(b: Seq<u8>, p: int, f: Field, acc: PageHeader) -> Parsed<
    PageHeader,
> {
    if f.id == 1 || f.id == 2 {
        match i32_at(b, p, f.ctype) {
            Ok((v, e)) => Ok(
                (
                    if f.id == 1 {
                        PageHeader { dict_num_values: v, ..acc }
                    } else {
                        PageHeader { dict_encoding: v, ..acc }
                    },
                    e,
                ),
            ),
            Err(x) => Err(x),
        }
    } else {
        match skip_at(b, p, f.ctype) {
            Ok(e) => Ok((acc, e)),
            Err(x) => Err(x),
        }
    }
}

/// The dictionary page header whose next field stands at position `p`.
pub open spec fn dict_header_fields_at(b: Seq<u8>, p: int, last: i16, acc: PageHeader) -> Parsed<PageHeader>
    decreases b.len() - p,
{
    match field_at(b, p, last) {
        Err(x) => Err(x),
        Ok((None, e)) => Ok((acc, e)),
        Ok((Some(f), e)) => match dict_header_field_at(b, e, f, acc) {
            Err(x) => Err(x),
            Ok((acc2, e2)) => if e <= e2 <= b.len() {
                dict_header_fields_at(b, e2, f.id, acc2)
            } else {
                Ok((acc2, e2))
            },
        },
    }
}

/// One field of a version 2 data page header: 1 the number of values, 2 the number of nulls, 4 the
/// encoding, 5 and 6 the byte lengths of the definition and repetition levels, 7 whether the values
/// are compressed.
pub open spec fn v2_header_field_at(b: Seq<u8>, p: int, f: Field, acc: PageHeader) -> Parsed<
    PageHeader,
> {
    if f.id == 1 || f.id == 2 || f.id == 4 || f.id == 5 || f.id == 6 {
        match i32_at(b, p, f.ctype) {
            Ok((v, e)) => Ok(
                (
                    if f.id == 1 {
                        PageHeader { v2_num_values: v, ..acc }
                    } else if f.id == 2 {
                        PageHeader { v2_num_nulls: v, ..acc }
                    } else if f.id == 4 {
                        PageHeader { v2_encoding: v, ..acc }
                    } else if f.id == 5 {
                        PageHeader { v2_def_len: v, ..acc }
                    } else {
                        PageHeader { v2_rep_len: v, ..acc }
                    },
                    e,
                ),
            ),
            Err(x) => Err(x),
        }
    } else if f.id == 7 {
        match f.bool_val {
            Some(v) => Ok((PageHeader { v2_is_compressed: v, ..acc }, p)),
            None => Err(PqErrorView::Bad("expected bool"@)),
        }
    } else {
        match skip_at(b, p, f.ctype) {
            Ok(e) => Ok((acc, e)),
            Err(x) => Err(x),
        }
    }
}

/// The version 2 data page header whose next field stands at position `p`.
pub open spec fn v2_header_fields_at(b: Seq<u8>, p: int, last: i16, acc: PageHeader) -> Parsed<PageHeader>
    decreases b.len() - p,
{
    match field_at(b, p, last) {
        Err(x) => Err(x),
        Ok((None, e)) => Ok((acc, e)),
        Ok((Some(f), e)) => match v2_header_field_at(b, e, f, acc) {
            Err(x) => Err(x),
            Ok((acc2, e2)) => if e <= e2 <= b.len() {
                v2_header_fields_at(b, e2, f.id, acc2)
            } else {
                Ok((acc2, e2))
            },
        },
    }
}

/// One field of a page header: 1 the page type, 2 and 3 the sizes before and after compression, 5, 7
/// and 8 the header of a data page, of a dictionary page and of a version 2 data page.
pub open spec fn header_field_at(b: Seq<u8>, p: int, f: Field, acc: PageHeader) -> Parsed<
    PageHeader,
> {
    if f.id == 1 || f.id == 2 || f.id == 3 {
        match i32_at(b, p, f.ctype) {
            Ok((v, e)) => Ok(
                (
                    if f.id == 1 {
                        PageHeader { page_type: v, ..acc }
                    } else if f.id == 2 {
                        PageHeader { uncompressed_size: v, ..acc }
                    } else {
                        PageHeader { compressed_size: v, ..acc }
                    },
                    e,
                ),
            ),
            Err(x) => Err(x),
        }
    } else if f.id == 5 {
        if f.ctype != ctype::STRUCT {
            Err(PqErrorView::Bad("PageHeader.data_page_header: expected struct"@))
        } else {
            data_header_fields_at(b, p, 0, acc)
        }
    } else if f.id == 7 {
        if f.ctype != ctype::STRUCT {
            Err(PqErrorView::Bad("PageHeader.dictionary_page_header: expected struct"@))
        } else {
            dict_header_fields_at(b, p, 0, acc)
        }
    } else if f.id == 8 {
        if f.ctype != ctype::STRUCT {
            Err(PqErrorView::Bad("PageHeader.data_page_header_v2: expected struct"@))
        } else {
            v2_header_fields_at(b, p, 0, acc)
        }
    } else {
        match skip_at(b, p, f.ctype) {
            Ok(e) => Ok((acc, e)),
            Err(x) => Err(x),
        }
    }
}

/// The page header whose next field stands at position `p`.
pub open spec fn header_fields_at(b: Seq<u8>, p: int, last: i16, acc: PageHeader) -> Parsed<PageHeader>
    decreases b.len() - p,
{
    match field_at(b, p, last) {
        Err(x) => Err(x),
        Ok((None, e)) => Ok((acc, e)),
        Ok((Some(f), e)) => match header_field_at(b, e, f, acc) {
            Err(x) => Err(x),
            Ok((acc2, e2)) => if e <= e2 <= b.len() {
                header_fields_at(b, e2, f.id, acc2)
            } else {
                Ok((acc2, e2))
            },
        },
    }
}

/// The page header at the start of some bytes, and its length.
#[verifier::opaque]
pub open spec fn page_header_of(b: Seq<u8>) -> Parsed<PageHeader> {
    header_fields_at(b, 0, 0, blank_header())
}

/// Reads a data page header into a page header.
fn decode_data_header(s: &mut StructReader<'_>, start: PageHeader) -> (r: TResult<PageHeader>)
    requires
        old(s).wf(),
    ensures
        final(s).follows(old(s)),
        reads(r, final(s).at(), data_header_fields_at(old(s).bytes(), old(s).at(), 0, start)),
{
    let ghost b = s.bytes();
    s.reset_last_id();
    let mut ph = start;
    loop
        invariant
            s.wf(),
            s.follows(old(s)),
            b == old(s).bytes(),
            s.bytes() == b,
            data_header_fields_at(b, old(s).at(), 0, start) == data_header_fields_at(
                b,
                s.at(),
                s.last(),
                ph,
            ),
        decreases b.len() - s.at(),
    {
        match s.next_field()? {
            None => return Ok(ph),
            Some(f) => match f.id {
                1 => {
                    ph.dp_num_values = s.read_i32(&f)?;
                },
                2 => {
                    ph.dp_encoding = s.read_i32(&f)?;
                },
                _ => {
                    s.skip(f.ctype)?;
                },
            },
        }
    }
}

/// Reads a dictionary page header into a page header.
fn decode_dict_header(s: &mut StructReader<'_>, start: PageHeader) -> (r: TResult<PageHeader>)
    requires
        old(s).wf(),
    ensures
        final(s).follows(old(s)),
        reads(r, final(s).at(), dict_header_fields_at(old(s).bytes(), old(s).at(), 0, start)),
{
    let ghost b = s.bytes();
    s.reset_last_id();
    let mut ph = start;
    loop
        invariant
            s.wf(),
            s.follows(old(s)),
            b == old(s).bytes(),
            s.bytes() == b,
            dict_header_fields_at(b, old(s).at(), 0, start) == dict_header_fields_at(
                b,
                s.at(),
                s.last(),
                ph,
            ),
        decreases b.len() - s.at(),
    {
        match s.next_field()? {
            None => return Ok(ph),
            Some(f) => match f.id {
                1 => {
                    ph.dict_num_values = s.read_i32(&f)?;
                },
                2 => {
                    ph.dict_encoding = s.read_i32(&f)?;
                },
                _ => {
                    s.skip(f.ctype)?;
                },
            },
        }
    }
}

/// Reads a version 2 data page header into a page header.
fn decode_v2_header(s: &mut StructReader<'_>, start: PageHeader) -> (r: TResult<PageHeader>)
    requires
        old(s).wf(),
    ensures
        final(s).follows(old(s)),
        reads(r, final(s).at(), v2_header_fields_at(old(s).bytes(), old(s).at(), 0, start)),
{
    let ghost b = s.bytes();
    s.reset_last_id();
    let mut ph = start;
    loop
        invariant
            s.wf(),
            s.follows(old(s)),
            b == old(s).bytes(),
            s.bytes() == b,
            v2_header_fields_at(b, old(s).at(), 0, start) == v2_header_fields_at(
                b,
                s.at(),
                s.last(),
                ph,
            ),
        decreases b.len() - s.at(),
    {
        match s.next_field()? {
            None => return Ok(ph),
            Some(f) => match f.id {
                1 => {
                    ph.v2_num_values = s.read_i32(&f)?;
                },
                2 => {
                    ph.v2_num_nulls = s.read_i32(&f)?;
                },
                4 => {
                    ph.v2_encoding = s.read_i32(&f)?;
                },
                5 => {
                    ph.v2_def_len = s.read_i32(&f)?;
                },
                6 => {
                    ph.v2_rep_len = s.read_i32(&f)?;
                },
                7 => {
                    ph.v2_is_compressed = s.read_bool(&f)?;
                },
                _ => {
                    s.skip(f.ctype)?;
                },
            },
        }
    }
}

/// Reads one field of a page header.
fn decode_header_field(s: &mut StructReader<'_>, f: &Field, start: PageHeader) -> (r: TResult<
    PageHeader,
>)
    requires
        old(s).wf(),
    ensures
        final(s).follows(old(s)),
        reads(r, final(s).at(), header_field_at(old(s).bytes(), old(s).at(), *f, start)),
{
    let mut ph = start;
    match f.id {
        1 => {
            ph.page_type = s.read_i32(f)?;
        },
        2 => {
            ph.uncompressed_size = s.read_i32(f)?;
        },
        3 => {
            ph.compressed_size = s.read_i32(f)?;
        },
        5 => {
            if f.ctype != ctype::STRUCT {
                return Err(bad("PageHeader.data_page_header: expected struct"));
            }
            ph = decode_data_header(s, ph)?;
        },
        7 => {
            if f.ctype != ctype::STRUCT {
                return Err(bad("PageHeader.dictionary_page_header: expected struct"));
            }
            ph = decode_dict_header(s, ph)?;
        },
        8 => {
            if f.ctype != ctype::STRUCT {
                return Err(bad("PageHeader.data_page_header_v2: expected struct"));
            }
            ph = decode_v2_header(s, ph)?;
        },
        _ => {
            s.skip(f.ctype)?;
        },
    }
    Ok(ph)
}

/// Decodes the page header at the start of some bytes; the second part of the result is its length.
pub fn decode_page_header(bytes: &[u8]) -> (r: Result<(PageHeader, usize), PqError>)
    ensures
        match (r, page_header_of(bytes@)) {
            (Ok((h, n)), Ok((v, e))) => h == v && n == e,
            (Err(x), Err(y)) => x@ == y,
            _ => false,
        },
        r matches Ok((_, n)) ==> 0 < n <= bytes@.len(),
{
    proof {
        reveal(page_header_of);
    }
    let ghost b = bytes@;
    let mut s = StructReader::new(bytes);
    let mut ph = PageHeader {
        page_type: -1,
        uncompressed_size: 0,
        compressed_size: 0,
        dp_num_values: 0,
        dp_encoding: -1,
        dict_num_values: 0,
        dict_encoding: -1,
        v2_num_values: 0,
        v2_num_nulls: 0,
        v2_encoding: -1,
        v2_def_len: 0,
        v2_rep_len: 0,
        v2_is_compressed: true,
    };
    loop
        invariant
            s.wf(),
            b == bytes@,
            s.bytes() == b,
            page_header_of(b) == header_fields_at(b, s.at(), s.last(), ph),
        decreases b.len() - s.at(),
    {
        match s.next_field()? {
            None => return Ok((ph, s.reader_pos())),
            Some(f) => {
                ph = decode_header_field(&mut s, &f, ph)?;
                s.restore_last_id(f.id);
            },
        }
    }
}

} // verus!
