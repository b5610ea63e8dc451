//! How the values of a leaf column are to be read, from what the schema says of it.
use vstd::prelude::*;
use vstd::string::*;

use crate::error::{bad, decimal, decimal_text, text3, text4, PqError, PqErrorView};
use crate::meta::or_zero;
use crate::plain::{DecimalSpec, PlainSpec};
use crate::schema::{leaf_views, SchemaLeaf, SchemaLeafView, Type};
use crate::text::same_text;

verus! {

/// The scale and precision of a leaf that holds decimals. The converted type 5 is a decimal.
pub open spec fn decimal_of(l: SchemaLeafView) -> Option<(i32, i32)> {
    if l.converted_type == Some(5i32) {
        Some((or_zero(l.scale), or_zero(l.precision)))
    } else {
        l.logical_type_decimal
    }
}

/// How a leaf with decimals is to be read.
pub open spec fn decimal_spec_of(l: SchemaLeafView, scale: i32, precision: i32) -> Result<
    PlainSpec,
    PqErrorView,
> {
    let dec = Some(DecimalSpec { precision: precision as u32, scale: scale as u32 });
    if precision < 1 || precision > 38 {
        Err(
            PqErrorView::Unsupported(
                "DECIMAL precision "@ + decimal(precision as int)
                    + " (must be 1..=38): OBJ-2c-4"@,
            ),
        )
    } else if scale < 0 || scale > precision {
        Err(
            PqErrorView::Bad(
                "DECIMAL scale "@ + decimal(scale as int) + " out of range for precision "@
                    + decimal(precision as int),
            ),
        )
    } else if l.ptype is Int32 {
        if precision > 9 {
            Err(PqErrorView::Bad("DECIMAL precision > 9 on INT32 physical type"@))
        } else {
            Ok(PlainSpec { ptype: l.ptype, flba_len: None, decimal: dec })
        }
    } else if l.ptype is Int64 {
        if precision > 18 {
            Err(PqErrorView::Bad("DECIMAL precision > 18 on INT64 physical type"@))
        } else {
            Ok(PlainSpec { ptype: l.ptype, flba_len: None, decimal: dec })
        }
    } else if l.ptype is ByteArray {
        Ok(PlainSpec { ptype: l.ptype, flba_len: None, decimal: dec })
    } else if l.ptype is FixedLenByteArray {
        match l.type_length {
            None => Err(PqErrorView::Bad("FLBA DECIMAL missing type_length"@)),
            Some(n) => if n < 0 {
                Err(PqErrorView::Bad("FLBA type_length range"@))
            } else if n == 0 || n > 16 {
                Err(PqErrorView::Bad("DECIMAL FLBA width out of range (1..=16, i128)"@))
            } else {
                Ok(PlainSpec { ptype: l.ptype, flba_len: Some(n as usize), decimal: dec })
            },
        }
    } else if l.ptype is Int96 {
        Err(PqErrorView::Bad("DECIMAL on INT96 physical type: not supported"@))
    } else {
        Err(PqErrorView::Bad("DECIMAL on incompatible physical type"@))
    }
}

/// How a leaf is to be read.
pub open spec fn plain_spec_of(l: SchemaLeafView) -> Result<PlainSpec, PqErrorView> {
    match decimal_of(l) {
        Some((scale, precision)) => decimal_spec_of(l, scale, precision),
        None => if l.ptype is FixedLenByteArray {
            match l.type_length {
                None => Err(PqErrorView::Bad("FLBA missing type_length"@)),
                Some(n) => if n < 0 {
                    Err(PqErrorView::Bad("FLBA type_length range"@))
                } else if n == 0 || n > 65_536 {
                    Err(PqErrorView::Bad("FLBA type_length out of range (1..=65_536)"@))
                } else {
                    Ok(PlainSpec { ptype: l.ptype, flba_len: Some(n as usize), decimal: None })
                },
            }
        } else {
            Ok(PlainSpec { ptype: l.ptype, flba_len: None, decimal: None })
        },
    }
}

/// The first leaf with the given name.
pub open spec fn find_leaf(leaves: Seq<SchemaLeafView>, name: Seq<char>) -> Option<SchemaLeafView>
    decreases leaves.len(),
{
    if leaves.len() == 0 {
        None
    } else if leaves[0].name == name {
        Some(leaves[0])
    } else {
        find_leaf(leaves.drop_first(), name)
    }
}

/// How the leaf with the given name is to be read; `missing` is the complaint where there is none.
pub open spec fn named_spec(
    leaves: Seq<SchemaLeafView>,
    name: Seq<char>,
    missing: Seq<char>,
) -> Result<PlainSpec, PqErrorView> {
    match find_leaf(leaves, name) {
        None => Err(PqErrorView::Bad(missing)),
        Some(l) => plain_spec_of(l),
    }
}

/// How a key leaf and a value leaf are to be read. Both are looked up before either is examined.
pub open spec fn pair_specs(
    leaves: Seq<SchemaLeafView>,
    key: Seq<char>,
    key_missing: Seq<char>,
    value: Seq<char>,
    value_missing: Seq<char>,
) -> Result<(PlainSpec, PlainSpec), PqErrorView> {
    match find_leaf(leaves, key) {
        None => Err(PqErrorView::Bad(key_missing)),
        Some(k) => match find_leaf(leaves, value) {
            None => Err(PqErrorView::Bad(value_missing)),
            Some(v) => match plain_spec_of(k) {
                Err(x) => Err(x),
                Ok(ks) => match plain_spec_of(v) {
                    Err(x) => Err(x),
                    Ok(vs) => Ok((ks, vs)),
                },
            },
        },
    }
}

/// Whether building gave the specification.
pub open spec fn specifies(r: Result<PlainSpec, PqError>, s: Result<PlainSpec, PqErrorView>) -> bool {
    match (r, s) {
        (Ok(v), Ok(w)) => v == w,
        (Err(x), Err(y)) => x@ == y,
        _ => false,
    }
}

fn build_decimal_spec(leaf: &SchemaLeaf, scale: i32, precision: i32) -> (r: Result<
    PlainSpec,
    PqError,
>)
    ensures
        specifies(r, decimal_spec_of(leaf@, scale, precision)),
{
    if precision < 1 || precision > 38 {
        return Err(
            PqError::Unsupported(
                text3(
                    "DECIMAL precision ",
                    decimal_text(precision as i128).as_str(),
                    " (must be 1..=38): OBJ-2c-4",
                ),
            ),
        );
    }
    if scale < 0 || scale > precision {
        return Err(
            PqError::Bad(
                text4(
                    "DECIMAL scale ",
                    decimal_text(scale as i128).as_str(),
                    " out of range for precision ",
                    decimal_text(precision as i128).as_str(),
                ),
            ),
        );
    }
    let p: u32 = precision as u32;
    let s: u32 = scale as u32;
    match leaf.ptype {
        Type::Int32 => if precision > 9 {
            Err(bad("DECIMAL precision > 9 on INT32 physical type"))
        } else {
            Ok(PlainSpec::int_decimal(leaf.ptype, p, s))
        },
        Type::Int64 => if precision > 18 {
            Err(bad("DECIMAL precision > 18 on INT64 physical type"))
        } else {
            Ok(PlainSpec::int_decimal(leaf.ptype, p, s))
        },
        Type::ByteArray => Ok(PlainSpec::byte_array_decimal(p, s)),
        Type::FixedLenByteArray => match leaf.type_length {
            None => Err(bad("FLBA DECIMAL missing type_length")),
            Some(n) => if n < 0 {
                Err(bad("FLBA type_length range"))
            } else if n == 0 || n > 16 {
                Err(bad("DECIMAL FLBA width out of range (1..=16, i128)"))
            } else {
                Ok(PlainSpec::flba_decimal(n as usize, p, s))
            },
        },
        Type::Int96 => Err(bad("DECIMAL on INT96 physical type: not supported")),
        _ => Err(bad("DECIMAL on incompatible physical type")),
    }
}

/// Builds the description by which the values of a leaf are read, from what the schema says of it.
pub fn build_plain_spec(leaf: &SchemaLeaf) -> (r: Result<PlainSpec, PqError>)
    ensures
        specifies(r, plain_spec_of(leaf@)),
{
    let is_decimal: bool = match leaf.converted_type {
        Some(5) => true,
        _ => false,
    };
    let dec: Option<(i32, i32)> = if is_decimal {
        Some((leaf.scale.unwrap_or(0), leaf.precision.unwrap_or(0)))
    } else {
        leaf.logical_type_decimal
    };
    if let Some((scale, precision)) = dec {
        return build_decimal_spec(leaf, scale, precision);
    }
    match leaf.ptype {
        Type::FixedLenByteArray => match leaf.type_length {
            None => Err(bad("FLBA missing type_length")),
            Some(n) => if n < 0 {
                Err(bad("FLBA type_length range"))
            } else if n == 0 || n > 65_536 {
                Err(bad("FLBA type_length out of range (1..=65_536)"))
            } else {
                Ok(PlainSpec::flba(n as usize))
            },
        },
        t => Ok(PlainSpec::plain(t)),
    }
}

/// The index of the first leaf with the given name.
pub fn leaf_index(leaves: &[SchemaLeaf], name: &str) -> (r: Option<usize>)
    ensures
        match r {
            Some(i) => i < leaves@.len() && find_leaf(leaf_views(leaves@), name@) == Some(
                leaves@[i as int]@,
            ),
            None => find_leaf(leaf_views(leaves@), name@) is None,
        },
{
    let mut i: usize = 0;
    assert(leaf_views(leaves@).skip(0) =~= leaf_views(leaves@));
    while i < leaves.len()
        invariant
            i <= leaves@.len(),
            find_leaf(leaf_views(leaves@), name@) == find_leaf(
                leaf_views(leaves@).skip(i as int),
                name@,
            ),
        decreases leaves@.len() - i,
    {
        proof {
            let s = leaf_views(leaves@).skip(i as int);
            assert(s[0] == leaves@[i as int]@);
            assert(s.drop_first() =~= leaf_views(leaves@).skip(i + 1));
        }
        if same_text(leaves[i].name.as_str(), name) {
            return Some(i);
        }
        i += 1;
    }
    None
}

/// The description of the leaf with the given name; `missing` is the complaint where there is none.
pub fn build_named_spec(leaves: &[SchemaLeaf], name: &str, missing: String) -> (r: Result<
    PlainSpec,
    PqError,
>)
    ensures
        specifies(r, named_spec(leaf_views(leaves@), name@, missing@)),
{
    match leaf_index(leaves, name) {
        None => Err(PqError::Bad(missing)),
        Some(i) => build_plain_spec(&leaves[i]),
    }
}

/// The descriptions of a key leaf and a value leaf.
pub fn build_pair_specs(
    leaves: &[SchemaLeaf],
    key: &str,
    key_missing: String,
    value: &str,
    value_missing: String,
) -> (r: Result<(PlainSpec, PlainSpec), PqError>)
    ensures
        match (r, pair_specs(leaf_views(leaves@), key@, key_missing@, value@, value_missing@)) {
            (Ok(v), Ok(w)) => v == w,
            (Err(x), Err(y)) => x@ == y,
            _ => false,
        },
{
    match leaf_index(leaves, key) {
        None => Err(PqError::Bad(key_missing)),
        Some(k) => match leaf_index(leaves, value) {
            None => Err(PqError::Bad(value_missing)),
            Some(v) => {
                let ks = build_plain_spec(&leaves[k])?;
                let vs = build_plain_spec(&leaves[v])?;
                Ok((ks, vs))
            },
        },
    }
}

} // verus!
