//! How a leaf is read, from what its schema element says.
use vstd::prelude::*;

use crate::leaf::{find_leaf, plain_spec_of};
use crate::plain::{DecimalSpec, PlainSpec};
use crate::schema::{SchemaLeafView, Type};

verus! {

/// A leaf that holds no decimals is read as its physical type says. Only a fixed-length byte array
/// needs a length, from 1 to 65536.
pub proof fn law_leaf_plain(l: SchemaLeafView)
    requires
        l.converted_type != Some(5i32),
        l.logical_type_decimal is None,
    ensures
        l.ptype != Type::FixedLenByteArray ==> plain_spec_of(l) is Ok && plain_spec_of(l)->Ok_0 == (
        PlainSpec { ptype: l.ptype, flba_len: None, decimal: None }),
        l.ptype == Type::FixedLenByteArray ==> (plain_spec_of(l) is Ok <==> (l.type_length matches
            Some(n) && 1 <= n <= 65536)),
        l.ptype == Type::FixedLenByteArray && plain_spec_of(l) is Ok ==> plain_spec_of(l)->Ok_0 == (
        PlainSpec {
            ptype: l.ptype,
            flba_len: Some(l.type_length->Some_0 as usize),
            decimal: None,
        }),
{
}

/// Whether numbers of so many decimal digits may be held by the type, which for a fixed-length byte
/// array has so many bytes.
pub open spec fn holds_digits(ptype: Type, length: Option<i32>, precision: int) -> bool {
    match ptype {
        Type::Int32 => precision <= 9,
        Type::Int64 => precision <= 18,
        Type::ByteArray => precision <= 38,
        Type::FixedLenByteArray => precision <= 38 && (length matches Some(n) && 1 <= n <= 16),
        _ => false,
    }
}

/// A leaf that is marked as a decimal in the older way has the scale and the precision beside the mark;
/// one that is marked in the newer way has them in the mark. It is read as a decimal of that scale where
/// the precision is one that the type holds, and the scale is not negative and not above it; else it is
/// refused.
pub proof fn law_leaf_decimal(l: SchemaLeafView, scale: i32, precision: i32)
    requires
        l.converted_type == Some(5i32) && l.scale == Some(scale) && l.precision == Some(precision)
            || l.converted_type != Some(5i32) && l.logical_type_decimal == Some((scale, precision)),
    ensures
        plain_spec_of(l) is Ok <==> 1 <= precision && 0 <= scale <= precision && holds_digits(
            l.ptype,
            l.type_length,
            precision as int,
        ),
        plain_spec_of(l) is Ok ==> plain_spec_of(l)->Ok_0 == (PlainSpec {
            ptype: l.ptype,
            flba_len: if l.ptype == Type::FixedLenByteArray {
                Some(l.type_length->Some_0 as usize)
            } else {
                None
            },
            decimal: Some(DecimalSpec { precision: precision as u32, scale: scale as u32 }),
        }),
{
}

/// A leaf is found by its whole name, and of several the first is.
pub proof fn law_find_leaf(leaves: Seq<SchemaLeafView>, j: int)
    requires
        0 <= j < leaves.len(),
        forall|k: int| 0 <= k < j ==> (#[trigger] leaves[k]).name != leaves[j].name,
    ensures
        find_leaf(leaves, leaves[j].name) == Some(leaves[j]),
    decreases j,
{
    if j > 0 {
        let rest = leaves.drop_first();
        assert(leaves[0].name != leaves[j].name);
        assert forall|k: int| 0 <= k < j - 1 implies (#[trigger] rest[k]).name != rest[j - 1].name by {
            assert(rest[k] == leaves[k + 1]);
        }
        law_find_leaf(rest, j - 1);
    }
}

} // verus!
