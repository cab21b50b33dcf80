//! Columns of vectors.

use arrow_array::{Array, FixedSizeListArray};
use vstd::prelude::*;

verus! {

/// Type declaration of [`arrow_array::FixedSizeListArray`], a column of vectors
/// of one width.
#[verifier::external_type_specification]
#[verifier::external_body]
pub struct ExFixedSizeListArray(FixedSizeListArray);

/// The number of vectors in a column.
pub uninterp spec fn list_len(list: FixedSizeListArray) -> nat;

/// The width of the vectors in a column.
pub uninterp spec fn list_value_length(list: FixedSizeListArray) -> int;

/// Whether the vectors in a column are made of floating point numbers.
pub uninterp spec fn list_is_floating(list: FixedSizeListArray) -> bool;

/// Whether the type that the vectors in a column are made of has fields: whether
/// it is a list, a struct, a union, a map, run-end encoded, or a dictionary with
/// such keys or values.
pub uninterp spec fn list_has_fields(list: FixedSizeListArray) -> bool;

/// The name of the type that the vectors in a column are made of, if it has no
/// fields.
pub uninterp spec fn list_type_text(list: FixedSizeListArray) -> Seq<char>;

/// [`FixedSizeListArray`]'s `len`, of [`Array`]: the number of vectors.
#[verifier::external_body]
pub(crate) fn count_rows(list: &FixedSizeListArray) -> (r: usize)
    ensures
        r == list_len(*list),
{
    list.len()
}

/// [`FixedSizeListArray::value_length`]: the width of the vectors.
pub assume_specification[ FixedSizeListArray::value_length ](list: &FixedSizeListArray) -> (r: i32)
    ensures
        r == list_value_length(*list),
;

/// `DataType::is_floating` of [`FixedSizeListArray::value_type`]: whether the
/// vectors are made of floating point numbers.
#[verifier::external_body]
pub(crate) fn is_floating(list: &FixedSizeListArray) -> (r: bool)
    ensures
        r == list_is_floating(*list),
{
    list.value_type().is_floating()
}

/// Whether the text is the name of a floating point type.
pub open spec fn is_floating_name(text: Seq<char>) -> bool {
    text == "Float16"@ || text == "Float32"@ || text == "Float64"@
}

/// The text that [`FixedSizeListArray::value_type`] is displayed as: for a type
/// without fields its name, which for a floating point type is one of three.
/// Nothing is claimed of a type with fields, since it is displayed with the
/// metadata of the fields, which comes in no fixed order.
#[verifier::external_body]
pub(crate) fn type_text(list: &FixedSizeListArray) -> (r: String)
    ensures
        !list_has_fields(*list) ==> r@ == list_type_text(*list),
        list_is_floating(*list) ==> r@ == list_type_text(*list) && is_floating_name(r@),
{
    list.value_type().to_string()
}

} // verus!
