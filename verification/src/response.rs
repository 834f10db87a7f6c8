//! The response: the coordinates of the surface in the order of emission,
//! then the least and the greatest third coordinate, with commas between.

use crate::grid::buffer_len;
use crate::text::{
    all_comma_free, append, comma_free, field_views, join, join_fields, lemma_split_join,
    split_fields, COMMA,
};
use vstd::prelude::*;

verus! {

/// The text of a response: the values joined by commas, then a comma and
/// the least third coordinate, then a comma and the greatest.
pub open spec fn response_text(values: Seq<Seq<u8>>, z_min: Seq<u8>, z_max: Seq<u8>) -> Seq<u8> {
    join_fields(values) + seq![COMMA] + z_min + seq![COMMA] + z_max
}

/// Writes a response from the written forms of its numbers.
pub fn encode_response(values: &Vec<Vec<u8>>, z_min: &[u8], z_max: &[u8]) -> (text: Vec<u8>)
    ensures
        text@ == response_text(field_views(values@), z_min@, z_max@),
{
    let mut text = join(values);
    text.push(COMMA);
    append(&mut text, z_min);
    text.push(COMMA);
    append(&mut text, z_max);
    text
}

/// The response to a surface with at least one value is the list of its
/// values and of the two ends of the range, joined by commas.
pub proof fn lemma_response_is_join(values: Seq<Seq<u8>>, z_min: Seq<u8>, z_max: Seq<u8>)
    requires
        values.len() >= 1,
    ensures
        response_text(values, z_min, z_max) == join_fields(values.push(z_min).push(z_max)),
{
    let with_min = values.push(z_min);
    let all = with_min.push(z_max);
    assert(all.drop_last() == with_min);
    assert(with_min.drop_last() == values);
    assert(join_fields(with_min) == join_fields(values) + seq![COMMA] + z_min);
    assert(join_fields(all) == join_fields(with_min) + seq![COMMA] + z_max);
}

/// Cutting a response at its commas gives back the written numbers, in
/// their number and order: first the values, then the least and the
/// greatest third coordinate. This holds when there is at least one value
/// and no written number holds a comma.
pub proof fn lemma_response_fields(values: Seq<Seq<u8>>, z_min: Seq<u8>, z_max: Seq<u8>)
    requires
        values.len() >= 1,
        all_comma_free(values),
        comma_free(z_min),
        comma_free(z_max),
    ensures
        split_fields(response_text(values, z_min, z_max)) == values.push(z_min).push(z_max),
{
    lemma_response_is_join(values, z_min, z_max);
    lemma_split_join(values.push(z_min).push(z_max));
}

/// Writing a response again from the fields it was cut into gives the same
/// text, byte for byte.
pub proof fn lemma_response_rewritten(values: Seq<Seq<u8>>, z_min: Seq<u8>, z_max: Seq<u8>)
    requires
        values.len() >= 1,
        all_comma_free(values),
        comma_free(z_min),
        comma_free(z_max),
    ensures
        ({
            let text = response_text(values, z_min, z_max);
            let fields = split_fields(text);
            &&& fields.len() == values.len() + 2
            &&& response_text(
                fields.take(fields.len() - 2),
                fields[fields.len() - 2],
                fields[fields.len() - 1],
            ) == text
        }),
{
    lemma_response_fields(values, z_min, z_max);
    let fields = values.push(z_min).push(z_max);
    assert(fields.take(fields.len() - 2) == values);
}

/// The text of a response depends on the written numbers and on nothing
/// else: the same values and the same range give the same bytes.
pub proof fn lemma_same_numbers_same_response(
    values: Seq<Seq<u8>>,
    z_min: Seq<u8>,
    z_max: Seq<u8>,
    others: Seq<Seq<u8>>,
    other_min: Seq<u8>,
    other_max: Seq<u8>,
)
    requires
        values.len() == others.len(),
        forall|k: int| 0 <= k < values.len() ==> values[k] =~= others[k],
        z_min =~= other_min,
        z_max =~= other_max,
    ensures
        response_text(values, z_min, z_max) == response_text(others, other_min, other_max),
{
    assert(values =~= others);
}

/// The response to a surface of order `n >= 1` has
/// `3 * n * n * (subdivisions + 1) * (subdivisions + 1)` fields for the
/// coordinates and two more for the range.
pub proof fn lemma_response_count(
    n: u32,
    subdivisions: u32,
    values: Seq<Seq<u8>>,
    z_min: Seq<u8>,
    z_max: Seq<u8>,
)
    requires
        n >= 1,
        values.len() == buffer_len(n, subdivisions),
        all_comma_free(values),
        comma_free(z_min),
        comma_free(z_max),
    ensures
        split_fields(response_text(values, z_min, z_max)).len() == 3 * (n * n) * ((subdivisions
            + 1) * (subdivisions + 1)) + 2,
{
    assert(buffer_len(n, subdivisions) == 3 * (n * n) * ((subdivisions + 1) * (subdivisions
        + 1))) by (nonlinear_arith)
        requires
            buffer_len(n, subdivisions) == 3 * ((n * n) * ((subdivisions + 1) * (subdivisions
                + 1))),
    ;
    assert(buffer_len(n, subdivisions) >= 1) by (nonlinear_arith)
        requires
            buffer_len(n, subdivisions) == 3 * ((n * n) * ((subdivisions + 1) * (subdivisions
                + 1))),
            n >= 1,
            subdivisions >= 0,
    ;
    lemma_response_fields(values, z_min, z_max);
}

} // verus!
