//! Byte text made of comma-separated fields: splitting, joining, and the
//! white space that may surround a request.

use vstd::prelude::*;

verus! {

/// The byte that separates two fields.
pub const COMMA: u8 = 0x2c;

/// The fields of `text`: the runs of bytes between its commas, in order.
/// A text with `k` commas has `k + 1` fields; the empty text has one empty
/// field.
pub open spec fn split_fields(text: Seq<u8>) -> Seq<Seq<u8>>
    decreases text.len(),
{
    if text.len() == 0 {
        seq![Seq::<u8>::empty()]
    } else {
        let before = split_fields(text.drop_last());
        if text.last() == COMMA {
            before.push(Seq::<u8>::empty())
        } else {
            before.update(before.len() - 1, before.last().push(text.last()))
        }
    }
}

/// The fields written one after the other with a comma between neighbours.
pub open spec fn join_fields(fields: Seq<Seq<u8>>) -> Seq<u8>
    decreases fields.len(),
{
    if fields.len() == 0 {
        Seq::<u8>::empty()
    } else if fields.len() == 1 {
        fields[0]
    } else {
        join_fields(fields.drop_last()) + seq![COMMA] + fields.last()
    }
}

/// No byte of `field` is a comma.
pub open spec fn comma_free(field: Seq<u8>) -> bool {
    forall|i: int| 0 <= i < field.len() ==> field[i] != COMMA
}

/// Every field is free of commas.
pub open spec fn all_comma_free(fields: Seq<Seq<u8>>) -> bool {
    forall|k: int| 0 <= k < fields.len() ==> comma_free(#[trigger] fields[k])
}

/// The byte contents of a vector of owned fields.
pub open spec fn field_views(fields: Seq<Vec<u8>>) -> Seq<Seq<u8>> {
    Seq::new(fields.len(), |k: int| fields[k]@)
}

/// One-byte white space: tab, line feed, vertical tab, form feed, carriage
/// return (U+0009 to U+000D) and space (U+0020).
pub open spec fn is_space_byte(b: u8) -> bool {
    (0x09 <= b <= 0x0d) || b == 0x20
}

/// Two-byte white space in UTF-8: next line (U+0085) and no-break space
/// (U+00A0).
pub open spec fn is_space_pair(a: u8, b: u8) -> bool {
    a == 0xc2 && (b == 0x85 || b == 0xa0)
}

/// Three-byte white space in UTF-8: U+1680, U+2000 to U+200A, U+2028,
/// U+2029, U+202F, U+205F and U+3000.
pub open spec fn is_space_triple(a: u8, b: u8, c: u8) -> bool {
    ||| (a == 0xe1 && b == 0x9a && c == 0x80)
    ||| (a == 0xe2 && b == 0x80 && ((0x80 <= c <= 0x8a) || c == 0xa8 || c == 0xa9 || c == 0xaf))
    ||| (a == 0xe2 && b == 0x81 && c == 0x9f)
    ||| (a == 0xe3 && b == 0x80 && c == 0x80)
}

/// How many bytes the white-space character at the start of `text` takes;
/// zero when `text` does not start with white space.
pub open spec fn leading_space(text: Seq<u8>) -> nat {
    if text.len() >= 1 && is_space_byte(text[0]) {
        1
    } else if text.len() >= 2 && is_space_pair(text[0], text[1]) {
        2
    } else if text.len() >= 3 && is_space_triple(text[0], text[1], text[2]) {
        3
    } else {
        0
    }
}

/// How many bytes the white-space character at the end of `text` takes;
/// zero when `text` does not end with white space.
pub open spec fn trailing_space(text: Seq<u8>) -> nat {
    let n = text.len() as int;
    if n >= 1 && is_space_byte(text[n - 1]) {
        1
    } else if n >= 2 && is_space_pair(text[n - 2], text[n - 1]) {
        2
    } else if n >= 3 && is_space_triple(text[n - 3], text[n - 2], text[n - 1]) {
        3
    } else {
        0
    }
}

/// `text` without the white space it starts with.
pub open spec fn trim_start(text: Seq<u8>) -> Seq<u8>
    decreases text.len(),
{
    if leading_space(text) == 0 {
        text
    } else {
        trim_start(text.skip(leading_space(text) as int))
    }
}

/// `text` without the white space it ends with.
pub open spec fn trim_end(text: Seq<u8>) -> Seq<u8>
    decreases text.len(),
{
    if trailing_space(text) == 0 {
        text
    } else {
        trim_end(text.take(text.len() - trailing_space(text)))
    }
}

/// `text` without the white space around it. On UTF-8 text this removes the
/// characters with the Unicode property White_Space from both ends.
pub open spec fn trim_space(text: Seq<u8>) -> Seq<u8> {
    trim_end(trim_start(text))
}

/// Measures the white-space character at the start of `text[from..to]`.
fn leading_space_len(text: &[u8], from: usize, to: usize) -> (len: usize)
    requires
        from <= to <= text@.len(),
    ensures
        len == leading_space(text@.subrange(from as int, to as int)),
{
    let avail = to - from;
    if avail >= 1 && ((0x09 <= text[from] && text[from] <= 0x0d) || text[from] == 0x20) {
        1
    } else if avail >= 2 && text[from] == 0xc2 && (text[from + 1] == 0x85 || text[from + 1]
        == 0xa0) {
        2
    } else if avail >= 3 {
        let a = text[from];
        let b = text[from + 1];
        let c = text[from + 2];
        if (a == 0xe1 && b == 0x9a && c == 0x80) || (a == 0xe2 && b == 0x80 && ((0x80 <= c && c
            <= 0x8a) || c == 0xa8 || c == 0xa9 || c == 0xaf)) || (a == 0xe2 && b == 0x81 && c
            == 0x9f) || (a == 0xe3 && b == 0x80 && c == 0x80) {
            3
        } else {
            0
        }
    } else {
        0
    }
}

/// Measures the white-space character at the end of `text[from..to]`.
fn trailing_space_len(text: &[u8], from: usize, to: usize) -> (len: usize)
    requires
        from <= to <= text@.len(),
    ensures
        len == trailing_space(text@.subrange(from as int, to as int)),
{
    let avail = to - from;
    if avail >= 1 && ((0x09 <= text[to - 1] && text[to - 1] <= 0x0d) || text[to - 1] == 0x20) {
        1
    } else if avail >= 2 && text[to - 2] == 0xc2 && (text[to - 1] == 0x85 || text[to - 1]
        == 0xa0) {
        2
    } else if avail >= 3 {
        let a = text[to - 3];
        let b = text[to - 2];
        let c = text[to - 1];
        if (a == 0xe1 && b == 0x9a && c == 0x80) || (a == 0xe2 && b == 0x80 && ((0x80 <= c && c
            <= 0x8a) || c == 0xa8 || c == 0xa9 || c == 0xaf)) || (a == 0xe2 && b == 0x81 && c
            == 0x9f) || (a == 0xe3 && b == 0x80 && c == 0x80) {
            3
        } else {
            0
        }
    } else {
        0
    }
}

/// Removes the white space around `text`.
pub fn trim(text: &[u8]) -> (inner: &[u8])
    ensures
        inner@ == trim_space(text@),
{
    let mut from: usize = 0;
    let to: usize = text.len();
    assert(text@.subrange(0, to as int) == text@);
    loop
        invariant
            from <= to == text@.len(),
            trim_start(text@) == trim_start(text@.subrange(from as int, to as int)),
        ensures
            from <= to == text@.len(),
            trim_start(text@) == text@.subrange(from as int, to as int),
        decreases to - from,
    {
        let step = leading_space_len(text, from, to);
        if step == 0 {
            break ;
        }
        proof {
            let rest = text@.subrange(from as int, to as int);
            assert(rest.skip(step as int) == text@.subrange(from + step, to as int));
        }
        from = from + step;
    }
    let mut to: usize = to;
    loop
        invariant
            from <= to <= text@.len(),
            trim_space(text@) == trim_end(text@.subrange(from as int, to as int)),
        ensures
            from <= to <= text@.len(),
            trim_space(text@) == text@.subrange(from as int, to as int),
        decreases to - from,
    {
        let step = trailing_space_len(text, from, to);
        if step == 0 {
            break ;
        }
        proof {
            let rest = text@.subrange(from as int, to as int);
            assert(rest.take(rest.len() - step) == text@.subrange(from as int, to - step));
        }
        to = to - step;
    }
    vstd::slice::slice_subrange(text, from, to)
}

/// Cuts `text` at its commas.
pub fn split(text: &[u8]) -> (fields: Vec<Vec<u8>>)
    ensures
        field_views(fields@) == split_fields(text@),
{
    let mut fields: Vec<Vec<u8>> = Vec::new();
    let mut current: Vec<u8> = Vec::new();
    let mut i: usize = 0;
    while i < text.len()
        invariant
            i <= text@.len(),
            field_views(fields@).push(current@) == split_fields(text@.take(i as int)),
        decreases text@.len() - i,
    {
        let b = text[i];
        proof {
            assert(text@.take(i + 1).drop_last() == text@.take(i as int));
        }
        let ghost before = field_views(fields@).push(current@);
        if b == COMMA {
            fields.push(current);
            current = Vec::new();
            assert(field_views(fields@).push(current@) == before.push(Seq::<u8>::empty()));
        } else {
            current.push(b);
            assert(field_views(fields@).push(current@) == before.update(
                before.len() - 1,
                before.last().push(b),
            ));
        }
        i = i + 1;
    }
    proof {
        assert(text@.take(text@.len() as int) == text@);
        assert(field_views(fields@.push(current)) == field_views(fields@).push(current@));
    }
    fields.push(current);
    fields
}

/// Writes the bytes of `piece` at the end of `text`.
pub(crate) fn append(text: &mut Vec<u8>, piece: &[u8])
    ensures
        final(text)@ == old(text)@ + piece@,
{
    let mut i: usize = 0;
    while i < piece.len()
        invariant
            i <= piece@.len(),
            text@ == old(text)@ + piece@.take(i as int),
        decreases piece@.len() - i,
    {
        text.push(piece[i]);
        i = i + 1;
    }
    assert(piece@.take(piece@.len() as int) == piece@);
}

/// Writes the fields one after the other with a comma between neighbours.
pub fn join(fields: &Vec<Vec<u8>>) -> (text: Vec<u8>)
    ensures
        text@ == join_fields(field_views(fields@)),
{
    let mut text: Vec<u8> = Vec::new();
    let mut k: usize = 0;
    while k < fields.len()
        invariant
            k <= fields@.len(),
            text@ == join_fields(field_views(fields@).take(k as int)),
        decreases fields@.len() - k,
    {
        let ghost done = field_views(fields@).take(k as int);
        let ghost next = field_views(fields@).take(k + 1);
        proof {
            assert(next.drop_last() == done);
            assert(next.last() == fields@[k as int]@);
        }
        if k > 0 {
            text.push(COMMA);
            assert(text@ == join_fields(done) + seq![COMMA]);
        }
        append(&mut text, fields[k].as_slice());
        k = k + 1;
    }
    assert(field_views(fields@).take(fields@.len() as int) == field_views(fields@));
    text
}

/// How many commas `text` holds.
pub open spec fn comma_count(text: Seq<u8>) -> nat
    decreases text.len(),
{
    if text.len() == 0 {
        0
    } else if text.last() == COMMA {
        comma_count(text.drop_last()) + 1
    } else {
        comma_count(text.drop_last())
    }
}

/// A text has one field more than it has commas, and none of its fields
/// holds a comma.
pub proof fn lemma_split_shape(text: Seq<u8>)
    ensures
        split_fields(text).len() == comma_count(text) + 1,
        all_comma_free(split_fields(text)),
    decreases text.len(),
{
    if text.len() > 0 {
        lemma_split_shape(text.drop_last());
        let before = split_fields(text.drop_last());
        let fields = split_fields(text);
        assert forall|k: int| 0 <= k < fields.len() implies comma_free(#[trigger] fields[k]) by {
            if k < before.len() - 1 {
                assert(fields[k] == before[k]);
            } else if k == before.len() - 1 {
                assert(comma_free(before[k]));
            }
        }
    }
}

/// Joining the fields of a text gives the text back.
pub proof fn lemma_join_split(text: Seq<u8>)
    ensures
        join_fields(split_fields(text)) == text,
    decreases text.len(),
{
    if text.len() > 0 {
        lemma_join_split(text.drop_last());
        lemma_split_shape(text.drop_last());
        let before = split_fields(text.drop_last());
        let fields = split_fields(text);
        if text.last() == COMMA {
            assert(fields.drop_last() == before);
            assert(join_fields(fields) == text.drop_last() + seq![COMMA] + Seq::<u8>::empty());
        } else if before.len() == 1 {
            assert(join_fields(fields) == text.drop_last().push(text.last()));
        } else {
            assert(fields.drop_last() == before.drop_last());
            assert(join_fields(fields) == (join_fields(before.drop_last()) + seq![COMMA]
                + before.last()).push(text.last()));
        }
        assert(text.drop_last().push(text.last()) == text);
    }
}

/// A text without a comma is a single field.
pub proof fn lemma_split_one(field: Seq<u8>)
    requires
        comma_free(field),
    ensures
        split_fields(field) == seq![field],
    decreases field.len(),
{
    if field.len() > 0 {
        let head = field.drop_last();
        assert(comma_free(head)) by {
            assert forall|i: int| 0 <= i < head.len() implies head[i] != COMMA by {
                assert(head[i] == field[i]);
            }
        }
        lemma_split_one(head);
        assert(head.push(field.last()) == field);
        assert(field.last() == field[field.len() - 1]);
        assert(split_fields(field) =~= seq![field]);
    } else {
        assert(field == Seq::<u8>::empty());
    }
}

/// A comma and a comma-free field at the end of a text add that field to
/// the fields of the text.
pub proof fn lemma_split_push(text: Seq<u8>, field: Seq<u8>)
    requires
        comma_free(field),
    ensures
        split_fields(text + seq![COMMA] + field) == split_fields(text).push(field),
    decreases field.len(),
{
    let whole = text + seq![COMMA] + field;
    if field.len() == 0 {
        assert(whole.drop_last() == text);
        assert(field == Seq::<u8>::empty());
    } else {
        let head = field.drop_last();
        assert(comma_free(head)) by {
            assert forall|i: int| 0 <= i < head.len() implies head[i] != COMMA by {
                assert(head[i] == field[i]);
            }
        }
        lemma_split_push(text, head);
        assert(whole.drop_last() == text + seq![COMMA] + head);
        assert(whole.last() == field[field.len() - 1]);
        assert(head.push(field.last()) == field);
        assert(split_fields(whole) =~= split_fields(text).push(field));
    }
}

/// Splitting what was joined gives the fields back, in their number and
/// order, provided there is at least one field and none holds a comma.
pub proof fn lemma_split_join(fields: Seq<Seq<u8>>)
    requires
        fields.len() >= 1,
        all_comma_free(fields),
    ensures
        split_fields(join_fields(fields)) == fields,
    decreases fields.len(),
{
    if fields.len() == 1 {
        lemma_split_one(fields[0]);
    } else {
        let head = fields.drop_last();
        assert(all_comma_free(head)) by {
            assert forall|k: int| 0 <= k < head.len() implies comma_free(#[trigger] head[k]) by {
                assert(head[k] == fields[k]);
            }
        }
        lemma_split_join(head);
        lemma_split_push(join_fields(head), fields.last());
        assert(head.push(fields.last()) == fields);
    }
}

} // verus!
