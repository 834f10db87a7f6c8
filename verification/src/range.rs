//! The range of the third coordinate over a buffer of emitted points.
//!
//! The buffer holds three coordinates for each point. A coordinate is
//! given by a key that orders it: a coordinate with the smaller key is the
//! smaller one, equal keys mean equal coordinates, and a coordinate that
//! cannot be ordered has no key.

use vstd::prelude::*;

verus! {

/// Where in the buffer the least and the greatest third coordinate stand.
#[derive(Clone, Copy, Debug, PartialEq, Eq, Structural)]
pub struct ZRange {
    /// The first position that holds the least third coordinate.
    pub min_at: usize,
    /// The first position that holds the greatest third coordinate.
    pub max_at: usize,
}

/// Position `p` holds the third coordinate of a point, and that coordinate
/// can be ordered.
pub open spec fn is_z(keys: Seq<Option<i64>>, p: int) -> bool {
    0 <= p < keys.len() && p % 3 == 2 && keys[p] is Some
}

/// `range` names the first position of the least and the first position of
/// the greatest among the third coordinates that can be ordered.
pub open spec fn is_z_range(keys: Seq<Option<i64>>, range: ZRange) -> bool {
    &&& is_z(keys, range.min_at as int)
    &&& is_z(keys, range.max_at as int)
    &&& forall|p: int| #[trigger]
        is_z(keys, p) ==> keys[range.min_at as int].unwrap() <= keys[p].unwrap()
            <= keys[range.max_at as int].unwrap()
    &&& forall|p: int| #[trigger]
        is_z(keys, p) && p < range.min_at ==> keys[range.min_at as int].unwrap()
            < keys[p].unwrap()
    &&& forall|p: int| #[trigger]
        is_z(keys, p) && p < range.max_at ==> keys[p].unwrap()
            < keys[range.max_at as int].unwrap()
}

/// Finds the range of the third coordinates in one pass over the buffer,
/// reading every third key from the third on and passing over those that
/// cannot be ordered. A buffer without a third coordinate that can be
/// ordered has no range.
pub fn z_range(keys: &[Option<i64>]) -> (range: Option<ZRange>)
    ensures
        match range {
            Some(range) => is_z_range(keys@, range),
            None => forall|p: int| !is_z(keys@, p),
        },
{
    let len: usize = keys.len();
    let points: usize = len / 3;
    let mut found: Option<ZRange> = None;
    let mut min_key: i64 = 0;
    let mut max_key: i64 = 0;
    let mut m: usize = 0;
    while m < points
        invariant
            len == keys@.len(),
            points == len / 3,
            m <= points,
            match found {
                Some(range) => {
                    &&& is_z(keys@, range.min_at as int)
                    &&& is_z(keys@, range.max_at as int)
                    &&& min_key == keys@[range.min_at as int].unwrap()
                    &&& max_key == keys@[range.max_at as int].unwrap()
                    &&& forall|p: int| #[trigger]
                        is_z(keys@, p) && p < 3 * m ==> min_key <= keys@[p].unwrap() <= max_key
                    &&& forall|p: int| #[trigger]
                        is_z(keys@, p) && p < range.min_at ==> min_key < keys@[p].unwrap()
                    &&& forall|p: int| #[trigger]
                        is_z(keys@, p) && p < range.max_at ==> keys@[p].unwrap() < max_key
                },
                None => forall|p: int| #[trigger] is_z(keys@, p) ==> p >= 3 * m,
            },
        decreases points - m,
    {
        let at: usize = 3 * m + 2;
        match keys[at] {
            Some(key) => {
                match found {
                    Some(range) => {
                        if key < min_key {
                            found = Some(ZRange { min_at: at, max_at: range.max_at });
                            min_key = key;
                        } else if key > max_key {
                            found = Some(ZRange { min_at: range.min_at, max_at: at });
                            max_key = key;
                        }
                    },
                    None => {
                        found = Some(ZRange { min_at: at, max_at: at });
                        min_key = key;
                        max_key = key;
                    },
                }
            },
            None => {},
        }
        m = m + 1;
    }
    found
}

} // verus!
