//! Date helpers.
use vstd::prelude::*;

use crate::text::{chars_of, parse_int, parse_integer, pieces, split_by, split_ranges};

verus! {

/// The `-`-separated pieces of an ISO-like date string.
pub open spec fn date_parts(s: Seq<char>) -> Seq<Seq<char>> {
    split_by(s, '-')
}

/// `s` has at least three `-`-separated pieces, the first a valid `i32`
/// and the next two valid `u8` (with `str::parse` semantics).
pub open spec fn is_iso_date(s: Seq<char>) -> bool {
    let p = date_parts(s);
    &&& p.len() >= 3
    &&& parse_int(p[0], -0x8000_0000, 0x7fff_ffff) is Ok
    &&& parse_int(p[1], 0, 0xff) is Ok
    &&& parse_int(p[2], 0, 0xff) is Ok
}

/// Parse an ISO-like date string `YYYY-MM-DD` into a `(year, month, day)`
/// tuple: the first three `-`-separated pieces, parsed as integers.
///
/// This does not check that the date exists; the caller validates it.
/// Pieces after the third are ignored.
pub fn parse_iso_date(s: &str) -> (r: (i32, u8, u8))
    requires
        is_iso_date(s@),
    ensures
        parse_int(date_parts(s@)[0], -0x8000_0000, 0x7fff_ffff) == Ok::<int, crate::text::IntError>(r.0 as int),
        parse_int(date_parts(s@)[1], 0, 0xff) == Ok::<int, crate::text::IntError>(r.1 as int),
        parse_int(date_parts(s@)[2], 0, 0xff) == Ok::<int, crate::text::IntError>(r.2 as int),
{
    let v = chars_of(s);
    let rs = split_ranges(&v, '-');
    let ghost p = pieces(v@, rs@);
    let mut parts: Vec<Vec<char>> = Vec::new();
    let mut k: usize = 0;
    while k < 3
        invariant
            k <= 3 <= rs@.len(),
            parts@.len() == k,
            forall|j: int| 0 <= j < rs@.len() ==> #[trigger] rs@[j].0 <= rs@[j].1 <= v@.len(),
            forall|j: int| 0 <= j < k ==> #[trigger] parts@[j]@ == p[j],
            p == pieces(v@, rs@),
        decreases 3 - k,
    {
        let (lo, hi) = rs[k];
        let mut piece: Vec<char> = Vec::new();
        let mut i = lo;
        while i < hi
            invariant
                lo <= i <= hi <= v@.len(),
                piece@ == v@.subrange(lo as int, i as int),
            decreases hi - i,
        {
            piece.push(v[i]);
            assert(v@.subrange(lo as int, i + 1) == v@.subrange(lo as int, i as int).push(v@[i as int]));
            i += 1;
        }
        parts.push(piece);
        k += 1;
    }
    let y = parse_integer(&parts[0], -0x8000_0000, 0x7fff_ffff);
    let m = parse_integer(&parts[1], 0, 0xff);
    let d = parse_integer(&parts[2], 0, 0xff);
    match (y, m, d) {
        (Ok(y), Ok(m), Ok(d)) => (y as i32, m as u8, d as u8),
        _ => {
            proof {
                assert(false);
            }
            (0, 0, 0)
        },
    }
}

} // verus!
