//! Ephemeris body bookkeeping: the descriptors of the bodies that a loaded
//! kernel covers.
use vstd::prelude::*;
use vstd::string::StringExecFns;

use crate::error::NaifId;
use crate::text::{push_signed_decimal, signed_decimal};

verus! {

/// Descriptor for a body in the ephemeris.
#[derive(Debug)]
pub struct BodyDescriptor {
    pub naif_id: NaifId,
    pub name: String,
    pub center: NaifId,
}

/// The index of the first `(target, center)` pair whose target is `id`, or -1.
pub open spec fn first_occurrence(p: Seq<(NaifId, NaifId)>, id: NaifId) -> int
    decreases p.len(),
{
    if p.len() == 0 {
        -1
    } else {
        let f = first_occurrence(p.drop_last(), id);
        if f >= 0 {
            f
        } else if p.last().0 == id {
            p.len() - 1
        } else {
            -1
        }
    }
}

/// The display name of a body: `NAIF <id>`.
pub open spec fn body_name(id: NaifId) -> Seq<char> {
    "NAIF "@ + signed_decimal(id as int)
}

/// `r` describes the bodies of the `(target, center)` pairs `p`: one
/// descriptor per distinct target, in ascending order of NAIF ID, each with
/// the center of the first pair naming that target.
pub open spec fn describes(r: Seq<BodyDescriptor>, p: Seq<(NaifId, NaifId)>) -> bool {
    &&& forall|i: int, j: int| 0 <= i < j < r.len() ==> r[i].naif_id < r[j].naif_id
    &&& forall|i: int|
        0 <= i < r.len() ==> {
            &&& first_occurrence(p, #[trigger] r[i].naif_id) >= 0
            &&& r[i].center == p[first_occurrence(p, r[i].naif_id)].1
            &&& r[i].name@ == body_name(r[i].naif_id)
        }
    &&& forall|k: int| 0 <= k < p.len() ==> exists|i: int| 0 <= i < r.len() && #[trigger] r[i].naif_id == #[trigger] p[k].0
}

proof fn lemma_first_occurrence(p: Seq<(NaifId, NaifId)>, id: NaifId)
    ensures
        -1 <= first_occurrence(p, id) < p.len(),
        first_occurrence(p, id) >= 0 ==> p[first_occurrence(p, id)].0 == id,
        first_occurrence(p, id) == -1 ==> forall|k: int| 0 <= k < p.len() ==> #[trigger] p[k].0 != id,
    decreases p.len(),
{
    if p.len() > 0 {
        let t = p.drop_last();
        lemma_first_occurrence(t, id);
        if first_occurrence(p, id) == -1 {
            assert forall|k: int| 0 <= k < p.len() implies #[trigger] p[k].0 != id by {
                if k < p.len() - 1 {
                    assert(p[k] == t[k]);
                }
            }
        } else if first_occurrence(t, id) >= 0 {
            assert(p[first_occurrence(t, id)] == t[first_occurrence(t, id)]);
        }
    }
}

/// The body descriptors for a kernel's segments, given as `(target,
/// center)` pairs in file order: one per distinct target body, in
/// ascending order of NAIF ID, named `NAIF <id>`, with the center of the
/// first segment for that body (a stable sort by ID followed by removal of
/// repeated IDs).
pub fn body_descriptors(segments: &[(NaifId, NaifId)]) -> (r: Vec<BodyDescriptor>)
    ensures
        describes(r@, segments@),
{
    let mut r: Vec<BodyDescriptor> = Vec::new();
    let mut k: usize = 0;
    while k < segments.len()
        invariant
            k <= segments@.len(),
            describes(r@, segments@.take(k as int)),
        decreases segments@.len() - k,
    {
        let (id, center) = segments[k];
        let ghost p = segments@.take(k as int);
        let ghost q = segments@.take(k + 1);
        assert(q.drop_last() == p);
        assert(q.last() == (id, center));
        // First position whose ID is at least `id`.
        let mut pos: usize = 0;
        while pos < r.len() && r[pos].naif_id < id
            invariant
                pos <= r@.len(),
                forall|i: int| 0 <= i < pos ==> #[trigger] r@[i].naif_id < id,
            decreases r@.len() - pos,
        {
            pos += 1;
        }
        proof {
            assert forall|i: int| 0 <= i < r@.len() implies #[trigger] first_occurrence(
                q,
                r@[i].naif_id,
            ) == first_occurrence(p, r@[i].naif_id) by {}
            assert forall|j: int| 0 <= j < p.len() implies #[trigger] q[j] == p[j] by {}
        }
        if pos < r.len() && r[pos].naif_id == id {
            proof {
                assert forall|j: int| 0 <= j < q.len() implies exists|i: int|
                    0 <= i < r@.len() && #[trigger] r@[i].naif_id == #[trigger] q[j].0 by {
                    if j == q.len() - 1 {
                        assert(r@[pos as int].naif_id == q[j].0);
                    } else {
                        assert(q[j] == p[j]);
                    }
                }
                assert(forall|i: int, j: int| 0 <= i < j < r@.len() ==> r@[i].naif_id < r@[j].naif_id);
                assert forall|i: int| 0 <= i < r@.len() implies {
                    &&& first_occurrence(q, #[trigger] r@[i].naif_id) >= 0
                    &&& r@[i].center == q[first_occurrence(q, r@[i].naif_id)].1
                    &&& r@[i].name@ == body_name(r@[i].naif_id)
                } by {
                    lemma_first_occurrence(p, r@[i].naif_id);
                    assert(q[first_occurrence(p, r@[i].naif_id)] == p[first_occurrence(p, r@[i].naif_id)]);
                }
                assert(describes(r@, q));
            }
        } else {
            proof {
                lemma_first_occurrence(p, id);
                if first_occurrence(p, id) >= 0 {
                    let j = first_occurrence(p, id);
                    let i = choose|i: int| 0 <= i < r@.len() && #[trigger] r@[i].naif_id == p[j].0;
                    if i < pos {
                    } else {
                        assert(pos < r@.len());
                        if i > pos {
                            assert(r@[pos as int].naif_id < r@[i].naif_id);
                        }
                    }
                    assert(false);
                }
                assert(first_occurrence(q, id) == k);
            }
            let mut name = String::from_str("NAIF ");
            push_signed_decimal(&mut name, id as i64);
            let ghost before = r@;
            r.insert(pos, BodyDescriptor { naif_id: id, name, center });
            proof {
                let d = r@[pos as int];
                assert(r@ == before.insert(pos as int, d));
                assert forall|i: int| 0 <= i < r@.len() implies #[trigger] r@[i] == if i < pos {
                    before[i]
                } else if i == pos {
                    d
                } else {
                    before[i - 1]
                } by {}
                assert forall|i: int, j: int| 0 <= i < j < r@.len() implies r@[i].naif_id
                    < r@[j].naif_id by {
                    if j == pos {
                        assert(r@[i] == before[i]);
                    } else if i == pos {
                        assert(r@[j] == before[j - 1]);
                        assert(before[pos as int].naif_id >= id);
                        if j - 1 > pos {
                            assert(before[pos as int].naif_id < before[j - 1].naif_id);
                        }
                        assert(before[pos as int].naif_id != id);
                    }
                }
                assert forall|i: int| 0 <= i < r@.len() implies {
                    &&& first_occurrence(q, #[trigger] r@[i].naif_id) >= 0
                    &&& r@[i].center == q[first_occurrence(q, r@[i].naif_id)].1
                    &&& r@[i].name@ == body_name(r@[i].naif_id)
                } by {
                    if i != pos {
                        let bi = if i < pos { i } else { i - 1 };
                        assert(r@[i] == before[bi]);
                        assert(first_occurrence(q, before[bi].naif_id) == first_occurrence(
                            p,
                            before[bi].naif_id,
                        ));
                        lemma_first_occurrence(p, before[bi].naif_id);
                        assert(q[first_occurrence(p, before[bi].naif_id)] == p[first_occurrence(
                            p,
                            before[bi].naif_id,
                        )]);
                    }
                }
                assert forall|j: int| 0 <= j < q.len() implies exists|i: int|
                    0 <= i < r@.len() && #[trigger] r@[i].naif_id == #[trigger] q[j].0 by {
                    if j == q.len() - 1 {
                        assert(r@[pos as int].naif_id == q[j].0);
                    } else {
                        assert(q[j] == p[j]);
                        let i = choose|i: int| 0 <= i < before.len() && #[trigger] before[i].naif_id == p[j].0;
                        let ri = if i < pos { i } else { i + 1 };
                        assert(r@[ri].naif_id == q[j].0);
                    }
                }
                assert(describes(r@, q));
            }
        }
        k += 1;
    }
    assert(segments@.take(segments@.len() as int) == segments@);
    r
}

} // verus!
