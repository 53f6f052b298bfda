//! The nearest-hit contract shared by every primitive and aggregate, the
//! linear scan of a scene list, and the choices of the primitives' hit tests
//! that depend only on the order of ray parameters.
//!
//! A ray parameter `t` is known here by an integer order key: keys compare as
//! the parameters do. The geometry of a hit test is the caller's: it is handed
//! in as a function from a primitive's position and an open window of keys to
//! the nearest hit of that primitive strictly inside the window, if any, as its
//! key and a record of the caller's type `H`.
//!
//! Keys of `f32` parameters come from their bit patterns: a float orders, by
//! the IEEE 754 total order, as the signed magnitude of its bits.
//!
//! The contracts speak of a hit model: for each primitive, the set of keys at
//! which the ray meets it. A hit test is faithful to a model when it returns
//! the least key of that set inside the window, and nothing when there is none.

use vstd::prelude::*;

verus! {

/// The signed magnitude of a 32-bit pattern whose top bit is the sign: the
/// low 31 bits as a number, negated and shifted down by one when the sign
/// is set, so that a negative zero sits just below a positive zero.
pub open spec fn signed_magnitude(bits: u32) -> int {
    if bits >= 0x8000_0000 {
        -((bits - 0x8000_0000) as int) - 1
    } else {
        bits as int
    }
}

/// The order key of the float with bit pattern `bits`.
pub fn order_key(bits: u32) -> (r: i32)
    ensures
        r as int == signed_magnitude(bits),
{
    if bits >= 0x8000_0000 {
        let magnitude = bits - 0x8000_0000;
        -(magnitude as i32) - 1
    } else {
        bits as i32
    }
}

/// The bit pattern of the float with order key `key`.
pub fn bits_of_order_key(key: i32) -> (r: u32)
    ensures
        signed_magnitude(r) == key as int,
{
    if key < 0 {
        (-(key + 1)) as u32 + 0x8000_0000
    } else {
        key as u32
    }
}

/// Of the two roots `near <= far` of a ray's intersection equation, the one
/// that a hit test reports inside the open window `(lo, hi)`: the nearer if
/// it lies inside, else the farther if it does, else none.
pub fn root_in_window(lo: i32, hi: i32, near: i32, far: i32) -> (r: Option<i32>)
    ensures
        r == if lo < near < hi {
            Some(near)
        } else if lo < far < hi {
            Some(far)
        } else {
            None::<i32>
        },
{
    if lo < near && near < hi {
        Some(near)
    } else if lo < far && far < hi {
        Some(far)
    } else {
        None
    }
}

/// The larger of two keys.
pub open spec fn key_max(a: i32, b: i32) -> i32 {
    if a < b {
        b
    } else {
        a
    }
}

/// The smaller of two keys.
pub open spec fn key_min(a: i32, b: i32) -> i32 {
    if a < b {
        a
    } else {
        b
    }
}

/// The stretch of a ray inside a volume that it enters at `enter` and leaves
/// at `exit`, clipped to the window `(lo, hi)`: nothing when the clipped
/// stretch is empty, else its ends, with the start moved up to the ray's
/// origin (key 0) when it lies behind it.
pub fn clip_span(lo: i32, hi: i32, enter: i32, exit: i32) -> (r: Option<(i32, i32)>)
    ensures
        r == if key_max(enter, lo) >= key_min(exit, hi) {
            None::<(i32, i32)>
        } else {
            Some((key_max(key_max(enter, lo), 0), key_min(exit, hi)))
        },
{
    let start = if enter < lo {
        lo
    } else {
        enter
    };
    let end = if exit > hi {
        hi
    } else {
        exit
    };
    if start >= end {
        None
    } else if start < 0 {
        Some((0, end))
    } else {
        Some((start, end))
    }
}

/// Some primitive of `prims` is met at `t`, strictly inside `(lo, hi)`.
pub open spec fn has_hit_in(
    hits: spec_fn(usize) -> Set<int>,
    prims: Seq<usize>,
    lo: int,
    hi: int,
    t: int,
) -> bool {
    &&& lo < t < hi
    &&& exists|k: int| 0 <= k < prims.len() && #[trigger] hits(prims[k]).contains(t)
}

/// `r` is the nearest hit of `prims` inside `(lo, hi)`: nothing when none of
/// them is met there, else the least key at which one of them is met.
pub open spec fn nearest_result(
    hits: spec_fn(usize) -> Set<int>,
    prims: Seq<usize>,
    lo: int,
    hi: int,
    r: Option<int>,
) -> bool {
    match r {
        None => forall|u: int| !has_hit_in(hits, prims, lo, hi, u),
        Some(t) => has_hit_in(hits, prims, lo, hi, t) && forall|u: int|
            has_hit_in(hits, prims, lo, hi, u) ==> t <= u,
    }
}

/// The key of a hit result.
pub open spec fn key_of_hit<H>(r: Option<(i32, H)>) -> Option<int> {
    match r {
        Some((t, _)) => Some(t as int),
        None => None,
    }
}

/// The primitive hit test `prim` is faithful to the hit model `hits`.
pub open spec fn prim_model<H, FP: Fn(usize, i32, i32) -> Option<(i32, H)>>(
    prim: FP,
    hits: spec_fn(usize) -> Set<int>,
) -> bool {
    forall|p: usize, lo: i32, hi: i32, r: Option<(i32, H)>|
        #[trigger] prim.ensures((p, lo, hi), r) ==> nearest_result(
            hits,
            seq![p],
            lo as int,
            hi as int,
            key_of_hit(r),
        )
}

/// Two nearest results over primitive lists with the same members agree.
pub proof fn lemma_nearest_unique(
    hits: spec_fn(usize) -> Set<int>,
    a: Seq<usize>,
    b: Seq<usize>,
    lo: int,
    hi: int,
    ra: Option<int>,
    rb: Option<int>,
)
    requires
        a.to_set() == b.to_set(),
        nearest_result(hits, a, lo, hi, ra),
        nearest_result(hits, b, lo, hi, rb),
    ensures
        ra == rb,
{
    assert forall|u: int| has_hit_in(hits, a, lo, hi, u) <==> has_hit_in(hits, b, lo, hi, u) by {
        if has_hit_in(hits, a, lo, hi, u) {
            let k = choose|k: int| 0 <= k < a.len() && #[trigger] hits(a[k]).contains(u);
            assert(a.to_set().contains(a[k]));
            assert(b.to_set().contains(a[k]));
            let j = choose|j: int| 0 <= j < b.len() && b[j] == a[k];
            assert(hits(b[j]).contains(u));
        }
        if has_hit_in(hits, b, lo, hi, u) {
            let k = choose|k: int| 0 <= k < b.len() && #[trigger] hits(b[k]).contains(u);
            assert(b.to_set().contains(b[k]));
            assert(a.to_set().contains(b[k]));
            let j = choose|j: int| 0 <= j < a.len() && a[j] == b[k];
            assert(hits(a[j]).contains(u));
        }
    }
    match (ra, rb) {
        (Some(x), Some(y)) => {
            assert(x <= y);
            assert(y <= x);
        },
        (Some(x), None) => {
            assert(has_hit_in(hits, b, lo, hi, x));
        },
        (None, Some(y)) => {
            assert(has_hit_in(hits, a, lo, hi, y));
        },
        (None, None) => {},
    }
}

/// No primitive before `p` is met at key `t`, under any hit model that the
/// hit test `prim` is faithful to.
pub open spec fn none_before<H, FP: Fn(usize, i32, i32) -> Option<(i32, H)>>(
    prim: FP,
    p: usize,
    t: int,
) -> bool {
    forall|hits: spec_fn(usize) -> Set<int>|
        #[trigger] prim_model(prim, hits) ==> forall|q: usize|
            q < p ==> !#[trigger] hits(q).contains(t)
}

/// The primitive positions `0..n` in order.
pub open spec fn scene_order(n: nat) -> Seq<usize> {
    Seq::new(n, |i: int| i as usize)
}

/// The nearest hit among the primitives `0..count` inside `(lo, hi)`, found
/// by testing each in turn over a window that ends at the nearest hit so far.
/// Of two hits at the same key the earlier primitive's is kept: the record
/// returned is one that the test of some primitive `p` returned over a window
/// starting at `lo`, and no primitive before `p` is met at its key.
pub fn hit_linear<H, FP: Fn(usize, i32, i32) -> Option<(i32, H)>>(
    count: usize,
    prim: &FP,
    lo: i32,
    hi: i32,
) -> (r: Option<(i32, H)>)
    requires
        forall|p: usize, l: i32, h: i32| #[trigger] prim.requires((p, l, h)),
    ensures
        forall|hits: spec_fn(usize) -> Set<int>|
            #[trigger] prim_model(*prim, hits) ==> nearest_result(
                hits,
                scene_order(count as nat),
                lo as int,
                hi as int,
                key_of_hit(r),
            ),
        r matches Some(x) ==> exists|p: usize, h: i32|
            p < count && #[trigger] prim.ensures((p, lo, h), Some(x)) && none_before(
                *prim,
                p,
                x.0 as int,
            ),
{
    let mut closest = hi;
    let mut result: Option<(i32, H)> = None;
    let ghost mut src_p: usize = 0;
    let ghost mut src_h: i32 = 0;
    let mut p: usize = 0;
    while p < count
        invariant
            p <= count,
            forall|p: usize, l: i32, h: i32| #[trigger] prim.requires((p, l, h)),
            key_of_hit(result) is None ==> closest == hi,
            key_of_hit(result) matches Some(t) ==> closest == t,
            forall|hits: spec_fn(usize) -> Set<int>|
                #[trigger] prim_model(*prim, hits) ==> nearest_result(
                    hits,
                    scene_order(p as nat),
                    lo as int,
                    hi as int,
                    key_of_hit(result),
                ),
            result matches Some(x) ==> src_p < p && prim.ensures((src_p, lo, src_h), Some(x))
                && none_before(*prim, src_p, x.0 as int),
        decreases count - p,
    {
        let ghost before = key_of_hit(result);
        let ghost closest0 = closest;
        let found = prim(p, lo, closest);
        let ghost found_spec = found;
        match found {
            Some(x) => {
                closest = x.0;
                result = Some(x);
                proof {
                    src_p = p;
                    src_h = closest0;
                }
            },
            None => {},
        }
        proof {
            if found_spec is Some {
                let t = found_spec->Some_0.0 as int;
                assert(result == found_spec);
                assert forall|hits: spec_fn(usize) -> Set<int>| #[trigger]
                    prim_model(*prim, hits) implies forall|q: usize|
                    q < p ==> !#[trigger] hits(q).contains(t) by {
                    let old_s = scene_order(p as nat);
                    assert(nearest_result(hits, old_s, lo as int, hi as int, before));
                    assert(nearest_result(hits, seq![p], lo as int, closest0 as int, Some(t)));
                    assert forall|q: usize| q < p implies !#[trigger] hits(q).contains(t) by {
                        if hits(q).contains(t) {
                            assert(old_s[q as int] == q);
                            assert(has_hit_in(hits, old_s, lo as int, hi as int, t));
                        }
                    }
                }
            }
        }
        proof {
            assert forall|hits: spec_fn(usize) -> Set<int>| #[trigger]
                prim_model(*prim, hits) implies nearest_result(
                hits,
                scene_order((p + 1) as nat),
                lo as int,
                hi as int,
                key_of_hit(result),
            ) by {
                let old_s = scene_order(p as nat);
                let new_s = scene_order((p + 1) as nat);
                assert(nearest_result(hits, old_s, lo as int, hi as int, before));
                assert(nearest_result(hits, seq![p], lo as int, closest0 as int, key_of_hit(found)));
                assert forall|u: int| #[trigger]
                    has_hit_in(hits, new_s, lo as int, hi as int, u) <==> (has_hit_in(
                        hits,
                        old_s,
                        lo as int,
                        hi as int,
                        u,
                    ) || (lo < u < hi && hits(p).contains(u))) by {
                    if has_hit_in(hits, new_s, lo as int, hi as int, u) {
                        let k = choose|k: int|
                            0 <= k < new_s.len() && #[trigger] hits(new_s[k]).contains(u);
                        if k < p {
                            assert(old_s[k] == new_s[k]);
                        }
                    }
                    if has_hit_in(hits, old_s, lo as int, hi as int, u) {
                        let k = choose|k: int|
                            0 <= k < old_s.len() && #[trigger] hits(old_s[k]).contains(u);
                        assert(old_s[k] == new_s[k]);
                    }
                    if lo < u < hi && hits(p).contains(u) {
                        assert(new_s[p as int] == p);
                    }
                }
                match found {
                    Some(x) => {
                        assert(has_hit_in(hits, seq![p], lo as int, closest0 as int, x.0 as int));
                        assert(seq![p][0] == p);
                        assert forall|u: int| has_hit_in(
                            hits,
                            new_s,
                            lo as int,
                            hi as int,
                            u,
                        ) implies x.0 <= u by {
                            if lo < u < closest0 && hits(p).contains(u) {
                                assert(seq![p][0] == p);
                                assert(has_hit_in(hits, seq![p], lo as int, closest0 as int, u));
                            }
                        }
                    },
                    None => {
                        assert forall|u: int|
                            lo < u < closest0 && #[trigger] hits(p).contains(u) implies false by {
                            assert(seq![p][0] == p);
                            assert(has_hit_in(hits, seq![p], lo as int, closest0 as int, u));
                        }
                    },
                }
            }
        }
        p = p + 1;
    }
    result
}

} // verus!
