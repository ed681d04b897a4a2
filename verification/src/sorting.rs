//! Sorting texts into byte order.
use vstd::prelude::*;
use crate::order::{lemma_text_total, lemma_text_trans, text_before, text_precedes};

verus! {

/// Texts strictly ascending in byte order.
pub open spec fn sorted_texts(s: Seq<Seq<char>>) -> bool {
    forall|i: int, j: int| 0 <= i < j < s.len() ==> text_before(#[trigger] s[i], #[trigger] s[j])
}

/// The texts of strings.
pub open spec fn views(v: Seq<String>) -> Seq<Seq<char>> {
    v.map_values(|s: String| s@)
}

/// Sorts distinct strings into ascending byte order.
pub fn sort_texts(v: Vec<String>) -> (r: Vec<String>)
    requires
        forall|i: int, j: int| 0 <= i < j < v@.len() ==> (#[trigger] v@[i])@ != (#[trigger] v@[j])@,
    ensures
        sorted_texts(views(r@)),
        r@.len() == v@.len(),
        forall|y: Seq<char>| views(r@).contains(y) <==> views(v@).contains(y),
{
    let mut out: Vec<String> = Vec::new();
    let mut i: usize = 0;
    while i < v.len()
        invariant
            i <= v@.len(),
            out@.len() == i,
            forall|a: int, b: int| 0 <= a < b < v@.len() ==> (#[trigger] v@[a])@ != (#[trigger] v@[b])@,
            sorted_texts(views(out@)),
            forall|y: Seq<char>| views(out@).contains(y) <==> views(v@.take(i as int)).contains(y),
        decreases v@.len() - i,
    {
        let x = v[i].clone();
        let mut p: usize = 0;
        while p < out.len()
            invariant
                p <= out@.len(),
                forall|j: int| 0 <= j < p ==> text_before(#[trigger] out@[j]@, x@),
            ensures
                p <= out@.len(),
                forall|j: int| 0 <= j < p ==> text_before(#[trigger] out@[j]@, x@),
                p < out@.len() ==> !text_before(out@[p as int]@, x@),
            decreases out@.len() - p,
        {
            if !text_precedes(out[p].as_str(), x.as_str()) {
                break;
            }
            p = p + 1;
        }
        let ghost old_out = out@;
        proof {
            assert(x@ == v@[i as int]@);
            assert(!views(old_out).contains(x@)) by {
                let t0 = views(v@.take(i as int));
                if views(old_out).contains(x@) {
                    assert(t0.contains(x@));
                    let m = choose|m: int| 0 <= m < t0.len() && t0[m] == x@;
                    assert(v@[m]@ == x@);
                }
            }
            if p < old_out.len() {
                assert(old_out[p as int]@ != x@) by {
                    assert(views(old_out)[p as int] == old_out[p as int]@);
                }
                lemma_text_total(old_out[p as int]@, x@);
                assert(text_before(x@, old_out[p as int]@));
            }
        }
        out.insert(p, x);
        proof {
            let w = views(out@);
            let ow = views(old_out);
            assert(w =~= ow.insert(p as int, x@));
            assert forall|a: int, b: int| 0 <= a < b < w.len() implies text_before(#[trigger] w[a], #[trigger] w[b]) by {
                if b < p {
                    assert(text_before(ow[a], ow[b]));
                } else if b == p {
                    assert(text_before(old_out[a]@, x@));
                } else if a < p {
                    assert(text_before(old_out[a]@, x@));
                    if b - 1 == p {
                        assert(text_before(x@, old_out[p as int]@));
                    } else {
                        assert(text_before(x@, old_out[p as int]@));
                        assert(text_before(ow[p as int], ow[b - 1]));
                        lemma_text_trans(x@, ow[p as int], ow[b - 1]);
                    }
                    lemma_text_trans(w[a], x@, w[b]);
                } else if a == p {
                    if b - 1 > p {
                        assert(text_before(ow[p as int], ow[b - 1]));
                        lemma_text_trans(x@, ow[p as int], ow[b - 1]);
                    }
                } else {
                    assert(text_before(ow[a - 1], ow[b - 1]));
                }
            }
            let t1 = views(v@.take(i + 1));
            let t0 = views(v@.take(i as int));
            assert(t1 =~= t0.push(x@));
            assert forall|y: Seq<char>| w.contains(y) <==> t1.contains(y) by {
                if w.contains(y) {
                    let m = choose|m: int| 0 <= m < w.len() && w[m] == y;
                    if m == p {
                        assert(t1[i as int] == y);
                    } else {
                        let mm = if m < p { m } else { m - 1 };
                        assert(ow[mm] == y);
                        assert(ow.contains(y));
                        assert(t0.contains(y));
                        let q = choose|q: int| 0 <= q < t0.len() && t0[q] == y;
                        assert(t1[q] == y);
                    }
                }
                if t1.contains(y) {
                    let m = choose|m: int| 0 <= m < t1.len() && t1[m] == y;
                    if m < i {
                        assert(t0[m] == y);
                        assert(ow.contains(y));
                        let q = choose|q: int| 0 <= q < ow.len() && ow[q] == y;
                        if q < p {
                            assert(w[q] == y);
                        } else {
                            assert(w[q + 1] == y);
                        }
                    } else {
                        assert(w[p as int] == y);
                    }
                }
            }
        }
        i = i + 1;
    }
    proof {
        assert(v@.take(i as int) =~= v@);
    }
    out
}

} // verus!
