//! Sliding and merging one row of tiles toward an edge.
//!
//! A move first compacts the non-zero values toward the leading edge, then
//! merges adjacent equal values pairwise, each value taking part in at most
//! one merge, and finally pads the trailing edge with zeros.

use vstd::prelude::*;

verus! {

/// Every tile value below this bound can double without overflowing a `u32`,
/// so a row whose values all lie below it merges safely.
pub open spec fn fits(v: u32) -> bool {
    v < 0x8000_0000u32
}

/// True for the positive powers of two: 1, 2, 4, 8, ...
pub open spec fn is_pow2(n: int) -> bool
    decreases n,
{
    if n <= 0 {
        false
    } else if n == 1 {
        true
    } else {
        n % 2 == 0 && is_pow2(n / 2)
    }
}

/// The non-zero values of a row, in order.
pub open spec fn nonzeros(s: Seq<u32>) -> Seq<u32>
    decreases s.len(),
{
    if s.len() == 0 {
        Seq::empty()
    } else if s[0] != 0 {
        seq![s[0]] + nonzeros(s.drop_first())
    } else {
        nonzeros(s.drop_first())
    }
}

/// Merge adjacent equal values pairwise, scanning from the front; a merged
/// value is settled at once, so it never merges a second time.
pub open spec fn merge_pairs(s: Seq<u32>) -> Seq<u32>
    decreases s.len(),
{
    if s.len() <= 1 {
        s
    } else if s[0] == s[1] {
        seq![(s[0] + s[1]) as u32] + merge_pairs(s.skip(2))
    } else {
        seq![s[0]] + merge_pairs(s.skip(1))
    }
}

/// The row after a move toward index 0: non-zero values slide over the gaps,
/// adjacent equal values merge once each, and zeros fill the tail.
pub open spec fn slide_left(row: Seq<u32>) -> Seq<u32> {
    let m = merge_pairs(nonzeros(row));
    m + Seq::new((row.len() - m.len()) as nat, |k: int| 0u32)
}

/// The row after a move toward the last index: the mirror image of
/// `slide_left`.
pub open spec fn slide_right(row: Seq<u32>) -> Seq<u32> {
    slide_left(row.reverse()).reverse()
}

/// All values of the row are low enough to merge safely.
pub open spec fn row_fits(s: Seq<u32>) -> bool {
    forall|t: int| 0 <= t < s.len() ==> fits(s[t])
}

/// Every non-zero value of the row is a power of two.
pub open spec fn row_pow2(s: Seq<u32>) -> bool {
    forall|t: int| 0 <= t < s.len() ==> (s[t] != 0 ==> is_pow2(s[t] as int))
}

/// A positive power of two doubled is again a power of two.
proof fn lemma_pow2_double(n: int)
    requires
        is_pow2(n),
    ensures
        is_pow2(2 * n),
{
    assert(n >= 1);
    assert((2 * n) % 2 == 0 && (2 * n) / 2 == n);
}

/// `v` occurs in `s`.
pub open spec fn appears_in(v: u32, s: Seq<u32>) -> bool {
    exists|u: int| 0 <= u < s.len() && v == s[u]
}

/// `v` occurs in `s`, or is the double of a value of `s`.
pub open spec fn from_or_double(v: u32, s: Seq<u32>) -> bool {
    exists|u: int| 0 <= u < s.len() && (v == s[u] || v == (2 * s[u]) as u32)
}

/// Each value of `nonzeros(s)` is non-zero and comes from `s`.
proof fn lemma_nonzeros_facts(s: Seq<u32>)
    ensures
        nonzeros(s).len() <= s.len(),
        forall|t: int| 0 <= t < nonzeros(s).len() ==> #[trigger] nonzeros(s)[t] != 0 && appears_in(
            nonzeros(s)[t],
            s,
        ),
    decreases s.len(),
{
    if s.len() == 0 {
    } else {
        let tail = s.drop_first();
        lemma_nonzeros_facts(tail);
        assert forall|t: int| 0 <= t < nonzeros(s).len() implies #[trigger] nonzeros(s)[t] != 0
            && appears_in(nonzeros(s)[t], s) by {
            if s[0] != 0 && t == 0 {
                assert(nonzeros(s)[t] == s[0]);
            } else {
                let tt: int = if s[0] != 0 {
                    t - 1
                } else {
                    t
                };
                assert(nonzeros(s)[t] == nonzeros(tail)[tt]);
                assert(appears_in(nonzeros(tail)[tt], tail));
                let u0 = choose|u: int| 0 <= u < tail.len() && nonzeros(tail)[tt] == tail[u];
                assert(tail[u0] == s[u0 + 1]);
                assert(nonzeros(s)[t] == s[u0 + 1]);
            }
        }
    }
}

/// Each value of `merge_pairs(s)` is a value of `s` or the cast-back sum of
/// two equal ones.
proof fn lemma_merge_pairs_facts(s: Seq<u32>)
    ensures
        merge_pairs(s).len() <= s.len(),
        forall|t: int| 0 <= t < merge_pairs(s).len() ==> from_or_double(
            #[trigger] merge_pairs(s)[t],
            s,
        ),
    decreases s.len(),
{
    if s.len() <= 1 {
        assert forall|t: int| 0 <= t < merge_pairs(s).len() implies from_or_double(
            #[trigger] merge_pairs(s)[t],
            s,
        ) by {
            assert(merge_pairs(s)[t] == s[t]);
        }
    } else {
        let step: int = if s[0] == s[1] {
            2
        } else {
            1
        };
        let tail = s.skip(step);
        assert(forall|t: int| 0 <= t < tail.len() ==> tail[t] == s[t + step]);
        lemma_merge_pairs_facts(tail);
        assert forall|t: int| 0 <= t < merge_pairs(s).len() implies from_or_double(
            #[trigger] merge_pairs(s)[t],
            s,
        ) by {
            if t == 0 {
                if s[0] == s[1] {
                    assert(merge_pairs(s)[0] == (s[0] + s[1]) as u32);
                    assert(merge_pairs(s)[0] == (2 * s[0]) as u32);
                } else {
                    assert(merge_pairs(s)[0] == s[0]);
                }
            } else {
                assert(merge_pairs(s)[t] == merge_pairs(tail)[t - 1]);
                assert(from_or_double(merge_pairs(tail)[t - 1], tail));
                let u0 = choose|u: int|
                    0 <= u < tail.len() && (merge_pairs(tail)[t - 1] == tail[u] || merge_pairs(
                        tail,
                    )[t - 1] == (2 * tail[u]) as u32);
                assert(tail[u0] == s[u0 + step]);
                assert(merge_pairs(s)[t] == s[u0 + step] || merge_pairs(s)[t] == (2 * s[u0
                    + step]) as u32);
            }
        }
    }
}

/// Merging never lengthens a row.
proof fn lemma_merge_pairs_len(s: Seq<u32>)
    ensures
        merge_pairs(s).len() <= s.len(),
    decreases s.len(),
{
    if s.len() <= 1 {
    } else if s[0] == s[1] {
        lemma_merge_pairs_len(s.skip(2));
    } else {
        lemma_merge_pairs_len(s.skip(1));
    }
}

/// A move keeps the length of the row.
pub proof fn lemma_slide_left_len(row: Seq<u32>)
    ensures
        slide_left(row).len() == row.len(),
{
    lemma_nonzeros_facts(row);
    lemma_merge_pairs_len(nonzeros(row));
}

/// The mirrored move keeps the length of the row.
pub proof fn lemma_slide_right_len(row: Seq<u32>)
    ensures
        slide_right(row).len() == row.len(),
{
    lemma_slide_left_len(row.reverse());
}

/// A move toward index 0 keeps every non-zero value a power of two: the
/// only new values are sums of two equal powers of two. The bound on the
/// values is the machine limit: at `2^31` and above a merged sum no longer
/// fits a `u32`.
pub proof fn lemma_slide_left_pow2(row: Seq<u32>)
    requires
        row_fits(row),
        row_pow2(row),
    ensures
        row_pow2(slide_left(row)),
{
    let nz = nonzeros(row);
    lemma_nonzeros_facts(row);
    assert(forall|t: int| 0 <= t < nz.len() ==> nz[t] != 0 && fits(nz[t]) && is_pow2(
        nz[t] as int,
    )) by {
        assert forall|t: int| 0 <= t < nz.len() implies nz[t] != 0 && fits(nz[t]) && is_pow2(
            nz[t] as int,
        ) by {
            assert(nonzeros(row)[t] != 0 && appears_in(nonzeros(row)[t], row));
            let u0 = choose|u: int| 0 <= u < row.len() && nz[t] == row[u];
            assert(fits(row[u0]) && (row[u0] != 0 ==> is_pow2(row[u0] as int)));
        }
    }
    lemma_merge_pairs_facts(nz);
    let m = merge_pairs(nz);
    assert forall|t: int|
        0 <= t < slide_left(row).len() && slide_left(row)[t] != 0 implies is_pow2(
        slide_left(row)[t] as int,
    ) by {
        if t < m.len() {
            assert(slide_left(row)[t] == m[t]);
            assert(from_or_double(merge_pairs(nz)[t], nz));
            let u0 = choose|u: int|
                0 <= u < nz.len() && (m[t] == nz[u] || m[t] == (2 * nz[u]) as u32);
            if m[t] == (2 * nz[u0]) as u32 {
                assert(2 * nz[u0] <= 0xFFFF_FFFEu32);
                lemma_pow2_double(nz[u0] as int);
                assert(m[t] as int == 2 * (nz[u0] as int));
            }
        } else {
            assert(slide_left(row)[t] == 0u32);
        }
    }
}

/// A move toward the last index keeps every non-zero value a power of two.
pub proof fn lemma_slide_right_pow2(row: Seq<u32>)
    requires
        row_fits(row),
        row_pow2(row),
    ensures
        row_pow2(slide_right(row)),
{
    let rev = row.reverse();
    assert(forall|t: int| 0 <= t < rev.len() ==> rev[t] == row[row.len() - 1 - t]);
    assert(row_fits(rev));
    assert(row_pow2(rev));
    lemma_slide_left_pow2(rev);
    let s = slide_left(rev);
    assert forall|t: int|
        0 <= t < slide_right(row).len() && slide_right(row)[t] != 0 implies is_pow2(
        slide_right(row)[t] as int,
    ) by {
        assert(slide_right(row)[t] == s[s.len() - 1 - t]);
    }
}

/// A copy of the row in reverse order.
fn reversed(v: &Vec<u32>) -> (r: Vec<u32>)
    ensures
        r@ == v@.reverse(),
{
    let mut r: Vec<u32> = Vec::new();
    let mut k: usize = v.len();
    while k > 0
        invariant
            k <= v@.len(),
            r@.len() == v@.len() - k,
            forall|t: int| 0 <= t < r@.len() ==> r@[t] == v@[v@.len() - 1 - t],
        decreases k,
    {
        k = k - 1;
        let x = v[k];
        r.push(x);
    }
    proof {
        assert(r@ =~= v@.reverse());
    }
    r
}

/// Resolve one row toward index 0.
pub fn merge_row_left(row: &Vec<u32>) -> (r: Vec<u32>)
    requires
        forall|t: int| 0 <= t < row@.len() ==> fits(row@[t]),
    ensures
        r@ == slide_left(row@),
        r@.len() == row@.len(),
{
    let ghost rv = row@;
    let n = row.len();

    // Gather the non-zero values in order.
    let mut c: Vec<u32> = Vec::new();
    let mut k: usize = 0;
    proof {
        assert(rv.skip(0) =~= rv);
        assert(Seq::<u32>::empty() + nonzeros(rv) =~= nonzeros(rv));
    }
    while k < n
        invariant
            n == rv.len(),
            row@ == rv,
            k <= n,
            c@.len() <= k,
            c@ + nonzeros(rv.skip(k as int)) == nonzeros(rv),
            forall|t: int| 0 <= t < c@.len() ==> c@[t] != 0 && fits(c@[t]),
            forall|t: int| 0 <= t < rv.len() ==> fits(rv[t]),
        decreases n - k,
    {
        proof {
            assert(rv.skip(k as int).len() == rv.len() - k);
            assert(rv.skip(k as int)[0] == rv[k as int]);
            assert(rv.skip(k as int).drop_first() =~= rv.skip(k as int + 1));
        }
        let x = row[k];
        if x != 0 {
            proof {
                assert(nonzeros(rv.skip(k as int)) == seq![rv[k as int]] + nonzeros(
                    rv.skip(k as int + 1),
                ));
                assert(c@.push(x) + nonzeros(rv.skip(k as int + 1)) =~= c@ + nonzeros(
                    rv.skip(k as int),
                ));
            }
            c.push(x);
        } else {
            proof {
                assert(nonzeros(rv.skip(k as int)) == nonzeros(rv.skip(k as int + 1)));
            }
        }
        k = k + 1;
    }
    proof {
        assert(rv.skip(n as int) =~= Seq::<u32>::empty());
        assert(nonzeros(Seq::<u32>::empty()) == Seq::<u32>::empty());
        assert(c@ + Seq::<u32>::empty() =~= c@);
        assert(c@ == nonzeros(rv));
    }

    // Merge adjacent equal values pairwise.
    let cl = c.len();
    let mut m: Vec<u32> = Vec::new();
    k = 0;
    proof {
        assert(c@.skip(0) =~= c@);
        assert(Seq::<u32>::empty() + merge_pairs(c@) =~= merge_pairs(c@));
    }
    while k < cl
        invariant
            cl == c@.len(),
            k <= cl,
            m@.len() <= k,
            m@ + merge_pairs(c@.skip(k as int)) == merge_pairs(c@),
            forall|t: int| 0 <= t < c@.len() ==> c@[t] != 0 && fits(c@[t]),
        decreases cl - k,
    {
        proof {
            assert(c@.skip(k as int).len() == cl - k);
            assert(c@.skip(k as int)[0] == c@[k as int]);
            assert(c@.skip(k as int).skip(1) =~= c@.skip(k as int + 1));
        }
        if k + 1 < cl && c[k] == c[k + 1] {
            proof {
                assert(c@.skip(k as int)[1] == c@[k as int + 1]);
                assert(c@.skip(k as int).skip(2) =~= c@.skip(k as int + 2));
                assert(merge_pairs(c@.skip(k as int)) == seq![
                    (c@[k as int] + c@[k as int + 1]) as u32,
                ] + merge_pairs(c@.skip(k as int + 2)));
            }
            let merged = c[k] + c[k + 1];
            proof {
                assert(m@.push(merged) + merge_pairs(c@.skip(k as int + 2)) =~= m@ + merge_pairs(
                    c@.skip(k as int),
                ));
            }
            m.push(merged);
            k = k + 2;
        } else {
            proof {
                if k + 1 < cl {
                    assert(c@.skip(k as int)[1] == c@[k as int + 1]);
                    assert(merge_pairs(c@.skip(k as int)) == seq![c@[k as int]] + merge_pairs(
                        c@.skip(k as int + 1),
                    ));
                } else {
                    assert(c@.skip(k as int) =~= seq![c@[k as int]]);
                    assert(merge_pairs(c@.skip(k as int)) == seq![c@[k as int]]);
                    assert(c@.skip(k as int + 1) =~= Seq::<u32>::empty());
                    assert(merge_pairs(c@.skip(k as int + 1)) == Seq::<u32>::empty());
                    assert(merge_pairs(c@.skip(k as int)) == seq![c@[k as int]] + merge_pairs(
                        c@.skip(k as int + 1),
                    ));
                }
                assert(m@.push(c@[k as int]) + merge_pairs(c@.skip(k as int + 1)) =~= m@
                    + merge_pairs(c@.skip(k as int)));
            }
            let x = c[k];
            m.push(x);
            k = k + 1;
        }
    }
    proof {
        assert(c@.skip(cl as int) =~= Seq::<u32>::empty());
        assert(merge_pairs(Seq::<u32>::empty()) == Seq::<u32>::empty());
        assert(m@ + Seq::<u32>::empty() =~= m@);
        assert(m@ == merge_pairs(nonzeros(rv)));
        assert(m@.len() <= rv.len());
    }

    // Pad the tail with zeros.
    let ghost m0 = m@;
    let mut r = m;
    while r.len() < n
        invariant
            n == rv.len(),
            m0 == merge_pairs(nonzeros(rv)),
            m0.len() <= r@.len() <= n,
            r@ == m0 + Seq::new((r@.len() - m0.len()) as nat, |t: int| 0u32),
        decreases n - r@.len(),
    {
        r.push(0);
        proof {
            assert(r@ =~= m0 + Seq::new((r@.len() - m0.len()) as nat, |t: int| 0u32));
        }
    }
    proof {
        assert(r@ == slide_left(rv));
    }
    r
}

/// Resolve one row toward the last index, by reversing, resolving toward
/// index 0, and reversing back.
pub fn merge_row_right(row: &Vec<u32>) -> (r: Vec<u32>)
    requires
        forall|t: int| 0 <= t < row@.len() ==> fits(row@[t]),
    ensures
        r@ == slide_right(row@),
        r@.len() == row@.len(),
{
    let rev = reversed(row);
    proof {
        assert(forall|t: int| 0 <= t < rev@.len() ==> fits(rev@[t]));
    }
    let m = merge_row_left(&rev);
    let r = reversed(&m);
    proof {
        assert(r@.len() == slide_right(row@).len());
    }
    r
}

} // verus!
