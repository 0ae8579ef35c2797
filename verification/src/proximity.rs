//! Proximity detector: the set of close-encounter pairs of the current tick.
//!
//! A single deterministic snapshot of the live handles is taken (the position
//! store's explicit enumeration order), and every index pair i < j into that
//! snapshot is considered exactly once. A pair is reported when the Euclidean
//! separation of the two positions is strictly below the threshold; distances
//! are compared exactly, by squares, so no square root is needed. A
//! non-positive threshold reports nothing, since distances are non-negative.
//! The pass is read-only and side-effect-free: it returns the collection.

use crate::components::{EntityId, Position, Velocity};
use crate::store::ComponentStore;
use crate::world::World;
use vstd::assert_seqs_equal;
use vstd::prelude::*;

verus! {

/// Squared Euclidean distance of two integer triples.
pub open spec fn dist2(a: (int, int, int), b: (int, int, int)) -> int {
    (a.0 - b.0) * (a.0 - b.0) + (a.1 - b.1) * (a.1 - b.1) + (a.2 - b.2) * (a.2 - b.2)
}

/// Separation strictly below the threshold; exact, via squares.
pub open spec fn close(a: (int, int, int), b: (int, int, int), threshold: int) -> bool {
    threshold >= 0 && dist2(a, b) < threshold * threshold
}

/// The reported pairs whose first handle is `ord[i]`, scanning partners from
/// index `j` on.
pub open spec fn prox_row(
    ord: Seq<int>,
    pm: Map<int, (int, int, int)>,
    threshold: int,
    i: int,
    j: int,
) -> Seq<(int, int)>
    decreases ord.len() - j,
{
    if j < 0 || ord.len() <= j {
        Seq::empty()
    } else {
        let rest = prox_row(ord, pm, threshold, i, j + 1);
        if close(pm[ord[i]], pm[ord[j]], threshold) {
            seq![(ord[i], ord[j])] + rest
        } else {
            rest
        }
    }
}

/// The reported pairs over all index pairs i <= ii < jj of the snapshot.
pub open spec fn prox_from(
    ord: Seq<int>,
    pm: Map<int, (int, int, int)>,
    threshold: int,
    i: int,
) -> Seq<(int, int)>
    decreases ord.len() - i,
{
    if i < 0 || ord.len() <= i {
        Seq::empty()
    } else {
        prox_row(ord, pm, threshold, i, i + 1) + prox_from(ord, pm, threshold, i + 1)
    }
}

/// The proximity result of one pass: a function of the snapshot order, the
/// positions and the threshold alone.
pub open spec fn prox_pairs(
    ord: Seq<int>,
    pm: Map<int, (int, int, int)>,
    threshold: int,
) -> Seq<(int, int)> {
    prox_from(ord, pm, threshold, 0)
}

/// View of an executable pair list as integer pairs.
pub open spec fn pairs_view(s: Seq<(EntityId, EntityId)>) -> Seq<(int, int)> {
    Seq::new(s.len(), |k: int| (s[k].0 as int, s[k].1 as int))
}

/// Squared distance of two positions, exact.
fn dist2_exec(a: &Position, b: &Position) -> (d: i128)
    requires
        crate::components::pos_in_bounds(*a),
        crate::components::pos_in_bounds(*b),
    ensures
        d as int == dist2(crate::components::pos_triple(*a), crate::components::pos_triple(*b)),
{
    let dx: i128 = (a.x as i128) - (b.x as i128);
    let dy: i128 = (a.y as i128) - (b.y as i128);
    let dz: i128 = (a.z as i128) - (b.z as i128);
    assert(0 <= dx * dx <= 40_000_000_000_000_000_000_000i128 && 0 <= dy * dy
        <= 40_000_000_000_000_000_000_000i128 && 0 <= dz * dz
        <= 40_000_000_000_000_000_000_000i128) by (nonlinear_arith)
        requires
            -200_000_000_000i128 <= dx <= 200_000_000_000i128,
            -200_000_000_000i128 <= dy <= 200_000_000_000i128,
            -200_000_000_000i128 <= dz <= 200_000_000_000i128,
    ;
    dx * dx + dy * dy + dz * dz
}

/// The proximity detection system: returns every unordered pair of distinct
/// entities holding positions whose separation is strictly below `threshold`,
/// each exactly once, in snapshot order.
pub fn proximity_detection_system<SP: ComponentStore<Position>, SV: ComponentStore<Velocity>>(
    world: &World<SP, SV>,
    threshold: i64,
) -> (warnings: Vec<(EntityId, EntityId)>)
    requires
        world.wf(),
    ensures
        pairs_view(warnings@) == prox_pairs(world.pos_order(), world.pos_map(), threshold as int),
{
    let ghost pm = world.pos_map();
    let ghost ord = world.positions.order();
    proof {
        world.positions.lemma_inv();
    }
    let handle_list = world.positions.handles();
    let n = handle_list.len();
    assert(0 <= (threshold as i128) * (threshold as i128)
        <= 100_000_000_000_000_000_000_000_000_000_000_000_000i128) by (nonlinear_arith)
        requires
            i64::MIN <= threshold <= i64::MAX,
    ;
    let t2: i128 = (threshold as i128) * (threshold as i128);
    let mut warnings: Vec<(EntityId, EntityId)> = Vec::new();
    let mut i: usize = 0;
    while i < n
        invariant
            i <= n,
            world.wf(),
            handle_list@.len() == n,
            n == ord.len(),
            forall|k: int| 0 <= k < n ==> handle_list@[k] as int == ord[k],
            pm == world.pos_map(),
            ord == world.positions.order(),
            t2 == (threshold as int) * (threshold as int),
            pairs_view(warnings@) + prox_from(ord, pm, threshold as int, i as int) == prox_pairs(
                ord,
                pm,
                threshold as int,
            ),
        decreases n - i,
    {
        let hi = handle_list[i];
        let pos_i = match world.positions.get(hi) {
            Some(p) => p,
            None => {
                proof {
                    world.positions.lemma_inv();
                    assert(ord[i as int] == hi as int);
                    assert(ord.contains(hi as int));
                    assert(false);
                }
                vstd::pervasive::unreached()
            },
        };
        proof {
            world.positions.lemma_inv();
            assert(ord[i as int] == hi as int);
            assert(world.positions.contents().dom().contains(hi as int));
            assert(crate::components::pos_triple(pos_i) == pm[hi as int]);
            assert(crate::components::pos_in_bounds(pos_i));
        }
        let mut j: usize = i + 1;
        proof {
            assert(prox_from(ord, pm, threshold as int, i as int) == prox_row(
                ord,
                pm,
                threshold as int,
                i as int,
                i as int + 1,
            ) + prox_from(ord, pm, threshold as int, i as int + 1));
        }
        while j < n
            invariant
                i < j <= n,
                world.wf(),
                handle_list@.len() == n,
                n == ord.len(),
                forall|k: int| 0 <= k < n ==> handle_list@[k] as int == ord[k],
                pm == world.pos_map(),
                ord == world.positions.order(),
                t2 == (threshold as int) * (threshold as int),
                hi as int == ord[i as int],
                crate::components::pos_triple(pos_i) == pm[ord[i as int]],
                crate::components::pos_in_bounds(pos_i),
                pairs_view(warnings@) + prox_row(ord, pm, threshold as int, i as int, j as int)
                    + prox_from(ord, pm, threshold as int, i as int + 1) == prox_pairs(
                    ord,
                    pm,
                    threshold as int,
                ),
            decreases n - j,
        {
            let hj = handle_list[j];
            let pos_j = match world.positions.get(hj) {
                Some(p) => p,
                None => {
                    proof {
                        world.positions.lemma_inv();
                        assert(ord[j as int] == hj as int);
                        assert(ord.contains(hj as int));
                        assert(false);
                    }
                    vstd::pervasive::unreached()
                },
            };
            proof {
                world.positions.lemma_inv();
                assert(ord[j as int] == hj as int);
                assert(world.positions.contents().dom().contains(hj as int));
                assert(crate::components::pos_in_bounds(pos_j));
            }
            let ghost pre = warnings@;
            let d2 = dist2_exec(&pos_i, &pos_j);
            let is_close = threshold >= 0 && d2 < t2;
            proof {
                assert(crate::components::pos_triple(pos_j) == pm[ord[j as int]]);
                assert(is_close == close(pm[ord[i as int]], pm[ord[j as int]], threshold as int));
            }
            if is_close {
                warnings.push((hi, hj));
                proof {
                    assert(warnings@ == pre.push((hi, hj)));
                    assert_seqs_equal!(
                        pairs_view(warnings@) == pairs_view(pre).push((ord[i as int], ord[j as int])),
                        k => {
                            if k < pre.len() {
                                assert(warnings@[k] == pre[k]);
                            } else {
                                assert(warnings@[k] == (hi, hj));
                            }
                        }
                    );
                }
            }
            proof {
                let th = threshold as int;
                let row_j = prox_row(ord, pm, th, i as int, j as int);
                let row_j1 = prox_row(ord, pm, th, i as int, j as int + 1);
                if is_close {
                    assert(row_j == seq![(ord[i as int], ord[j as int])] + row_j1);
                    assert_seqs_equal!(pairs_view(warnings@) + row_j1 == pairs_view(pre) + row_j);
                } else {
                    assert(row_j == row_j1);
                }
                assert_seqs_equal!(
                    pairs_view(warnings@) + row_j1 + prox_from(ord, pm, th, i as int + 1)
                        == pairs_view(pre) + row_j + prox_from(ord, pm, th, i as int + 1)
                );
            }
            j = j + 1;
        }
        proof {
            assert(prox_row(ord, pm, threshold as int, i as int, n as int) == Seq::<(
                int,
                int,
            )>::empty());
            assert_seqs_equal!(
                pairs_view(warnings@) + prox_from(ord, pm, threshold as int, i as int + 1)
                    == pairs_view(warnings@) + prox_row(ord, pm, threshold as int, i as int, n as int)
                    + prox_from(ord, pm, threshold as int, i as int + 1)
            );
        }
        i = i + 1;
    }
    proof {
        assert(prox_from(ord, pm, threshold as int, n as int) == Seq::<(int, int)>::empty());
        assert_seqs_equal!(
            pairs_view(warnings@) == pairs_view(warnings@) + prox_from(ord, pm, threshold as int, n as int)
        );
    }
    warnings
}

/// Separation is symmetric, so the reported pairs are unordered in substance.
pub proof fn lemma_close_symmetric(a: (int, int, int), b: (int, int, int), threshold: int)
    ensures
        close(a, b, threshold) == close(b, a, threshold),
{
    assert(dist2(a, b) == dist2(b, a)) by (nonlinear_arith);
}

proof fn lemma_prox_row_membership(
    ord: Seq<int>,
    pm: Map<int, (int, int, int)>,
    threshold: int,
    i: int,
    j: int,
    x: int,
    y: int,
)
    requires
        0 <= i < ord.len(),
        i < j,
    ensures
        prox_row(ord, pm, threshold, i, j).contains((x, y)) <==> exists|jj: int|
            #![trigger ord[jj]]
            j <= jj < ord.len() && x == ord[i] && y == ord[jj] && close(
                pm[ord[i]],
                pm[ord[jj]],
                threshold,
            ),
    decreases ord.len() - j,
{
    let row = prox_row(ord, pm, threshold, i, j);
    if ord.len() <= j {
        if row.contains((x, y)) {
            let k = choose|k: int| 0 <= k < row.len() && row[k] == (x, y);
        }
    } else {
        lemma_prox_row_membership(ord, pm, threshold, i, j + 1, x, y);
        let rest = prox_row(ord, pm, threshold, i, j + 1);
        if close(pm[ord[i]], pm[ord[j]], threshold) {
            let head = seq![(ord[i], ord[j])];
            assert(row == head + rest);
            if row.contains((x, y)) {
                let k = choose|k: int| 0 <= k < row.len() && row[k] == (x, y);
                if k == 0 {
                    assert(x == ord[i] && y == ord[j]);
                    assert(j <= j < ord.len() && x == ord[i] && y == ord[j] && close(
                        pm[ord[i]],
                        pm[ord[j]],
                        threshold,
                    ));
                } else {
                    assert(rest[k - 1] == (x, y));
                    assert(rest.contains((x, y)));
                }
            }
            if exists|jj: int|
                #![trigger ord[jj]]
                j <= jj < ord.len() && x == ord[i] && y == ord[jj] && close(
                    pm[ord[i]],
                    pm[ord[jj]],
                    threshold,
                ) {
                let jj = choose|jj: int|
                    #![trigger ord[jj]]
                    j <= jj < ord.len() && x == ord[i] && y == ord[jj] && close(
                        pm[ord[i]],
                        pm[ord[jj]],
                        threshold,
                    );
                if jj == j {
                    assert(row[0] == (x, y));
                    assert(row.contains((x, y)));
                } else {
                    assert(rest.contains((x, y)));
                    let k = choose|k: int| 0 <= k < rest.len() && rest[k] == (x, y);
                    assert(row[k + 1] == (x, y));
                    assert(row.contains((x, y)));
                }
            }
        } else {
            assert(row == rest);
            if exists|jj: int|
                #![trigger ord[jj]]
                j <= jj < ord.len() && x == ord[i] && y == ord[jj] && close(
                    pm[ord[i]],
                    pm[ord[jj]],
                    threshold,
                ) {
                let jj = choose|jj: int|
                    #![trigger ord[jj]]
                    j <= jj < ord.len() && x == ord[i] && y == ord[jj] && close(
                        pm[ord[i]],
                        pm[ord[jj]],
                        threshold,
                    );
                assert(jj != j);
            }
        }
    }
}

proof fn lemma_prox_from_membership(
    ord: Seq<int>,
    pm: Map<int, (int, int, int)>,
    threshold: int,
    i: int,
    x: int,
    y: int,
)
    requires
        0 <= i,
    ensures
        prox_from(ord, pm, threshold, i).contains((x, y)) <==> exists|ii: int, jj: int|
            #![trigger ord[ii], ord[jj]]
            i <= ii < jj < ord.len() && x == ord[ii] && y == ord[jj] && close(
                pm[ord[ii]],
                pm[ord[jj]],
                threshold,
            ),
    decreases ord.len() - i,
{
    let all = prox_from(ord, pm, threshold, i);
    if ord.len() <= i {
        if all.contains((x, y)) {
            let k = choose|k: int| 0 <= k < all.len() && all[k] == (x, y);
        }
    } else {
        lemma_prox_from_membership(ord, pm, threshold, i + 1, x, y);
        lemma_prox_row_membership(ord, pm, threshold, i, i + 1, x, y);
        let row = prox_row(ord, pm, threshold, i, i + 1);
        let rest = prox_from(ord, pm, threshold, i + 1);
        assert(all == row + rest);
        if all.contains((x, y)) {
            let k = choose|k: int| 0 <= k < all.len() && all[k] == (x, y);
            if k < row.len() {
                assert(row[k] == (x, y));
                assert(row.contains((x, y)));
                let jj = choose|jj: int|
                    #![trigger ord[jj]]
                    i + 1 <= jj < ord.len() && x == ord[i] && y == ord[jj] && close(
                        pm[ord[i]],
                        pm[ord[jj]],
                        threshold,
                    );
                assert(i <= i < jj < ord.len() && x == ord[i] && y == ord[jj] && close(
                    pm[ord[i]],
                    pm[ord[jj]],
                    threshold,
                ));
            } else {
                assert(rest[k - row.len()] == (x, y));
                assert(rest.contains((x, y)));
            }
        }
        if exists|ii: int, jj: int|
            #![trigger ord[ii], ord[jj]]
            i <= ii < jj < ord.len() && x == ord[ii] && y == ord[jj] && close(
                pm[ord[ii]],
                pm[ord[jj]],
                threshold,
            ) {
            let (ii, jj) = choose|ii: int, jj: int|
                #![trigger ord[ii], ord[jj]]
                i <= ii < jj < ord.len() && x == ord[ii] && y == ord[jj] && close(
                    pm[ord[ii]],
                    pm[ord[jj]],
                    threshold,
                );
            if ii == i {
                assert(row.contains((x, y)));
                let k = choose|k: int| 0 <= k < row.len() && row[k] == (x, y);
                assert(all[k] == (x, y));
                assert(all.contains((x, y)));
            } else {
                assert(rest.contains((x, y)));
                let k = choose|k: int| 0 <= k < rest.len() && rest[k] == (x, y);
                assert(all[row.len() + k] == (x, y));
                assert(all.contains((x, y)));
            }
        }
    }
}

proof fn lemma_prox_row_no_duplicates(
    ord: Seq<int>,
    pm: Map<int, (int, int, int)>,
    threshold: int,
    i: int,
    j: int,
)
    requires
        ord.no_duplicates(),
        0 <= i < ord.len(),
        i < j,
    ensures
        prox_row(ord, pm, threshold, i, j).no_duplicates(),
    decreases ord.len() - j,
{
    let row = prox_row(ord, pm, threshold, i, j);
    if ord.len() <= j {
    } else {
        lemma_prox_row_no_duplicates(ord, pm, threshold, i, j + 1);
        let rest = prox_row(ord, pm, threshold, i, j + 1);
        if close(pm[ord[i]], pm[ord[j]], threshold) {
            let head = seq![(ord[i], ord[j])];
            assert(row == head + rest);
            assert forall|k1: int, k2: int|
                0 <= k1 < row.len() && 0 <= k2 < row.len() && k1 != k2 implies row[k1]
                != row[k2] by {
                if k1 == 0 || k2 == 0 {
                    let kr = if k1 == 0 { k2 } else { k1 };
                    assert(row[kr] == rest[kr - 1]);
                    assert(rest.contains(rest[kr - 1]));
                    lemma_prox_row_membership(
                        ord,
                        pm,
                        threshold,
                        i,
                        j + 1,
                        rest[kr - 1].0,
                        rest[kr - 1].1,
                    );
                    let jj = choose|jj: int|
                        #![trigger ord[jj]]
                        j + 1 <= jj < ord.len() && rest[kr - 1].0 == ord[i] && rest[kr - 1].1
                            == ord[jj] && close(pm[ord[i]], pm[ord[jj]], threshold);
                    assert(ord[jj] != ord[j]);
                } else {
                    assert(row[k1] == rest[k1 - 1] && row[k2] == rest[k2 - 1]);
                }
            }
        } else {
            assert(row == rest);
        }
    }
}

proof fn lemma_prox_from_no_duplicates(
    ord: Seq<int>,
    pm: Map<int, (int, int, int)>,
    threshold: int,
    i: int,
)
    requires
        ord.no_duplicates(),
        0 <= i,
    ensures
        prox_from(ord, pm, threshold, i).no_duplicates(),
    decreases ord.len() - i,
{
    let all = prox_from(ord, pm, threshold, i);
    if ord.len() <= i {
    } else {
        lemma_prox_from_no_duplicates(ord, pm, threshold, i + 1);
        lemma_prox_row_no_duplicates(ord, pm, threshold, i, i + 1);
        let row = prox_row(ord, pm, threshold, i, i + 1);
        let rest = prox_from(ord, pm, threshold, i + 1);
        assert(all == row + rest);
        assert forall|k1: int, k2: int|
            0 <= k1 < all.len() && 0 <= k2 < all.len() && k1 != k2 implies all[k1] != all[k2] by {
            if k1 < row.len() && k2 < row.len() {
                assert(all[k1] == row[k1] && all[k2] == row[k2]);
            } else if k1 >= row.len() && k2 >= row.len() {
                assert(all[k1] == rest[k1 - row.len()] && all[k2] == rest[k2 - row.len()]);
            } else {
                let kr = if k1 < row.len() { k1 } else { k2 };
                let ks = if k1 < row.len() { k2 } else { k1 };
                assert(all[kr] == row[kr]);
                assert(all[ks] == rest[ks - row.len()]);
                let p = row[kr];
                let q = rest[ks - row.len()];
                assert(row.contains(p));
                assert(rest.contains(q));
                lemma_prox_row_membership(ord, pm, threshold, i, i + 1, p.0, p.1);
                lemma_prox_from_membership(ord, pm, threshold, i + 1, q.0, q.1);
                let (ii, jj) = choose|ii: int, jj: int|
                    #![trigger ord[ii], ord[jj]]
                    i + 1 <= ii < jj < ord.len() && q.0 == ord[ii] && q.1 == ord[jj] && close(
                        pm[ord[ii]],
                        pm[ord[jj]],
                        threshold,
                    );
                assert(p.0 == ord[i]);
                assert(ord[ii] != ord[i]);
            }
        }
    }
}

/// Law: for distinct live entities a and b, the unordered pair {a, b} is
/// reported exactly when their separation is strictly below the threshold;
/// it is reported in only one orientation, the whole result holds no repeated
/// entry, and no entity is ever paired with itself.
pub proof fn lemma_proximity_characterization(
    ord: Seq<int>,
    pm: Map<int, (int, int, int)>,
    threshold: int,
    a: int,
    b: int,
)
    requires
        ord.no_duplicates(),
        ord.contains(a),
        ord.contains(b),
        a != b,
    ensures
        (prox_pairs(ord, pm, threshold).contains((a, b)) || prox_pairs(
            ord,
            pm,
            threshold,
        ).contains((b, a))) <==> close(pm[a], pm[b], threshold),
        !(prox_pairs(ord, pm, threshold).contains((a, b)) && prox_pairs(
            ord,
            pm,
            threshold,
        ).contains((b, a))),
        !prox_pairs(ord, pm, threshold).contains((a, a)),
        prox_pairs(ord, pm, threshold).no_duplicates(),
{
    lemma_prox_from_membership(ord, pm, threshold, 0, a, b);
    lemma_prox_from_membership(ord, pm, threshold, 0, b, a);
    lemma_prox_from_membership(ord, pm, threshold, 0, a, a);
    lemma_prox_from_no_duplicates(ord, pm, threshold, 0);
    lemma_close_symmetric(pm[a], pm[b], threshold);
    let ia = choose|k: int| 0 <= k < ord.len() && ord[k] == a;
    let ib = choose|k: int| 0 <= k < ord.len() && ord[k] == b;
    assert(ia != ib);
    if close(pm[a], pm[b], threshold) {
        if ia < ib {
            assert(0 <= ia < ib < ord.len() && a == ord[ia] && b == ord[ib] && close(
                pm[ord[ia]],
                pm[ord[ib]],
                threshold,
            ));
            assert(prox_pairs(ord, pm, threshold).contains((a, b)));
        } else {
            assert(0 <= ib < ia < ord.len() && b == ord[ib] && a == ord[ia] && close(
                pm[ord[ib]],
                pm[ord[ia]],
                threshold,
            ));
            assert(prox_pairs(ord, pm, threshold).contains((b, a)));
        }
    } else {
        if prox_pairs(ord, pm, threshold).contains((a, b)) {
            let (ii, jj) = choose|ii: int, jj: int|
                #![trigger ord[ii], ord[jj]]
                0 <= ii < jj < ord.len() && a == ord[ii] && b == ord[jj] && close(
                    pm[ord[ii]],
                    pm[ord[jj]],
                    threshold,
                );
        }
        if prox_pairs(ord, pm, threshold).contains((b, a)) {
            let (ii, jj) = choose|ii: int, jj: int|
                #![trigger ord[ii], ord[jj]]
                0 <= ii < jj < ord.len() && b == ord[ii] && a == ord[jj] && close(
                    pm[ord[ii]],
                    pm[ord[jj]],
                    threshold,
                );
        }
    }
    if prox_pairs(ord, pm, threshold).contains((a, b)) && prox_pairs(ord, pm, threshold).contains(
        (b, a),
    ) {
        let (i1, j1) = choose|ii: int, jj: int|
            #![trigger ord[ii], ord[jj]]
            0 <= ii < jj < ord.len() && a == ord[ii] && b == ord[jj] && close(
                pm[ord[ii]],
                pm[ord[jj]],
                threshold,
            );
        let (i2, j2) = choose|ii: int, jj: int|
            #![trigger ord[ii], ord[jj]]
            0 <= ii < jj < ord.len() && b == ord[ii] && a == ord[jj] && close(
                pm[ord[ii]],
                pm[ord[jj]],
                threshold,
            );
        assert(i1 == ia && j1 == ib && i2 == ib && j2 == ia);
    }
    if prox_pairs(ord, pm, threshold).contains((a, a)) {
        let (ii, jj) = choose|ii: int, jj: int|
            #![trigger ord[ii], ord[jj]]
            0 <= ii < jj < ord.len() && a == ord[ii] && a == ord[jj] && close(
                pm[ord[ii]],
                pm[ord[jj]],
                threshold,
            );
    }
}

} // verus!
