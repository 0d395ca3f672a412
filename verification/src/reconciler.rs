//! The geometry reconciler.
//!
//! Two passes merge the four intermediate mappings into one mapping from
//! feature id to canonical geometry. The first pass resolves every
//! well-known-text link; the second resolves every schema.org point link,
//! corroborating against an already-canonical point under the tolerance.
//! The well-known-text geometry, when present, is authoritative: an
//! agreeing point never replaces it.
//!
//! A link whose target was never defined is a missing-target condition:
//! under the `Abort` policy it fails the whole shard (the conservative
//! default), under `Skip` only that feature is skipped.

use vstd::prelude::*;

use crate::assoc::{
    assoc_get, assoc_has, assoc_insert, assoc_wf, lemma_assoc_insert_same,
    lemma_assoc_insert_values, lemma_assoc_insert_wf, lemma_find_key_props, AssocMap,
};
use crate::errors::{ErrorView, TriplesError};
use crate::geom::{
    generally_equal, geo_wf, points_close, GeoPoint, GeoValue, GeoView,
};
use crate::interpreter::{HashMaps, MapsView};
use crate::partial_point::{pp_wf, PartialPoint};

verus! {

/// What to do when a link's target was never defined: abort the whole
/// shard, or skip that feature and go on.
#[derive(Clone, Copy, Debug, PartialEq, Eq, Structural)]
pub enum MissingTargetPolicy {
    /// Fail the shard on any dangling reference.
    Abort,
    /// Leave the feature out and go on with the rest of the shard.
    Skip,
}

/// One step of the first pass: resolve the well-known-text link
/// `(pid, sk)` against the geometry mapping.
pub open spec fn wkt_step(
    acc: Seq<(Seq<char>, GeoView)>,
    pid: Seq<char>,
    sk: Seq<char>,
    m2: Seq<(Seq<char>, GeoView)>,
    policy: MissingTargetPolicy,
) -> Result<Seq<(Seq<char>, GeoView)>, ErrorView> {
    if assoc_has(m2, sk) {
        Ok(assoc_insert(acc, pid, assoc_get(m2, sk)))
    } else if policy is Abort {
        Err(ErrorView::DanglingGeometryLink { pid, skolem_id: sk })
    } else {
        Ok(acc)
    }
}

/// The first pass from entry `i` of the link mapping on.
pub open spec fn wkt_pass_from(
    m1: Seq<(Seq<char>, Seq<char>)>,
    m2: Seq<(Seq<char>, GeoView)>,
    acc: Seq<(Seq<char>, GeoView)>,
    i: int,
    policy: MissingTargetPolicy,
) -> Result<Seq<(Seq<char>, GeoView)>, ErrorView>
    recommends
        0 <= i <= m1.len(),
    decreases m1.len() - i,
    when 0 <= i <= m1.len()
{
    if i == m1.len() {
        Ok(acc)
    } else {
        match wkt_step(acc, m1[i].0, m1[i].1, m2, policy) {
            Err(e) => Err(e),
            Ok(acc2) => wkt_pass_from(m1, m2, acc2, i + 1, policy),
        }
    }
}

/// One step of the second pass: resolve the point link `(pid, sk)`
/// against the accumulators and the canonical mapping so far. A complete
/// point fills a gap; against a canonical point it must agree within the
/// tolerance; a canonical non-point geometry is preserved as-is.
pub open spec fn point_step(
    acc: Seq<(Seq<char>, GeoView)>,
    pid: Seq<char>,
    sk: Seq<char>,
    m4: Seq<(Seq<char>, PartialPoint)>,
    policy: MissingTargetPolicy,
) -> Result<Seq<(Seq<char>, GeoView)>, ErrorView> {
    if !assoc_has(m4, sk) {
        if policy is Abort {
            Err(ErrorView::MissingPointTarget { pid, skolem_id: sk })
        } else {
            Ok(acc)
        }
    } else {
        match assoc_get(m4, sk) {
            PartialPoint::Complete { x, y } => {
                if assoc_has(acc, pid) {
                    match assoc_get(acc, pid) {
                        GeoView::Point { x: gx, y: gy } => {
                            if points_close(gx, gy, x as int, y as int) {
                                Ok(acc)
                            } else {
                                Err(
                                    ErrorView::GeometryConflict {
                                        pid,
                                        geometry: assoc_get(acc, pid),
                                        point: GeoPoint { x, y },
                                    },
                                )
                            }
                        },
                        GeoView::Wkt { .. } => Ok(acc),
                    }
                } else {
                    Ok(assoc_insert(acc, pid, GeoView::Point { x: x as int, y: y as int }))
                }
            },
            _ => Err(ErrorView::IncompletePoint { pid, skolem_id: sk }),
        }
    }
}

/// The second pass from entry `i` of the point link mapping on.
pub open spec fn point_pass_from(
    m3: Seq<(Seq<char>, Seq<char>)>,
    m4: Seq<(Seq<char>, PartialPoint)>,
    acc: Seq<(Seq<char>, GeoView)>,
    i: int,
    policy: MissingTargetPolicy,
) -> Result<Seq<(Seq<char>, GeoView)>, ErrorView>
    recommends
        0 <= i <= m3.len(),
    decreases m3.len() - i,
    when 0 <= i <= m3.len()
{
    if i == m3.len() {
        Ok(acc)
    } else {
        match point_step(acc, m3[i].0, m3[i].1, m4, policy) {
            Err(e) => Err(e),
            Ok(acc2) => point_pass_from(m3, m4, acc2, i + 1, policy),
        }
    }
}

/// The canonical mapping the four intermediate mappings denote: the first
/// pass over every well-known-text link, then the second pass over every
/// point link; or the first error.
pub open spec fn reconcile_spec(m: MapsView, policy: MissingTargetPolicy) -> Result<
    Seq<(Seq<char>, GeoView)>,
    ErrorView,
> {
    match wkt_pass_from(m.m1, m.m2, Seq::empty(), 0, policy) {
        Err(e) => Err(e),
        Ok(acc) => point_pass_from(m.m3, m.m4, acc, 0, policy),
    }
}

/// Every geometry in a canonical mapping is well-formed.
pub open spec fn canon_values_wf(s: Seq<(Seq<char>, GeoView)>) -> bool {
    forall|i: int| 0 <= i < s.len() ==> geo_wf(#[trigger] s[i].1)
}

/// The first pass leaves the binding of a feature id that none of the
/// remaining link entries names unchanged, and keeps keys distinct.
proof fn lemma_wkt_pass_preserves(
    m1: Seq<(Seq<char>, Seq<char>)>,
    m2: Seq<(Seq<char>, GeoView)>,
    acc: Seq<(Seq<char>, GeoView)>,
    i: int,
    policy: MissingTargetPolicy,
    pid: Seq<char>,
)
    requires
        0 <= i <= m1.len(),
        assoc_wf(acc),
        forall|k: int| i <= k < m1.len() ==> m1[k].0 != pid,
        wkt_pass_from(m1, m2, acc, i, policy) is Ok,
    ensures
        wkt_pass_from(m1, m2, acc, i, policy) matches Ok(res) ==> {
            &&& assoc_wf(res)
            &&& assoc_has(res, pid) == assoc_has(acc, pid)
            &&& (assoc_has(acc, pid) ==> assoc_get(res, pid) == assoc_get(acc, pid))
        },
    decreases m1.len() - i,
{
    if i == m1.len() {
    } else {
        if assoc_has(m2, m1[i].1) {
            let acc2 = assoc_insert(acc, m1[i].0, assoc_get(m2, m1[i].1));
            lemma_assoc_insert_wf(acc, m1[i].0, assoc_get(m2, m1[i].1));
            crate::assoc::lemma_assoc_insert_other(acc, m1[i].0, assoc_get(m2, m1[i].1), pid);
            lemma_wkt_pass_preserves(m1, m2, acc2, i + 1, policy, pid);
        } else if policy is Abort {
        } else {
            lemma_wkt_pass_preserves(m1, m2, acc, i + 1, policy, pid);
        }
    }
}

/// After a successful first pass, a feature id whose link entry resolves
/// is bound to exactly the linked well-known-text geometry.
proof fn lemma_wkt_pass_sets(
    m1: Seq<(Seq<char>, Seq<char>)>,
    m2: Seq<(Seq<char>, GeoView)>,
    acc: Seq<(Seq<char>, GeoView)>,
    i: int,
    j: int,
    policy: MissingTargetPolicy,
)
    requires
        0 <= i <= j < m1.len(),
        assoc_wf(m1),
        assoc_wf(acc),
        assoc_has(m2, m1[j].1),
        wkt_pass_from(m1, m2, acc, i, policy) is Ok,
    ensures
        wkt_pass_from(m1, m2, acc, i, policy) matches Ok(res) ==> {
            &&& assoc_wf(res)
            &&& assoc_has(res, m1[j].0)
            &&& assoc_get(res, m1[j].0) == assoc_get(m2, m1[j].1)
        },
    decreases m1.len() - i,
{
    let pid = m1[j].0;
    if i < j {
        assert(m1[i].0 != pid);
        if assoc_has(m2, m1[i].1) {
            let acc2 = assoc_insert(acc, m1[i].0, assoc_get(m2, m1[i].1));
            lemma_assoc_insert_wf(acc, m1[i].0, assoc_get(m2, m1[i].1));
            lemma_wkt_pass_sets(m1, m2, acc2, i + 1, j, policy);
        } else {
            lemma_wkt_pass_sets(m1, m2, acc, i + 1, j, policy);
        }
    } else {
        let acc2 = assoc_insert(acc, pid, assoc_get(m2, m1[j].1));
        lemma_assoc_insert_wf(acc, pid, assoc_get(m2, m1[j].1));
        lemma_assoc_insert_same(acc, pid, assoc_get(m2, m1[j].1));
        assert(forall|k: int| j + 1 <= k < m1.len() ==> m1[k].0 != pid);
        lemma_wkt_pass_preserves(m1, m2, acc2, j + 1, policy, pid);
    }
}

/// The second pass leaves the binding of a feature id that none of the
/// remaining point link entries names unchanged, and keeps keys distinct.
proof fn lemma_point_pass_preserves(
    m3: Seq<(Seq<char>, Seq<char>)>,
    m4: Seq<(Seq<char>, PartialPoint)>,
    acc: Seq<(Seq<char>, GeoView)>,
    i: int,
    policy: MissingTargetPolicy,
    pid: Seq<char>,
)
    requires
        0 <= i <= m3.len(),
        assoc_wf(acc),
        forall|k: int| i <= k < m3.len() ==> m3[k].0 != pid,
        point_pass_from(m3, m4, acc, i, policy) is Ok,
    ensures
        point_pass_from(m3, m4, acc, i, policy) matches Ok(res) ==> {
            &&& assoc_wf(res)
            &&& assoc_has(res, pid) == assoc_has(acc, pid)
            &&& (assoc_has(acc, pid) ==> assoc_get(res, pid) == assoc_get(acc, pid))
        },
    decreases m3.len() - i,
{
    if i == m3.len() {
    } else {
        match point_step(acc, m3[i].0, m3[i].1, m4, policy) {
            Err(_) => {},
            Ok(acc2) => {
                if acc2 != acc {
                    let pp = assoc_get(m4, m3[i].1);
                    match pp {
                        PartialPoint::Complete { x, y } => {
                            lemma_assoc_insert_wf(
                                acc,
                                m3[i].0,
                                GeoView::Point { x: x as int, y: y as int },
                            );
                            crate::assoc::lemma_assoc_insert_other(
                                acc,
                                m3[i].0,
                                GeoView::Point { x: x as int, y: y as int },
                                pid,
                            );
                        },
                        _ => {},
                    }
                }
                lemma_point_pass_preserves(m3, m4, acc2, i + 1, policy, pid);
            },
        }
    }
}

/// After a successful second pass, a feature id with no binding yet whose
/// point link entry resolves to a complete accumulator is bound to that
/// point.
proof fn lemma_point_pass_gap(
    m3: Seq<(Seq<char>, Seq<char>)>,
    m4: Seq<(Seq<char>, PartialPoint)>,
    acc: Seq<(Seq<char>, GeoView)>,
    i: int,
    j: int,
    policy: MissingTargetPolicy,
)
    requires
        0 <= i <= j < m3.len(),
        assoc_wf(m3),
        assoc_wf(acc),
        assoc_has(m4, m3[j].1),
        assoc_get(m4, m3[j].1) is Complete,
        !assoc_has(acc, m3[j].0),
        point_pass_from(m3, m4, acc, i, policy) is Ok,
    ensures
        point_pass_from(m3, m4, acc, i, policy) matches Ok(res) ==> {
            &&& assoc_wf(res)
            &&& assoc_has(res, m3[j].0)
            &&& assoc_get(res, m3[j].0) == (GeoView::Point {
                x: assoc_get(m4, m3[j].1)->Complete_x as int,
                y: assoc_get(m4, m3[j].1)->Complete_y as int,
            })
        },
    decreases m3.len() - i,
{
    let pid = m3[j].0;
    if i < j {
        assert(m3[i].0 != pid);
        match point_step(acc, m3[i].0, m3[i].1, m4, policy) {
            Err(_) => {},
            Ok(acc2) => {
                if acc2 != acc {
                    let pp = assoc_get(m4, m3[i].1);
                    match pp {
                        PartialPoint::Complete { x, y } => {
                            lemma_assoc_insert_wf(
                                acc,
                                m3[i].0,
                                GeoView::Point { x: x as int, y: y as int },
                            );
                            crate::assoc::lemma_assoc_insert_other(
                                acc,
                                m3[i].0,
                                GeoView::Point { x: x as int, y: y as int },
                                pid,
                            );
                        },
                        _ => {},
                    }
                }
                lemma_point_pass_gap(m3, m4, acc2, i + 1, j, policy);
            },
        }
    } else {
        match assoc_get(m4, m3[j].1) {
            PartialPoint::Complete { x, y } => {
                let g = GeoView::Point { x: x as int, y: y as int };
                let acc2 = assoc_insert(acc, pid, g);
                lemma_assoc_insert_wf(acc, pid, g);
                lemma_assoc_insert_same(acc, pid, g);
                assert(forall|k: int| j + 1 <= k < m3.len() ==> m3[k].0 != pid);
                lemma_point_pass_preserves(m3, m4, acc2, j + 1, policy, pid);
            },
            _ => {},
        }
    }
}

/// A successful second pass never changes the binding of a feature id
/// whose binding is a non-point geometry or a point that agrees with its
/// complete accumulator.
proof fn lemma_point_pass_keeps(
    m3: Seq<(Seq<char>, Seq<char>)>,
    m4: Seq<(Seq<char>, PartialPoint)>,
    acc: Seq<(Seq<char>, GeoView)>,
    i: int,
    policy: MissingTargetPolicy,
    pid: Seq<char>,
)
    requires
        0 <= i <= m3.len(),
        assoc_wf(m3),
        assoc_wf(acc),
        assoc_has(acc, pid),
        forall|k: int|
            i <= k < m3.len() && m3[k].0 == pid ==> {
                let pp = assoc_get(m4, m3[k].1);
                assoc_has(m4, m3[k].1) && pp is Complete ==> match assoc_get(acc, pid) {
                    GeoView::Point { x: gx, y: gy } => points_close(
                        gx,
                        gy,
                        pp->Complete_x as int,
                        pp->Complete_y as int,
                    ),
                    GeoView::Wkt { .. } => true,
                }
            },
        point_pass_from(m3, m4, acc, i, policy) is Ok,
    ensures
        point_pass_from(m3, m4, acc, i, policy) matches Ok(res) ==> {
            &&& assoc_wf(res)
            &&& assoc_has(res, pid)
            &&& assoc_get(res, pid) == assoc_get(acc, pid)
        },
    decreases m3.len() - i,
{
    if i == m3.len() {
    } else {
        match point_step(acc, m3[i].0, m3[i].1, m4, policy) {
            Err(_) => {},
            Ok(acc2) => {
                if acc2 != acc {
                    let pp = assoc_get(m4, m3[i].1);
                    match pp {
                        PartialPoint::Complete { x, y } => {
                            let g = GeoView::Point { x: x as int, y: y as int };
                            lemma_assoc_insert_wf(acc, m3[i].0, g);
                            if m3[i].0 != pid {
                                crate::assoc::lemma_assoc_insert_other(acc, m3[i].0, g, pid);
                            }
                        },
                        _ => {},
                    }
                }
                assert(assoc_has(acc2, pid) && assoc_get(acc2, pid) == assoc_get(acc, pid));
                lemma_point_pass_keeps(m3, m4, acc2, i + 1, policy, pid);
            },
        }
    }
}

/// The second pass fails where a feature id is bound to a point that
/// disagrees with the complete accumulator of one of its link entries.
proof fn lemma_point_pass_conflict(
    m3: Seq<(Seq<char>, Seq<char>)>,
    m4: Seq<(Seq<char>, PartialPoint)>,
    acc: Seq<(Seq<char>, GeoView)>,
    i: int,
    j: int,
    policy: MissingTargetPolicy,
)
    requires
        0 <= i <= j < m3.len(),
        assoc_wf(m3),
        assoc_wf(acc),
        assoc_has(m4, m3[j].1),
        assoc_get(m4, m3[j].1) is Complete,
        assoc_has(acc, m3[j].0),
        assoc_get(acc, m3[j].0) is Point,
        !points_close(
            assoc_get(acc, m3[j].0)->Point_x,
            assoc_get(acc, m3[j].0)->Point_y,
            assoc_get(m4, m3[j].1)->Complete_x as int,
            assoc_get(m4, m3[j].1)->Complete_y as int,
        ),
    ensures
        point_pass_from(m3, m4, acc, i, policy) is Err,
    decreases m3.len() - i,
{
    let pid = m3[j].0;
    if i < j {
        assert(m3[i].0 != pid);
        match point_step(acc, m3[i].0, m3[i].1, m4, policy) {
            Err(_) => {},
            Ok(acc2) => {
                if acc2 != acc {
                    let pp = assoc_get(m4, m3[i].1);
                    match pp {
                        PartialPoint::Complete { x, y } => {
                            let g = GeoView::Point { x: x as int, y: y as int };
                            lemma_assoc_insert_wf(acc, m3[i].0, g);
                            crate::assoc::lemma_assoc_insert_other(acc, m3[i].0, g, pid);
                        },
                        _ => {},
                    }
                }
                lemma_point_pass_conflict(m3, m4, acc2, i + 1, j, policy);
            },
        }
    }
}

/// Law: a feature id linked only to a well-known-text geometry is bound,
/// in the canonical mapping, to exactly that geometry.
pub proof fn lemma_wkt_only_feature(m: MapsView, policy: MissingTargetPolicy, pid: Seq<char>)
    requires
        assoc_wf(m.m1),
        assoc_wf(m.m3),
        assoc_has(m.m1, pid),
        assoc_has(m.m2, assoc_get(m.m1, pid)),
        !assoc_has(m.m3, pid),
        reconcile_spec(m, policy) is Ok,
    ensures
        reconcile_spec(m, policy) matches Ok(c) ==> assoc_has(c, pid) && assoc_get(c, pid)
            == assoc_get(m.m2, assoc_get(m.m1, pid)),
{
    lemma_find_key_props(m.m1, pid);
    let j = crate::assoc::find_key(m.m1, pid);
    assert(m.m1[j].0 == pid && m.m1[j].1 == assoc_get(m.m1, pid));
    match wkt_pass_from(m.m1, m.m2, Seq::empty(), 0, policy) {
        Err(_) => {},
        Ok(acc) => {
            lemma_wkt_pass_sets(m.m1, m.m2, Seq::empty(), 0, j, policy);
            lemma_find_key_props(m.m3, pid);
            lemma_point_pass_preserves(m.m3, m.m4, acc, 0, policy, pid);
        },
    }
}

/// Law: a feature id linked only to a complete pair of coordinate quads
/// is bound, in the canonical mapping, to the point of that pair:
/// the longitude as `x` and the latitude as `y`.
pub proof fn lemma_point_only_feature(m: MapsView, policy: MissingTargetPolicy, pid: Seq<char>)
    requires
        assoc_wf(m.m1),
        assoc_wf(m.m3),
        !assoc_has(m.m1, pid),
        assoc_has(m.m3, pid),
        assoc_has(m.m4, assoc_get(m.m3, pid)),
        assoc_get(m.m4, assoc_get(m.m3, pid)) is Complete,
        reconcile_spec(m, policy) is Ok,
    ensures
        reconcile_spec(m, policy) matches Ok(c) ==> assoc_has(c, pid) && assoc_get(c, pid)
            == (GeoView::Point {
            x: assoc_get(m.m4, assoc_get(m.m3, pid))->Complete_x as int,
            y: assoc_get(m.m4, assoc_get(m.m3, pid))->Complete_y as int,
        }),
{
    match wkt_pass_from(m.m1, m.m2, Seq::empty(), 0, policy) {
        Err(_) => {},
        Ok(acc) => {
            lemma_find_key_props(m.m1, pid);
            lemma_wkt_pass_preserves(m.m1, m.m2, Seq::empty(), 0, policy, pid);
            assert(!assoc_has(acc, pid));
            lemma_find_key_props(m.m3, pid);
            let j = crate::assoc::find_key(m.m3, pid);
            assert(m.m3[j].0 == pid && m.m3[j].1 == assoc_get(m.m3, pid));
            lemma_point_pass_gap(m.m3, m.m4, acc, 0, j, policy);
        },
    }
}

/// Law: where a feature has both encodings and they agree within the
/// tolerance on each axis, the canonical geometry is the well-known-text
/// geometry, not the point.
pub proof fn lemma_agreeing_point_keeps_wkt(
    m: MapsView,
    policy: MissingTargetPolicy,
    pid: Seq<char>,
)
    requires
        assoc_wf(m.m1),
        assoc_wf(m.m3),
        assoc_has(m.m1, pid),
        assoc_has(m.m2, assoc_get(m.m1, pid)),
        assoc_get(m.m2, assoc_get(m.m1, pid)) is Point,
        assoc_has(m.m3, pid),
        assoc_has(m.m4, assoc_get(m.m3, pid)),
        assoc_get(m.m4, assoc_get(m.m3, pid)) is Complete,
        points_close(
            assoc_get(m.m2, assoc_get(m.m1, pid))->Point_x,
            assoc_get(m.m2, assoc_get(m.m1, pid))->Point_y,
            assoc_get(m.m4, assoc_get(m.m3, pid))->Complete_x as int,
            assoc_get(m.m4, assoc_get(m.m3, pid))->Complete_y as int,
        ),
        reconcile_spec(m, policy) is Ok,
    ensures
        reconcile_spec(m, policy) matches Ok(c) ==> assoc_has(c, pid) && assoc_get(c, pid)
            == assoc_get(m.m2, assoc_get(m.m1, pid)),
{
    lemma_find_key_props(m.m1, pid);
    let j1 = crate::assoc::find_key(m.m1, pid);
    match wkt_pass_from(m.m1, m.m2, Seq::empty(), 0, policy) {
        Err(_) => {},
        Ok(acc) => {
            lemma_wkt_pass_sets(m.m1, m.m2, Seq::empty(), 0, j1, policy);
            lemma_find_key_props(m.m3, pid);
            assert forall|k: int|
                0 <= k < m.m3.len() && m.m3[k].0 == pid implies m.m3[k].1 == assoc_get(
                m.m3,
                pid,
            ) by {
                crate::assoc::lemma_find_key_unique(m.m3, pid, k);
            }
            lemma_point_pass_keeps(m.m3, m.m4, acc, 0, policy, pid);
        },
    }
}

/// The second pass over the entries from `i` (inclusive) to `j`
/// (exclusive) only.
pub open spec fn point_pass_between(
    m3: Seq<(Seq<char>, Seq<char>)>,
    m4: Seq<(Seq<char>, PartialPoint)>,
    acc: Seq<(Seq<char>, GeoView)>,
    i: int,
    j: int,
    policy: MissingTargetPolicy,
) -> Result<Seq<(Seq<char>, GeoView)>, ErrorView>
    recommends
        0 <= i <= j <= m3.len(),
    decreases j - i,
    when 0 <= i <= j <= m3.len()
{
    if i >= j {
        Ok(acc)
    } else {
        match point_step(acc, m3[i].0, m3[i].1, m4, policy) {
            Err(e) => Err(e),
            Ok(acc2) => point_pass_between(m3, m4, acc2, i + 1, j, policy),
        }
    }
}

/// The second pass from `i` on is the pass between `i` and `j`,
/// continued from `j`.
proof fn lemma_point_pass_split(
    m3: Seq<(Seq<char>, Seq<char>)>,
    m4: Seq<(Seq<char>, PartialPoint)>,
    acc: Seq<(Seq<char>, GeoView)>,
    i: int,
    j: int,
    policy: MissingTargetPolicy,
)
    requires
        0 <= i <= j <= m3.len(),
    ensures
        point_pass_from(m3, m4, acc, i, policy) == (match point_pass_between(
            m3,
            m4,
            acc,
            i,
            j,
            policy,
        ) {
            Err(e) => Err::<Seq<(Seq<char>, GeoView)>, ErrorView>(e),
            Ok(a) => point_pass_from(m3, m4, a, j, policy),
        }),
    decreases j - i,
{
    if i < j {
        match point_step(acc, m3[i].0, m3[i].1, m4, policy) {
            Err(_) => {},
            Ok(acc2) => {
                lemma_point_pass_split(m3, m4, acc2, i + 1, j, policy);
            },
        }
    }
}

/// The pass between two indices leaves the binding of a feature id that
/// none of its entries names unchanged, and keeps keys distinct.
proof fn lemma_point_pass_between_preserves(
    m3: Seq<(Seq<char>, Seq<char>)>,
    m4: Seq<(Seq<char>, PartialPoint)>,
    acc: Seq<(Seq<char>, GeoView)>,
    i: int,
    j: int,
    policy: MissingTargetPolicy,
    pid: Seq<char>,
)
    requires
        0 <= i <= j <= m3.len(),
        assoc_wf(acc),
        forall|k: int| i <= k < j ==> m3[k].0 != pid,
        point_pass_between(m3, m4, acc, i, j, policy) is Ok,
    ensures
        point_pass_between(m3, m4, acc, i, j, policy) matches Ok(res) ==> {
            &&& assoc_wf(res)
            &&& assoc_has(res, pid) == assoc_has(acc, pid)
            &&& (assoc_has(acc, pid) ==> assoc_get(res, pid) == assoc_get(acc, pid))
        },
    decreases j - i,
{
    if i < j {
        match point_step(acc, m3[i].0, m3[i].1, m4, policy) {
            Err(_) => {},
            Ok(acc2) => {
                if acc2 != acc {
                    let pp = assoc_get(m4, m3[i].1);
                    match pp {
                        PartialPoint::Complete { x, y } => {
                            let g = GeoView::Point { x: x as int, y: y as int };
                            lemma_assoc_insert_wf(acc, m3[i].0, g);
                            crate::assoc::lemma_assoc_insert_other(acc, m3[i].0, g, pid);
                        },
                        _ => {},
                    }
                }
                lemma_point_pass_between_preserves(m3, m4, acc2, i + 1, j, policy, pid);
            },
        }
    }
}

/// Law: where the first pass succeeds, every point link entry before
/// this feature's resolves without an error, and the feature's two
/// encodings disagree by at least the tolerance on some axis,
/// reconciliation fails with exactly `GeometryConflict`, naming the
/// feature id and both geometries.
pub proof fn lemma_conflicting_point_names_feature(
    m: MapsView,
    policy: MissingTargetPolicy,
    pid: Seq<char>,
)
    requires
        assoc_wf(m.m1),
        assoc_wf(m.m3),
        assoc_has(m.m1, pid),
        assoc_has(m.m2, assoc_get(m.m1, pid)),
        assoc_get(m.m2, assoc_get(m.m1, pid)) is Point,
        assoc_has(m.m3, pid),
        assoc_has(m.m4, assoc_get(m.m3, pid)),
        assoc_get(m.m4, assoc_get(m.m3, pid)) is Complete,
        !points_close(
            assoc_get(m.m2, assoc_get(m.m1, pid))->Point_x,
            assoc_get(m.m2, assoc_get(m.m1, pid))->Point_y,
            assoc_get(m.m4, assoc_get(m.m3, pid))->Complete_x as int,
            assoc_get(m.m4, assoc_get(m.m3, pid))->Complete_y as int,
        ),
        wkt_pass_from(m.m1, m.m2, Seq::empty(), 0, policy) is Ok,
        wkt_pass_from(m.m1, m.m2, Seq::empty(), 0, policy) matches Ok(acc)
            ==> point_pass_between(
            m.m3,
            m.m4,
            acc,
            0,
            crate::assoc::find_key(m.m3, pid),
            policy,
        ) is Ok,
    ensures
        reconcile_spec(m, policy) == Err::<Seq<(Seq<char>, GeoView)>, ErrorView>(
            ErrorView::GeometryConflict {
                pid,
                geometry: assoc_get(m.m2, assoc_get(m.m1, pid)),
                point: GeoPoint {
                    x: assoc_get(m.m4, assoc_get(m.m3, pid))->Complete_x,
                    y: assoc_get(m.m4, assoc_get(m.m3, pid))->Complete_y,
                },
            },
        ),
{
    lemma_find_key_props(m.m1, pid);
    let j1 = crate::assoc::find_key(m.m1, pid);
    lemma_find_key_props(m.m3, pid);
    let j3 = crate::assoc::find_key(m.m3, pid);
    assert(m.m3[j3].0 == pid && m.m3[j3].1 == assoc_get(m.m3, pid));
    match wkt_pass_from(m.m1, m.m2, Seq::empty(), 0, policy) {
        Err(_) => {},
        Ok(acc) => {
            lemma_wkt_pass_sets(m.m1, m.m2, Seq::empty(), 0, j1, policy);
            lemma_point_pass_split(m.m3, m.m4, acc, 0, j3, policy);
            match point_pass_between(m.m3, m.m4, acc, 0, j3, policy) {
                Err(_) => {},
                Ok(accj) => {
                    lemma_point_pass_between_preserves(m.m3, m.m4, acc, 0, j3, policy, pid);
                    assert(point_step(accj, m.m3[j3].0, m.m3[j3].1, m.m4, policy)
                        == Err::<Seq<(Seq<char>, GeoView)>, ErrorView>(
                        ErrorView::GeometryConflict {
                            pid,
                            geometry: assoc_get(m.m2, assoc_get(m.m1, pid)),
                            point: GeoPoint {
                                x: assoc_get(m.m4, assoc_get(m.m3, pid))->Complete_x,
                                y: assoc_get(m.m4, assoc_get(m.m3, pid))->Complete_y,
                            },
                        },
                    ));
                },
            }
        },
    }
}

/// Law: where a feature has both encodings and they disagree by at least
/// the tolerance on some axis, reconciliation fails.
pub proof fn lemma_conflicting_point_fails(
    m: MapsView,
    policy: MissingTargetPolicy,
    pid: Seq<char>,
)
    requires
        assoc_wf(m.m1),
        assoc_wf(m.m3),
        assoc_has(m.m1, pid),
        assoc_has(m.m2, assoc_get(m.m1, pid)),
        assoc_get(m.m2, assoc_get(m.m1, pid)) is Point,
        assoc_has(m.m3, pid),
        assoc_has(m.m4, assoc_get(m.m3, pid)),
        assoc_get(m.m4, assoc_get(m.m3, pid)) is Complete,
        !points_close(
            assoc_get(m.m2, assoc_get(m.m1, pid))->Point_x,
            assoc_get(m.m2, assoc_get(m.m1, pid))->Point_y,
            assoc_get(m.m4, assoc_get(m.m3, pid))->Complete_x as int,
            assoc_get(m.m4, assoc_get(m.m3, pid))->Complete_y as int,
        ),
    ensures
        reconcile_spec(m, policy) is Err,
{
    lemma_find_key_props(m.m1, pid);
    let j1 = crate::assoc::find_key(m.m1, pid);
    match wkt_pass_from(m.m1, m.m2, Seq::empty(), 0, policy) {
        Err(_) => {},
        Ok(acc) => {
            lemma_wkt_pass_sets(m.m1, m.m2, Seq::empty(), 0, j1, policy);
            lemma_find_key_props(m.m3, pid);
            let j3 = crate::assoc::find_key(m.m3, pid);
            assert(m.m3[j3].0 == pid && m.m3[j3].1 == assoc_get(m.m3, pid));
            lemma_point_pass_conflict(m.m3, m.m4, acc, 0, j3, policy);
        },
    }
}

/// Merge the four intermediate mappings into one mapping from feature id
/// to canonical geometry, under the given missing-target policy: exactly
/// `reconcile_spec` of the mappings.
pub fn combine_geometry_representations_with_policy(
    maps: HashMaps,
    policy: MissingTargetPolicy,
) -> (r: Result<AssocMap<GeoValue>, TriplesError>)
    requires
        maps.wf(),
    ensures
        match r {
            Ok(c) => {
                &&& c.wf()
                &&& canon_values_wf(c@)
                &&& reconcile_spec(maps@, policy) == Ok::<Seq<(Seq<char>, GeoView)>, ErrorView>(
                    c@,
                )
            },
            Err(e) => reconcile_spec(maps@, policy) == Err::<
                Seq<(Seq<char>, GeoView)>,
                ErrorView,
            >(e@),
        },
{
    let ghost mv = maps@;
    let mut canon: AssocMap<GeoValue> = AssocMap::new();
    // first pass: every well-known-text link
    let n1 = maps.pid_to_geosparql_skolemization_id.len();
    let mut i: usize = 0;
    while i < n1
        invariant
            0 <= i <= n1,
            maps.wf(),
            mv == maps@,
            n1 == mv.m1.len(),
            canon.wf(),
            canon_values_wf(canon@),
            wkt_pass_from(mv.m1, mv.m2, Seq::empty(), 0, policy) == wkt_pass_from(
                mv.m1,
                mv.m2,
                canon@,
                i as int,
                policy,
            ),
        decreases n1 - i,
    {
        let pid = maps.pid_to_geosparql_skolemization_id.key_at(i);
        let sk = maps.pid_to_geosparql_skolemization_id.val_at(i);
        match maps.geosparql_skolemization_id_to_geometry.get(sk) {
            Some(g) => {
                proof {
                    lemma_find_key_props(mv.m2, sk@);
                    assert(geo_wf(g@));
                    canon.lemma_wf_distinct();
                    lemma_assoc_insert_values(canon@, pid@, g@, |x: GeoView| geo_wf(x));
                }
                canon.insert(pid.clone(), g.duplicate());
            },
            None => {
                if matches!(policy, MissingTargetPolicy::Abort) {
                    return Err(
                        TriplesError::DanglingGeometryLink {
                            pid: pid.clone(),
                            skolem_id: sk.clone(),
                        },
                    );
                }
            },
        }
        i = i + 1;
    }
    // second pass: every schema.org point link
    let n3 = maps.pid_to_schema_geo_skolemization_id.len();
    let mut j: usize = 0;
    proof {
        assert(wkt_pass_from(mv.m1, mv.m2, canon@, n1 as int, policy) == Ok::<
            Seq<(Seq<char>, GeoView)>,
            ErrorView,
        >(canon@));
    }
    let ghost after_wkt = canon@;
    while j < n3
        invariant
            0 <= j <= n3,
            maps.wf(),
            mv == maps@,
            n3 == mv.m3.len(),
            canon.wf(),
            canon_values_wf(canon@),
            point_pass_from(mv.m3, mv.m4, after_wkt, 0, policy) == point_pass_from(
                mv.m3,
                mv.m4,
                canon@,
                j as int,
                policy,
            ),
            wkt_pass_from(mv.m1, mv.m2, Seq::empty(), 0, policy) == Ok::<
                Seq<(Seq<char>, GeoView)>,
                ErrorView,
            >(after_wkt),
        decreases n3 - j,
    {
        let pid = maps.pid_to_schema_geo_skolemization_id.key_at(j);
        let sk = maps.pid_to_schema_geo_skolemization_id.val_at(j);
        match maps.schema_geo_skolemization_id_to_geometry.get(sk) {
            None => {
                if matches!(policy, MissingTargetPolicy::Abort) {
                    return Err(
                        TriplesError::MissingPointTarget {
                            pid: pid.clone(),
                            skolem_id: sk.clone(),
                        },
                    );
                }
            },
            Some(pp) => {
                proof {
                    lemma_find_key_props(mv.m4, sk@);
                    assert(pp_wf(pp@));
                }
                match *pp {
                    PartialPoint::Complete { x, y } => {
                        let pt = GeoPoint { x, y };
                        match canon.get(pid) {
                            Some(g) => {
                                let is_point = matches!(g, GeoValue::Point { .. });
                                proof {
                                    canon.lemma_wf_distinct();
                                    lemma_find_key_props(canon@, pid@);
                                    assert(geo_wf(g@));
                                }
                                if is_point {
                                    if !generally_equal(g, &pt) {
                                        return Err(
                                            TriplesError::GeometryConflict {
                                                pid: pid.clone(),
                                                geometry: g.duplicate(),
                                                point: pt,
                                            },
                                        );
                                    }
                                }
                            },
                            None => {
                                proof {
                                    canon.lemma_wf_distinct();
                                    lemma_assoc_insert_values(
                                        canon@,
                                        pid@,
                                        GeoView::Point { x: x as int, y: y as int },
                                        |v: GeoView| geo_wf(v),
                                    );
                                }
                                canon.insert(pid.clone(), GeoValue::Point { x, y });
                            },
                        }
                    },
                    _ => {
                        return Err(
                            TriplesError::IncompletePoint {
                                pid: pid.clone(),
                                skolem_id: sk.clone(),
                            },
                        );
                    },
                }
            },
        }
        j = j + 1;
    }
    proof {
        assert(point_pass_from(mv.m3, mv.m4, canon@, n3 as int, policy) == Ok::<
            Seq<(Seq<char>, GeoView)>,
            ErrorView,
        >(canon@));
    }
    Ok(canon)
}

/// Merge the four intermediate mappings into one mapping from feature id
/// to canonical geometry, failing the whole shard on any dangling
/// reference: the conservative default policy.
pub fn combine_geometry_representations(maps: HashMaps) -> (r: Result<
    AssocMap<GeoValue>,
    TriplesError,
>)
    requires
        maps.wf(),
    ensures
        match r {
            Ok(c) => {
                &&& c.wf()
                &&& canon_values_wf(c@)
                &&& reconcile_spec(maps@, MissingTargetPolicy::Abort) == Ok::<
                    Seq<(Seq<char>, GeoView)>,
                    ErrorView,
                >(c@)
            },
            Err(e) => reconcile_spec(maps@, MissingTargetPolicy::Abort) == Err::<
                Seq<(Seq<char>, GeoView)>,
                ErrorView,
            >(e@),
        },
{
    combine_geometry_representations_with_policy(maps, MissingTargetPolicy::Abort)
}

} // verus!
