//! The quad interpreter.
//!
//! One pass over a shard's quads classifies each quad by its predicate
//! and fills four intermediate mappings: the two link mappings from
//! feature id to skolemization id, the mapping from skolemization id to
//! parsed well-known-text geometry, and the mapping from skolemization id
//! to partial point accumulator. The whole pass is specified by a fold of
//! `interp_step` over the quad sequence.

use vstd::prelude::*;

use crate::assoc::{
    assoc_get, assoc_has, assoc_insert, assoc_wf, lemma_assoc_insert_values, AssocMap,
};
use crate::coords::coord_value;
use crate::errors::{Axis, ErrorView, TriplesError};
use crate::geom::{geo_wf, parse_wkt_from_triple_string, parsed_wkt_term, GeoValue, GeoView};
use crate::partial_point::{pp_wf, set_axis_spec, PartialPoint};
use crate::text::{lenient_lexical, str_eq};

verus! {

/// One RDF statement in its lexical form: an IRI is written inside
/// angle brackets, a blank node with a `_:` prefix, and a typed literal
/// with its quoted value and `^^`-marked datatype.
pub struct Quad {
    pub subject: String,
    pub predicate: String,
    pub object: String,
}

/// Mathematical model of a quad.
pub struct QuadView {
    pub subject: Seq<char>,
    pub predicate: Seq<char>,
    pub object: Seq<char>,
}

impl View for Quad {
    type V = QuadView;

    open spec fn view(&self) -> QuadView {
        QuadView { subject: self.subject@, predicate: self.predicate@, object: self.object@ }
    }
}

/// The GeoSPARQL predicate linking a feature to its geometry node.
pub open spec fn pred_has_geometry() -> Seq<char> {
    "<http://www.opengis.net/ont/geosparql#hasGeometry>"@
}

/// The GeoSPARQL predicate carrying a well-known-text literal.
pub open spec fn pred_as_wkt() -> Seq<char> {
    "<http://www.opengis.net/ont/geosparql#asWKT>"@
}

/// The schema.org predicate linking a feature to its point node.
pub open spec fn pred_geo() -> Seq<char> {
    "<https://schema.org/geo>"@
}

/// The schema.org latitude predicate.
pub open spec fn pred_latitude() -> Seq<char> {
    "<https://schema.org/latitude>"@
}

/// The schema.org longitude predicate.
pub open spec fn pred_longitude() -> Seq<char> {
    "<https://schema.org/longitude>"@
}

/// The axis a coordinate predicate sets.
pub open spec fn axis_of(p: Seq<char>) -> Axis {
    if p == pred_latitude() {
        Axis::Latitude
    } else {
        Axis::Longitude
    }
}

/// Mathematical model of the four intermediate mappings.
pub struct MapsView {
    /// Feature id to well-known-text skolemization id.
    pub m1: Seq<(Seq<char>, Seq<char>)>,
    /// Well-known-text skolemization id to parsed geometry.
    pub m2: Seq<(Seq<char>, GeoView)>,
    /// Feature id to point skolemization id.
    pub m3: Seq<(Seq<char>, Seq<char>)>,
    /// Point skolemization id to partial point accumulator.
    pub m4: Seq<(Seq<char>, PartialPoint)>,
}

/// The model of the mappings before any quad is read.
pub open spec fn empty_maps() -> MapsView {
    MapsView {
        m1: Seq::empty(),
        m2: Seq::empty(),
        m3: Seq::empty(),
        m4: Seq::empty(),
    }
}

/// Every stored geometry and accumulator is well-formed.
pub open spec fn maps_values_wf(m: MapsView) -> bool {
    &&& forall|i: int| 0 <= i < m.m2.len() ==> geo_wf(#[trigger] m.m2[i].1)
    &&& forall|i: int| 0 <= i < m.m4.len() ==> pp_wf(#[trigger] m.m4[i].1)
}

/// Effect of one quad on the mappings: the two link predicates insert
/// with latest-write-wins; a coordinate predicate parses the literal and
/// transitions the accumulator of its subject; the well-known-text
/// predicate parses the literal into a geometry; any other predicate is
/// ignored. A parse failure or a doubly-set axis aborts the shard.
pub open spec fn interp_step(st: MapsView, q: QuadView) -> Result<MapsView, ErrorView> {
    if q.predicate == pred_has_geometry() {
        Ok(MapsView { m1: assoc_insert(st.m1, q.subject, q.object), ..st })
    } else if q.predicate == pred_geo() {
        Ok(MapsView { m3: assoc_insert(st.m3, q.subject, q.object), ..st })
    } else if q.predicate == pred_latitude() || q.predicate == pred_longitude() {
        let axis = axis_of(q.predicate);
        match coord_value(lenient_lexical(q.object)) {
            None => Err(ErrorView::MalformedNumber { literal: q.object }),
            Some(v) => {
                let cur = if assoc_has(st.m4, q.subject) {
                    assoc_get(st.m4, q.subject)
                } else {
                    PartialPoint::Empty
                };
                match set_axis_spec(cur, axis, v as i128) {
                    None => Err(ErrorView::DuplicateCoordinate { skolem_id: q.subject, axis }),
                    Some(pp) => Ok(MapsView { m4: assoc_insert(st.m4, q.subject, pp), ..st }),
                }
            },
        }
    } else if q.predicate == pred_as_wkt() {
        match parsed_wkt_term(q.object) {
            None => Err(ErrorView::MalformedGeometry { literal: q.object }),
            Some(g) => Ok(MapsView { m2: assoc_insert(st.m2, q.subject, g), ..st }),
        }
    } else {
        Ok(st)
    }
}

/// Fold of `interp_step` over the quads still to be read, from state `st`.
pub open spec fn interp_from(st: MapsView, qs: Seq<QuadView>) -> Result<MapsView, ErrorView>
    decreases qs.len(),
{
    if qs.len() == 0 {
        Ok(st)
    } else {
        match interp_step(st, qs[0]) {
            Err(e) => Err(e),
            Ok(st2) => interp_from(st2, qs.drop_first()),
        }
    }
}

/// The models of a sequence of quads.
pub open spec fn quads_view(qs: Seq<Quad>) -> Seq<QuadView> {
    qs.map_values(|q: Quad| q@)
}

/// The mappings a whole shard of quads denotes, or the first error.
pub open spec fn interp_quads(qs: Seq<QuadView>) -> Result<MapsView, ErrorView> {
    interp_from(empty_maps(), qs)
}

/// Law: a coordinate quad whose axis is already set in its subject's
/// accumulator always fails the shard with `DuplicateCoordinate`,
/// whatever else the mappings hold and whatever the coordinate value is.
pub proof fn lemma_duplicate_coordinate_fails(st: MapsView, q: QuadView)
    requires
        q.predicate == pred_latitude() || q.predicate == pred_longitude(),
        coord_value(lenient_lexical(q.object)) is Some,
        assoc_has(st.m4, q.subject),
        crate::partial_point::axis_set(assoc_get(st.m4, q.subject), axis_of(q.predicate)),
    ensures
        interp_step(st, q) == Err::<MapsView, ErrorView>(
            ErrorView::DuplicateCoordinate { skolem_id: q.subject, axis: axis_of(q.predicate) },
        ),
{
    reveal_strlit("<http://www.opengis.net/ont/geosparql#hasGeometry>");
    reveal_strlit("<http://www.opengis.net/ont/geosparql#asWKT>");
    reveal_strlit("<https://schema.org/geo>");
    reveal_strlit("<https://schema.org/latitude>");
    reveal_strlit("<https://schema.org/longitude>");
    assert(pred_has_geometry().len() == 50);
    assert(pred_geo().len() == 24);
    assert(pred_latitude().len() == 29);
    assert(pred_longitude().len() == 30);
    assert(q.predicate != pred_has_geometry());
    assert(q.predicate != pred_geo());
    let v = coord_value(lenient_lexical(q.object))->Some_0;
    crate::partial_point::lemma_duplicate_axis_always_fails(
        assoc_get(st.m4, q.subject),
        axis_of(q.predicate),
        v as i128,
    );
}

/// Law: the two coordinate quads of a fresh point may arrive in either
/// order. Whether the latitude or the longitude quad comes first, both
/// orders succeed and leave the same mappings: the accumulator of the
/// subject is complete, with the longitude as `x` and the latitude as
/// `y`, and nothing else changes.
pub proof fn lemma_coordinate_order_independent(st: MapsView, qlat: QuadView, qlon: QuadView)
    requires
        qlat.predicate == pred_latitude(),
        qlon.predicate == pred_longitude(),
        qlat.subject == qlon.subject,
        coord_value(lenient_lexical(qlat.object)) is Some,
        coord_value(lenient_lexical(qlon.object)) is Some,
        !assoc_has(st.m4, qlat.subject),
    ensures
        ({
            let latv = coord_value(lenient_lexical(qlat.object))->Some_0;
            let lonv = coord_value(lenient_lexical(qlon.object))->Some_0;
            let complete = PartialPoint::Complete { x: lonv as i128, y: latv as i128 };
            let target = MapsView { m4: st.m4.push((qlat.subject, complete)), ..st };
            &&& (match interp_step(st, qlat) {
                Ok(st1) => interp_step(st1, qlon) == Ok::<MapsView, ErrorView>(target),
                Err(_) => false,
            })
            &&& (match interp_step(st, qlon) {
                Ok(st1) => interp_step(st1, qlat) == Ok::<MapsView, ErrorView>(target),
                Err(_) => false,
            })
        }),
{
    reveal_strlit("<http://www.opengis.net/ont/geosparql#hasGeometry>");
    reveal_strlit("<http://www.opengis.net/ont/geosparql#asWKT>");
    reveal_strlit("<https://schema.org/geo>");
    reveal_strlit("<https://schema.org/latitude>");
    reveal_strlit("<https://schema.org/longitude>");
    assert(pred_has_geometry().len() == 50);
    assert(pred_geo().len() == 24);
    assert(pred_latitude().len() == 29);
    assert(pred_longitude().len() == 30);
    let k = qlat.subject;
    let latv = coord_value(lenient_lexical(qlat.object))->Some_0;
    let lonv = coord_value(lenient_lexical(qlon.object))->Some_0;
    let complete = PartialPoint::Complete { x: lonv as i128, y: latv as i128 };
    crate::assoc::lemma_assoc_insert_twice_absent(
        st.m4,
        k,
        PartialPoint::YOnly { y: latv as i128 },
        complete,
    );
    crate::assoc::lemma_assoc_insert_twice_absent(
        st.m4,
        k,
        PartialPoint::XOnly { x: lonv as i128 },
        complete,
    );
}

/// Whether the quad is a coordinate quad for subject `k`.
pub open spec fn is_coord_quad_for(q: QuadView, k: Seq<char>) -> bool {
    (q.predicate == pred_latitude() || q.predicate == pred_longitude()) && q.subject == k
}

/// The fold over a sequence is the fold over a prefix, continued over
/// the rest.
proof fn lemma_interp_split(st: MapsView, qs: Seq<QuadView>, n: int)
    requires
        0 <= n <= qs.len(),
    ensures
        interp_from(st, qs) == (match interp_from(st, qs.take(n)) {
            Err(e) => Err::<MapsView, ErrorView>(e),
            Ok(m) => interp_from(m, qs.skip(n)),
        }),
    decreases n,
{
    if n == 0 {
        assert(qs.take(0) =~= Seq::<QuadView>::empty());
        assert(qs.skip(0) =~= qs);
    } else {
        assert(qs.take(n)[0] == qs[0]);
        match interp_step(st, qs[0]) {
            Err(_) => {},
            Ok(st2) => {
                lemma_interp_split(st2, qs.drop_first(), n - 1);
                assert(qs.take(n).drop_first() =~= qs.drop_first().take(n - 1));
                assert(qs.drop_first().skip(n - 1) =~= qs.skip(n));
            },
        }
    }
}

/// A successful step keeps the accumulator mapping's keys distinct.
proof fn lemma_step_m4_wf(st: MapsView, q: QuadView)
    requires
        assoc_wf(st.m4),
    ensures
        interp_step(st, q) matches Ok(st2) ==> assoc_wf(st2.m4),
{
    match interp_step(st, q) {
        Err(_) => {},
        Ok(st2) => {
            if st2.m4 != st.m4 {
                if q.predicate == pred_latitude() || q.predicate == pred_longitude() {
                    match coord_value(lenient_lexical(q.object)) {
                        None => {},
                        Some(v) => {
                            let cur = if assoc_has(st.m4, q.subject) {
                                assoc_get(st.m4, q.subject)
                            } else {
                                PartialPoint::Empty
                            };
                            match set_axis_spec(cur, axis_of(q.predicate), v as i128) {
                                None => {},
                                Some(pp) => {
                                    crate::assoc::lemma_assoc_insert_wf(st.m4, q.subject, pp);
                                },
                            }
                        },
                    }
                }
            }
        },
    }
}

/// A successful fold keeps the accumulator mapping's keys distinct.
proof fn lemma_fold_m4_wf(st: MapsView, qs: Seq<QuadView>)
    requires
        assoc_wf(st.m4),
    ensures
        interp_from(st, qs) matches Ok(m) ==> assoc_wf(m.m4),
    decreases qs.len(),
{
    if qs.len() > 0 {
        match interp_step(st, qs[0]) {
            Err(_) => {},
            Ok(st2) => {
                lemma_step_m4_wf(st, qs[0]);
                lemma_fold_m4_wf(st2, qs.drop_first());
            },
        }
    }
}

/// A successful step keeps an already-set axis set.
proof fn lemma_step_keeps_axis(st: MapsView, q: QuadView, k: Seq<char>, a: Axis)
    requires
        assoc_wf(st.m4),
        assoc_has(st.m4, k),
        crate::partial_point::axis_set(assoc_get(st.m4, k), a),
    ensures
        interp_step(st, q) matches Ok(st2) ==> {
            &&& assoc_has(st2.m4, k)
            &&& crate::partial_point::axis_set(assoc_get(st2.m4, k), a)
        },
{
    match interp_step(st, q) {
        Err(_) => {},
        Ok(st2) => {
            if st2.m4 != st.m4 {
                if q.predicate == pred_latitude() || q.predicate == pred_longitude() {
                    match coord_value(lenient_lexical(q.object)) {
                        None => {},
                        Some(v) => {
                            let cur = if assoc_has(st.m4, q.subject) {
                                assoc_get(st.m4, q.subject)
                            } else {
                                PartialPoint::Empty
                            };
                            match set_axis_spec(cur, axis_of(q.predicate), v as i128) {
                                None => {},
                                Some(pp) => {
                                    if q.subject == k {
                                        crate::assoc::lemma_assoc_insert_same(st.m4, k, pp);
                                    } else {
                                        crate::assoc::lemma_assoc_insert_other(
                                            st.m4,
                                            q.subject,
                                            pp,
                                            k,
                                        );
                                    }
                                },
                            }
                        },
                    }
                }
            }
        },
    }
}

/// A successful fold keeps an already-set axis set.
proof fn lemma_fold_keeps_axis(st: MapsView, qs: Seq<QuadView>, k: Seq<char>, a: Axis)
    requires
        assoc_wf(st.m4),
        assoc_has(st.m4, k),
        crate::partial_point::axis_set(assoc_get(st.m4, k), a),
    ensures
        interp_from(st, qs) matches Ok(m) ==> {
            &&& assoc_has(m.m4, k)
            &&& crate::partial_point::axis_set(assoc_get(m.m4, k), a)
        },
    decreases qs.len(),
{
    if qs.len() > 0 {
        match interp_step(st, qs[0]) {
            Err(_) => {},
            Ok(st2) => {
                lemma_step_keeps_axis(st, qs[0], k, a);
                lemma_step_m4_wf(st, qs[0]);
                lemma_fold_keeps_axis(st2, qs.drop_first(), k, a);
            },
        }
    }
}

/// A successful step that is no coordinate quad for `k` leaves the
/// accumulator binding of `k` as it was.
proof fn lemma_step_keeps_binding(st: MapsView, q: QuadView, k: Seq<char>)
    requires
        assoc_wf(st.m4),
        !is_coord_quad_for(q, k),
    ensures
        interp_step(st, q) matches Ok(st2) ==> {
            &&& assoc_has(st2.m4, k) == assoc_has(st.m4, k)
            &&& (assoc_has(st.m4, k) ==> assoc_get(st2.m4, k) == assoc_get(st.m4, k))
        },
{
    match interp_step(st, q) {
        Err(_) => {},
        Ok(st2) => {
            if st2.m4 != st.m4 {
                if q.predicate == pred_latitude() || q.predicate == pred_longitude() {
                    match coord_value(lenient_lexical(q.object)) {
                        None => {},
                        Some(v) => {
                            let cur = if assoc_has(st.m4, q.subject) {
                                assoc_get(st.m4, q.subject)
                            } else {
                                PartialPoint::Empty
                            };
                            match set_axis_spec(cur, axis_of(q.predicate), v as i128) {
                                None => {},
                                Some(pp) => {
                                    assert(q.subject != k);
                                    crate::assoc::lemma_assoc_insert_other(st.m4, q.subject, pp, k);
                                },
                            }
                        },
                    }
                }
            }
        },
    }
}

/// A successful fold over quads none of which is a coordinate quad for
/// `k` leaves the accumulator binding of `k` as it was.
proof fn lemma_fold_keeps_binding(st: MapsView, qs: Seq<QuadView>, k: Seq<char>)
    requires
        assoc_wf(st.m4),
        forall|t: int| 0 <= t < qs.len() ==> !is_coord_quad_for(#[trigger] qs[t], k),
    ensures
        interp_from(st, qs) matches Ok(m) ==> {
            &&& assoc_has(m.m4, k) == assoc_has(st.m4, k)
            &&& (assoc_has(st.m4, k) ==> assoc_get(m.m4, k) == assoc_get(st.m4, k))
        },
    decreases qs.len(),
{
    if qs.len() > 0 {
        match interp_step(st, qs[0]) {
            Err(_) => {},
            Ok(st2) => {
                lemma_step_keeps_binding(st, qs[0], k);
                lemma_step_m4_wf(st, qs[0]);
                assert(forall|t: int|
                    0 <= t < qs.drop_first().len() ==> !is_coord_quad_for(
                        #[trigger] qs.drop_first()[t],
                        k,
                    ));
                lemma_fold_keeps_binding(st2, qs.drop_first(), k);
            },
        }
    }
}

/// The effect of a coordinate quad on a state whose literal parses: the
/// step fails exactly where the axis was already set, and otherwise sets
/// it in the subject's accumulator.
proof fn lemma_coord_step_effect(st: MapsView, q: QuadView)
    requires
        assoc_wf(st.m4),
        q.predicate == pred_latitude() || q.predicate == pred_longitude(),
        coord_value(lenient_lexical(q.object)) is Some,
    ensures
        ({
            let a = axis_of(q.predicate);
            let v = coord_value(lenient_lexical(q.object))->Some_0;
            let cur = if assoc_has(st.m4, q.subject) {
                assoc_get(st.m4, q.subject)
            } else {
                PartialPoint::Empty
            };
            match interp_step(st, q) {
                Err(_) => crate::partial_point::axis_set(cur, a),
                Ok(st2) => {
                    &&& set_axis_spec(cur, a, v as i128) is Some
                    &&& assoc_has(st2.m4, q.subject)
                    &&& assoc_get(st2.m4, q.subject) == set_axis_spec(cur, a, v as i128)->Some_0
                    &&& crate::partial_point::axis_set(assoc_get(st2.m4, q.subject), a)
                },
            }
        }),
{
    reveal_strlit("<http://www.opengis.net/ont/geosparql#hasGeometry>");
    reveal_strlit("<http://www.opengis.net/ont/geosparql#asWKT>");
    reveal_strlit("<https://schema.org/geo>");
    reveal_strlit("<https://schema.org/latitude>");
    reveal_strlit("<https://schema.org/longitude>");
    assert(pred_has_geometry().len() == 50);
    assert(pred_geo().len() == 24);
    assert(pred_latitude().len() == 29);
    assert(pred_longitude().len() == 30);
    let a = axis_of(q.predicate);
    let v = coord_value(lenient_lexical(q.object))->Some_0;
    let cur = if assoc_has(st.m4, q.subject) {
        assoc_get(st.m4, q.subject)
    } else {
        PartialPoint::Empty
    };
    match set_axis_spec(cur, a, v as i128) {
        None => {},
        Some(pp) => {
            crate::assoc::lemma_assoc_insert_same(st.m4, q.subject, pp);
        },
    }
}

/// Law: a shard whose quads set the same axis twice for one point
/// skolemization id never succeeds, whatever the surrounding quads hold:
/// either an earlier quad already aborts the shard, or the second quad
/// for that axis does.
pub proof fn lemma_duplicate_axis_stream_fails(qs: Seq<QuadView>, i: int, j: int)
    requires
        0 <= i < j < qs.len(),
        qs[i].predicate == qs[j].predicate,
        qs[i].predicate == pred_latitude() || qs[i].predicate == pred_longitude(),
        qs[i].subject == qs[j].subject,
        coord_value(lenient_lexical(qs[i].object)) is Some,
        coord_value(lenient_lexical(qs[j].object)) is Some,
    ensures
        interp_quads(qs) is Err,
{
    let a = axis_of(qs[i].predicate);
    let k = qs[i].subject;
    lemma_interp_split(empty_maps(), qs, i);
    match interp_from(empty_maps(), qs.take(i)) {
        Err(_) => {},
        Ok(mi) => {
            lemma_fold_m4_wf(empty_maps(), qs.take(i));
            assert(qs.skip(i)[0] == qs[i]);
            lemma_coord_step_effect(mi, qs[i]);
            match interp_step(mi, qs[i]) {
                Err(_) => {},
                Ok(mi2) => {
                    assert(qs.skip(i).drop_first() =~= qs.skip(i + 1));
                    lemma_step_m4_wf(mi, qs[i]);
                    lemma_interp_split(mi2, qs.skip(i + 1), j - i - 1);
                    let mid = qs.skip(i + 1).take(j - i - 1);
                    match interp_from(mi2, mid) {
                        Err(_) => {},
                        Ok(mj) => {
                            lemma_fold_keeps_axis(mi2, mid, k, a);
                            assert(qs.skip(i + 1).skip(j - i - 1) =~= qs.skip(j));
                            assert(qs.skip(j)[0] == qs[j]);
                            lemma_duplicate_coordinate_fails(mj, qs[j]);
                        },
                    }
                },
            }
        },
    }
}

/// Law: where a shard's quads set the same axis twice for one point
/// skolemization id and no quad before the second of them aborts the
/// shard, the shard fails with exactly `DuplicateCoordinate`, naming the
/// id and the axis.
pub proof fn lemma_duplicate_axis_stream_names_id(qs: Seq<QuadView>, i: int, j: int)
    requires
        0 <= i < j < qs.len(),
        qs[i].predicate == qs[j].predicate,
        qs[i].predicate == pred_latitude() || qs[i].predicate == pred_longitude(),
        qs[i].subject == qs[j].subject,
        coord_value(lenient_lexical(qs[i].object)) is Some,
        coord_value(lenient_lexical(qs[j].object)) is Some,
        interp_from(empty_maps(), qs.take(j)) is Ok,
    ensures
        interp_quads(qs) == Err::<MapsView, ErrorView>(
            ErrorView::DuplicateCoordinate {
                skolem_id: qs[i].subject,
                axis: axis_of(qs[i].predicate),
            },
        ),
{
    let a = axis_of(qs[i].predicate);
    let k = qs[i].subject;
    let pre = qs.take(j);
    lemma_interp_split(empty_maps(), qs, j);
    lemma_interp_split(empty_maps(), pre, i);
    assert(pre.take(i) =~= qs.take(i));
    match interp_from(empty_maps(), pre) {
        Err(_) => {},
        Ok(mj) => {
            match interp_from(empty_maps(), qs.take(i)) {
                Err(_) => {},
                Ok(mi) => {
                    lemma_fold_m4_wf(empty_maps(), qs.take(i));
                    assert(pre.skip(i)[0] == qs[i]);
                    lemma_coord_step_effect(mi, qs[i]);
                    match interp_step(mi, qs[i]) {
                        Err(_) => {},
                        Ok(mi2) => {
                            lemma_step_m4_wf(mi, qs[i]);
                            assert(pre.skip(i).drop_first() =~= pre.skip(i + 1));
                            lemma_fold_keeps_axis(mi2, pre.skip(i + 1), k, a);
                        },
                    }
                },
            }
            // the axis is set for the subject when the second quad applies
            assert(qs.skip(j)[0] == qs[j]);
            lemma_duplicate_coordinate_fails(mj, qs[j]);
        },
    }
}

/// Law: where one latitude quad and one longitude quad are the only
/// coordinate quads of a point skolemization id in the whole shard, and
/// the shard succeeds, the id's accumulator is complete with the
/// longitude as `x` and the latitude as `y` — whichever of the two quads
/// came first.
pub proof fn lemma_point_pair_stream(qs: Seq<QuadView>, i: int, j: int)
    requires
        0 <= i < j < qs.len(),
        qs[i].subject == qs[j].subject,
        qs[i].predicate == pred_latitude() || qs[i].predicate == pred_longitude(),
        qs[j].predicate == pred_latitude() || qs[j].predicate == pred_longitude(),
        axis_of(qs[i].predicate) != axis_of(qs[j].predicate),
        coord_value(lenient_lexical(qs[i].object)) is Some,
        coord_value(lenient_lexical(qs[j].object)) is Some,
        forall|t: int|
            0 <= t < qs.len() && t != i && t != j ==> !is_coord_quad_for(
                #[trigger] qs[t],
                qs[i].subject,
            ),
        interp_quads(qs) is Ok,
    ensures
        interp_quads(qs) matches Ok(m) ==> {
            let lon = if qs[i].predicate == pred_longitude() {
                qs[i].object
            } else {
                qs[j].object
            };
            let lat = if qs[i].predicate == pred_latitude() {
                qs[i].object
            } else {
                qs[j].object
            };
            &&& assoc_has(m.m4, qs[i].subject)
            &&& assoc_get(m.m4, qs[i].subject) == (PartialPoint::Complete {
                x: coord_value(lenient_lexical(lon))->Some_0 as i128,
                y: coord_value(lenient_lexical(lat))->Some_0 as i128,
            })
        },
{
    let k = qs[i].subject;
    lemma_interp_split(empty_maps(), qs, i);
    match interp_from(empty_maps(), qs.take(i)) {
        Err(_) => {},
        Ok(mi) => {
            lemma_fold_m4_wf(empty_maps(), qs.take(i));
            assert(forall|t: int|
                0 <= t < qs.take(i).len() ==> !is_coord_quad_for(#[trigger] qs.take(i)[t], k));
            lemma_fold_keeps_binding(empty_maps(), qs.take(i), k);
            assert(!assoc_has(mi.m4, k)) by {
                crate::assoc::lemma_find_key_props(empty_maps().m4, k);
            }
            assert(qs.skip(i)[0] == qs[i]);
            lemma_coord_step_effect(mi, qs[i]);
            match interp_step(mi, qs[i]) {
                Err(_) => {},
                Ok(mi2) => {
                    assert(qs.skip(i).drop_first() =~= qs.skip(i + 1));
                    lemma_step_m4_wf(mi, qs[i]);
                    lemma_interp_split(mi2, qs.skip(i + 1), j - i - 1);
                    let mid = qs.skip(i + 1).take(j - i - 1);
                    match interp_from(mi2, mid) {
                        Err(_) => {},
                        Ok(mj) => {
                            assert(forall|t: int|
                                0 <= t < mid.len() ==> !is_coord_quad_for(#[trigger] mid[t], k));
                            lemma_fold_keeps_binding(mi2, mid, k);
                            lemma_fold_m4_wf(mi2, mid);
                            assert(qs.skip(i + 1).skip(j - i - 1) =~= qs.skip(j));
                            assert(qs.skip(j)[0] == qs[j]);
                            lemma_coord_step_effect(mj, qs[j]);
                            match interp_step(mj, qs[j]) {
                                Err(_) => {},
                                Ok(mj2) => {
                                    assert(qs.skip(j).drop_first() =~= qs.skip(j + 1));
                                    lemma_step_m4_wf(mj, qs[j]);
                                    assert(forall|t: int|
                                        0 <= t < qs.skip(j + 1).len() ==> !is_coord_quad_for(
                                            #[trigger] qs.skip(j + 1)[t],
                                            k,
                                        ));
                                    lemma_fold_keeps_binding(mj2, qs.skip(j + 1), k);
                                },
                            }
                        },
                    }
                },
            }
        },
    }
}

/// The four intermediate mappings built from one shard's quads.
pub struct HashMaps {
    pub pid_to_geosparql_skolemization_id: AssocMap<String>,
    pub geosparql_skolemization_id_to_geometry: AssocMap<GeoValue>,
    pub pid_to_schema_geo_skolemization_id: AssocMap<String>,
    pub schema_geo_skolemization_id_to_geometry: AssocMap<PartialPoint>,
}

impl View for HashMaps {
    type V = MapsView;

    open spec fn view(&self) -> MapsView {
        MapsView {
            m1: self.pid_to_geosparql_skolemization_id@,
            m2: self.geosparql_skolemization_id_to_geometry@,
            m3: self.pid_to_schema_geo_skolemization_id@,
            m4: self.schema_geo_skolemization_id_to_geometry@,
        }
    }
}

impl HashMaps {
    /// All four mappings are well-formed maps with well-formed values.
    pub open spec fn wf(self) -> bool {
        &&& self.pid_to_geosparql_skolemization_id.wf()
        &&& self.geosparql_skolemization_id_to_geometry.wf()
        &&& self.pid_to_schema_geo_skolemization_id.wf()
        &&& self.schema_geo_skolemization_id_to_geometry.wf()
        &&& maps_values_wf(self@)
    }

    /// Four empty mappings.
    pub fn new() -> (r: Self)
        ensures
            r.wf(),
            r@ == empty_maps(),
    {
        let r = HashMaps {
            pid_to_geosparql_skolemization_id: AssocMap::new(),
            geosparql_skolemization_id_to_geometry: AssocMap::new(),
            pid_to_schema_geo_skolemization_id: AssocMap::new(),
            schema_geo_skolemization_id_to_geometry: AssocMap::new(),
        };
        r
    }
}

/// Apply one quad to the mappings, or report the error that aborts the
/// shard; on an error the mappings are unchanged.
fn apply_quad(maps: &mut HashMaps, quad: &Quad) -> (r: Result<(), TriplesError>)
    requires
        old(maps).wf(),
    ensures
        final(maps).wf(),
        match r {
            Ok(_) => interp_step(old(maps)@, quad@) == Ok::<MapsView, ErrorView>(final(maps)@),
            Err(e) => {
                &&& interp_step(old(maps)@, quad@) == Err::<MapsView, ErrorView>(e@)
                &&& final(maps)@ == old(maps)@
            },
        },
{
    let p = quad.predicate.as_str();
    if str_eq(p, "<http://www.opengis.net/ont/geosparql#hasGeometry>") {
        maps.pid_to_geosparql_skolemization_id.insert(
            quad.subject.clone(),
            quad.object.clone(),
        );
        Ok(())
    } else if str_eq(p, "<https://schema.org/geo>") {
        maps.pid_to_schema_geo_skolemization_id.insert(quad.subject.clone(), quad.object.clone());
        Ok(())
    } else if str_eq(p, "<https://schema.org/latitude>") || str_eq(
        p,
        "<https://schema.org/longitude>",
    ) {
        let axis = if str_eq(p, "<https://schema.org/latitude>") {
            Axis::Latitude
        } else {
            Axis::Longitude
        };
        proof {
            assert(axis == axis_of(quad@.predicate));
        }
        match crate::coords::coord_from_triple_term(quad.object.as_str()) {
            Err(e) => Err(e),
            Ok(v) => {
                let cur = match maps.schema_geo_skolemization_id_to_geometry.get(&quad.subject) {
                    Some(pp) => *pp,
                    None => PartialPoint::Empty,
                };
                match cur.set_axis(axis, v) {
                    None => Err(
                        TriplesError::DuplicateCoordinate {
                            skolem_id: quad.subject.clone(),
                            axis,
                        },
                    ),
                    Some(pp) => {
                        proof {
                            crate::assoc::lemma_find_key_props(maps@.m4, quad@.subject);
                            assert(pp_wf(cur));
                            assert(pp_wf(pp));
                            lemma_assoc_insert_values(
                                maps@.m4,
                                quad@.subject,
                                pp,
                                |x: PartialPoint| pp_wf(x),
                            );
                        }
                        maps.schema_geo_skolemization_id_to_geometry.insert(
                            quad.subject.clone(),
                            pp,
                        );
                        Ok(())
                    },
                }
            },
        }
    } else if str_eq(p, "<http://www.opengis.net/ont/geosparql#asWKT>") {
        match parse_wkt_from_triple_string(quad.object.as_str()) {
            Err(e) => Err(e),
            Ok(g) => {
                proof {
                    lemma_assoc_insert_values(
                        maps@.m2,
                        quad@.subject,
                        g@,
                        |x: GeoView| geo_wf(x),
                    );
                }
                maps.geosparql_skolemization_id_to_geometry.insert(quad.subject.clone(), g);
                Ok(())
            },
        }
    } else {
        Ok(())
    }
}

/// Read one shard's quads into the four intermediate mappings: exactly
/// the fold of `interp_step` over the quads, aborting at the first error.
pub fn read_triples_into_maps(quads: &Vec<Quad>) -> (r: Result<HashMaps, TriplesError>)
    ensures
        match r {
            Ok(maps) => maps.wf() && interp_quads(quads_view(quads@)) == Ok::<
                MapsView,
                ErrorView,
            >(maps@),
            Err(e) => interp_quads(quads_view(quads@)) == Err::<MapsView, ErrorView>(e@),
        },
{
    let ghost qv = quads_view(quads@);
    let mut maps = HashMaps::new();
    proof {
        assert(qv.skip(0) =~= qv);
    }
    let n = quads.len();
    let mut i: usize = 0;
    while i < n
        invariant
            0 <= i <= n,
            n == quads@.len(),
            qv == quads_view(quads@),
            maps.wf(),
            interp_from(empty_maps(), qv) == interp_from(maps@, qv.skip(i as int)),
        decreases n - i,
    {
        let ghost st_before = maps@;
        let step = apply_quad(&mut maps, &quads[i]);
        proof {
            assert(qv.skip(i as int)[0] == qv[i as int]);
            assert(qv[i as int] == quads@[i as int]@);
            assert(qv.skip(i as int).drop_first() =~= qv.skip(i + 1 as int));
        }
        match step {
            Err(e) => {
                proof {
                    assert(interp_from(st_before, qv.skip(i as int)) == Err::<
                        MapsView,
                        ErrorView,
                    >(e@));
                }
                return Err(e);
            },
            Ok(_) => {},
        }
        i = i + 1;
    }
    proof {
        assert(qv.skip(n as int) =~= Seq::<QuadView>::empty());
        assert(interp_from(maps@, qv.skip(n as int)) == Ok::<MapsView, ErrorView>(maps@));
    }
    Ok(maps)
}

} // verus!
