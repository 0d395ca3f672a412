//! Extraction and reconciliation of geographic features from RDF quads.
//!
//! A shard of RDF quads encodes each feature's geometry in up to two ways:
//! a well-known-text literal reached through a blank-node link, and a
//! schema.org latitude/longitude pair reached through another link. This
//! crate classifies the quads, accumulates the partial per-entity state,
//! reconciles the two encodings into one canonical geometry per feature
//! under a numeric tolerance, and encodes the result as the columns of
//! one record batch.

use vstd::prelude::*;

pub mod assoc;
pub mod coords;
pub mod encoder;
pub mod errors;
pub mod geom;
pub mod interpreter;
pub mod partial_point;
pub mod reconciler;
pub mod text;

use crate::encoder::{canon_ids, canon_wkts, column_view, encode_batch, RecordColumns};
use crate::errors::{ErrorView, TriplesError};
use crate::geom::GeoView;
use crate::interpreter::{interp_quads, quads_view, read_triples_into_maps, Quad, QuadView};
use crate::reconciler::{
    combine_geometry_representations_with_policy, reconcile_spec, MissingTargetPolicy,
};

verus! {

/// The canonical mapping one shard of quads denotes: the quads are
/// interpreted into the four intermediate mappings and those are
/// reconciled; or the first error.
pub open spec fn shard_canonical(qs: Seq<QuadView>, policy: MissingTargetPolicy) -> Result<
    Seq<(Seq<char>, GeoView)>,
    ErrorView,
> {
    match interp_quads(qs) {
        Err(e) => Err(e),
        Ok(m) => reconcile_spec(m, policy),
    }
}

/// Process one shard: interpret its quads, reconcile the two geometry
/// encodings under the given missing-target policy, and encode the
/// canonical mapping as the columns of one record batch, one row per
/// feature in insertion order, with no feature id twice.
pub fn process_shard(quads: &Vec<Quad>, policy: MissingTargetPolicy) -> (r: Result<
    RecordColumns,
    TriplesError,
>)
    ensures
        match r {
            Ok(cols) => shard_canonical(quads_view(quads@), policy) matches Ok(c) && {
                &&& column_view(cols.ids@) == canon_ids(c)
                &&& column_view(cols.geometry_wkts@) == canon_wkts(c)
                &&& cols.ids@.len() == c.len()
                &&& cols.geometry_wkts@.len() == c.len()
                &&& column_view(cols.ids@).no_duplicates()
            },
            Err(e) => shard_canonical(quads_view(quads@), policy) == Err::<
                Seq<(Seq<char>, GeoView)>,
                ErrorView,
            >(e@),
        },
{
    let maps = match read_triples_into_maps(quads) {
        Err(e) => {
            return Err(e);
        },
        Ok(maps) => maps,
    };
    let canonical = match combine_geometry_representations_with_policy(maps, policy) {
        Err(e) => {
            return Err(e);
        },
        Ok(c) => c,
    };
    Ok(encode_batch(&canonical))
}

} // verus!
