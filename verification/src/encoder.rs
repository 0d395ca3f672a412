//! The batch encoder.
//!
//! The reconciled mapping is encoded as the columns of one record batch
//! with a fixed two-column layout: a non-nullable geometry column and a
//! non-nullable string id column, in the mapping's insertion order, one
//! row per feature. Point geometries are rendered to canonical
//! well-known text; the schema handed to the columnar writer is declared
//! once, by `generate_schema`.

use vstd::prelude::*;

use crate::assoc::AssocMap;
use crate::coords::{pow10, COORD_LIMIT};
use crate::errors::TriplesError;
use crate::geom::{coord_in_range, geo_wf, GeoValue, GeoView};
use crate::reconciler::canon_values_wf;
use crate::text::string_of;

verus! {

/// The decimal digit character for a one-digit value.
pub open spec fn digit_char_of(d: int) -> char {
    if d == 0 {
        '0'
    } else if d == 1 {
        '1'
    } else if d == 2 {
        '2'
    } else if d == 3 {
        '3'
    } else if d == 4 {
        '4'
    } else if d == 5 {
        '5'
    } else if d == 6 {
        '6'
    } else if d == 7 {
        '7'
    } else if d == 8 {
        '8'
    } else {
        '9'
    }
}

/// Decimal digits of `n`, most significant first, no leading zeros.
pub open spec fn dec_digits(n: nat) -> Seq<char>
    decreases n,
{
    if n < 10 {
        seq![digit_char_of(n as int)]
    } else {
        dec_digits(n / 10).push(digit_char_of((n % 10) as int))
    }
}

/// The last `w` decimal digits of `n`, zero-padded to width `w`.
pub open spec fn fixed_digits(n: nat, w: nat) -> Seq<char>
    decreases w,
{
    if w == 0 {
        Seq::empty()
    } else {
        fixed_digits(n / 10, (w - 1) as nat).push(digit_char_of((n % 10) as int))
    }
}

/// Canonical decimal text of a coordinate: an optional minus sign, the
/// whole degrees, a point, and all nine fractional digits.
pub open spec fn coord_text(v: int) -> Seq<char> {
    let m = if v < 0 {
        -v
    } else {
        v
    };
    let sign: Seq<char> = if v < 0 {
        seq!['-']
    } else {
        Seq::empty()
    };
    sign + dec_digits((m / pow10(9)) as nat) + seq!['.'] + fixed_digits((m % pow10(9)) as nat, 9)
}

/// Canonical well-known text of a point.
pub open spec fn point_wkt_text(x: int, y: int) -> Seq<char> {
    "POINT ("@ + coord_text(x) + " "@ + coord_text(y) + ")"@
}

/// The well-known text a canonical geometry is encoded as: a point is
/// rendered canonically, any other geometry is its carried text.
pub open spec fn geo_text_of(g: GeoView) -> Seq<char> {
    match g {
        GeoView::Point { x, y } => point_wkt_text(x, y),
        GeoView::Wkt { text } => text,
    }
}

/// The id column a canonical mapping is encoded as: its keys in order.
pub open spec fn canon_ids(c: Seq<(Seq<char>, GeoView)>) -> Seq<Seq<char>> {
    c.map_values(|p: (Seq<char>, GeoView)| p.0)
}

/// The geometry column a canonical mapping is encoded as: the well-known
/// text of its values in order.
pub open spec fn canon_wkts(c: Seq<(Seq<char>, GeoView)>) -> Seq<Seq<char>> {
    c.map_values(|p: (Seq<char>, GeoView)| geo_text_of(p.1))
}

/// A one-digit value renders as a digit character denoting that value.
proof fn lemma_digit_char_val(d: int)
    requires
        0 <= d < 10,
    ensures
        crate::coords::is_digit(digit_char_of(d)),
        crate::coords::digit_val(digit_char_of(d)) == d,
{
}

/// The plain decimal digits of `n` are digits and denote `n`.
proof fn lemma_dec_digits_val(n: nat)
    ensures
        dec_digits(n).len() >= 1,
        forall|i: int| 0 <= i < dec_digits(n).len() ==> crate::coords::is_digit(
            #[trigger] dec_digits(n)[i],
        ),
        crate::coords::digits_val(dec_digits(n), 0, dec_digits(n).len() as int) == n,
    decreases n,
{
    if n < 10 {
        lemma_digit_char_val(n as int);
        let s = dec_digits(n);
        assert(crate::coords::digits_val(s, 0, 0) == 0);
        assert(crate::coords::digits_val(s, 0, 1) == crate::coords::digit_val(s[0]));
    } else {
        lemma_dec_digits_val(n / 10);
        lemma_digit_char_val((n % 10) as int);
        let t = dec_digits(n / 10);
        let s = dec_digits(n);
        let len = s.len() as int;
        assert(s.subrange(0, len - 1) =~= t);
        crate::coords::lemma_digits_val_subrange(s, 0, len - 1);
        assert(s == t.push(digit_char_of((n % 10) as int)));
        assert(s.len() == t.len() + 1);
        assert(crate::coords::digits_val(s, 0, len - 1) == crate::coords::digits_val(
            t,
            0,
            len - 1,
        ));
        assert(crate::coords::digits_val(t, 0, len - 1) == n / 10);
        assert(crate::coords::digit_val(s[len - 1]) == n % 10);
        assert(crate::coords::digits_val(s, 0, len) == crate::coords::digits_val(s, 0, len - 1)
            * 10 + crate::coords::digit_val(s[len - 1]));
        vstd::arithmetic::div_mod::lemma_fundamental_div_mod(n as int, 10);
    }
}

/// The `w` zero-padded digits of `n` are digits and denote `n` modulo
/// `10^w`.
proof fn lemma_fixed_digits_val(n: nat, w: nat)
    ensures
        fixed_digits(n, w).len() == w,
        forall|i: int| 0 <= i < w ==> crate::coords::is_digit(#[trigger] fixed_digits(n, w)[i]),
        crate::coords::digits_val(fixed_digits(n, w), 0, w as int) == (n as int) % pow10(w),
    decreases w,
{
    if w == 0 {
        assert(n % 1 == 0) by (nonlinear_arith);
    } else {
        lemma_fixed_digits_val(n / 10, (w - 1) as nat);
        lemma_digit_char_val((n % 10) as int);
        let t = fixed_digits(n / 10, (w - 1) as nat);
        let s = fixed_digits(n, w);
        assert(s.subrange(0, w - 1) =~= t);
        crate::coords::lemma_digits_val_subrange(s, 0, w - 1);
        crate::coords::lemma_pow10_pos((w - 1) as nat);
        vstd::arithmetic::div_mod::lemma_mod_breakdown(
            n as int,
            10,
            pow10((w - 1) as nat),
        );
        assert(pow10(w) == 10 * pow10((w - 1) as nat));
    }
}

/// Law: the canonical decimal text of a coordinate denotes exactly that
/// coordinate under the coordinate grammar.
pub proof fn lemma_coord_text_round_trip(v: int)
    requires
        coord_in_range(v),
    ensures
        crate::coords::coord_value(coord_text(v)) == Some(v),
{
    crate::coords::lemma_pow10_values();
    crate::coords::lemma_pow10_pos(9);
    let m = if v < 0 {
        -v
    } else {
        v
    };
    let p9 = pow10(9);
    let ip = (m / p9) as nat;
    let fp = (m % p9) as nat;
    vstd::arithmetic::div_mod::lemma_fundamental_div_mod(m, p9);
    vstd::arithmetic::div_mod::lemma_mod_bound(m, p9);
    lemma_dec_digits_val(ip);
    lemma_fixed_digits_val(fp, 9);
    let a = dec_digits(ip);
    let b = fixed_digits(fp, 9);
    let al = a.len() as int;
    let s = coord_text(v);
    let ss = if v < 0 {
        1int
    } else {
        0int
    };
    // where each part of the rendering stands in the text
    assert(s.len() == ss + al + 1 + 9);
    assert(forall|i: int| 0 <= i < al ==> s[ss + i] == a[i]);
    assert(s[ss + al] == '.');
    assert(forall|i: int| 0 <= i < 9 ==> s[ss + al + 1 + i] == b[i]);
    assert(crate::coords::sign_start(s) == ss) by {
        if v < 0 {
            assert(s[0] == '-');
        } else {
            assert(s[0] == a[0]);
            assert(crate::coords::is_digit(s[0]));
            assert(('+' as u32) == 43 && ('-' as u32) == 45);
        }
    }
    assert(crate::coords::is_neg(s) == (v < 0)) by {
        if v >= 0 {
            assert(crate::coords::is_digit(s[0]));
            assert(('-' as u32) == 45);
        }
    }
    // the integer-part digit run ends at the decimal point
    assert(('.' as u32) == 46);
    assert(!crate::coords::is_digit(s[ss + al]));
    crate::coords::lemma_scan_digits_run(s, ss, ss + al);
    assert(crate::coords::int_end(s) == ss + al);
    assert(crate::coords::frac_start(s) == ss + al + 1);
    // the fractional digit run ends at the end of the text
    crate::coords::lemma_scan_digits_run(s, ss + al + 1, s.len() as int);
    assert(crate::coords::frac_end(s) == s.len());
    assert(!crate::coords::has_exp(s));
    assert(crate::coords::coord_shape_ok(s));
    // the mantissa denotes the magnitude
    assert(s.subrange(ss, ss + al) =~= a);
    assert(s.subrange(ss + al + 1, s.len() as int) =~= b);
    crate::coords::lemma_digits_val_subrange(s, ss, ss + al);
    crate::coords::lemma_digits_val_subrange(s, ss + al + 1, s.len() as int);
    vstd::arithmetic::div_mod::lemma_small_mod(fp, p9 as nat);
    assert(crate::coords::mantissa_val(s) == ip * p9 + fp);
    assert(crate::coords::mantissa_val(s) == m);
    // no exponent and nine fractional digits: the shift is zero
    assert(crate::coords::exp_val(s) == 0);
    assert(crate::coords::coord_magnitude(s) == m * pow10(0));
    assert(crate::coords::coord_magnitude(s) == m);
    assert(crate::coords::coord_ok(s));
}

/// Every character of a rendered coordinate may stand inside a
/// coordinate token: it is a digit, a minus sign, or the decimal point.
proof fn lemma_coord_text_token_chars(v: int)
    requires
        coord_in_range(v),
    ensures
        coord_text(v).len() >= 11,
        forall|i: int| 0 <= i < coord_text(v).len() ==> crate::geom::is_token_char(
            #[trigger] coord_text(v)[i],
        ),
{
    crate::coords::lemma_pow10_values();
    crate::coords::lemma_pow10_pos(9);
    let m = if v < 0 {
        -v
    } else {
        v
    };
    let p9 = pow10(9);
    let ip = (m / p9) as nat;
    let fp = (m % p9) as nat;
    vstd::arithmetic::div_mod::lemma_fundamental_div_mod(m, p9);
    vstd::arithmetic::div_mod::lemma_mod_bound(m, p9);
    lemma_dec_digits_val(ip);
    lemma_fixed_digits_val(fp, 9);
    let a = dec_digits(ip);
    let b = fixed_digits(fp, 9);
    let al = a.len() as int;
    let s = coord_text(v);
    let ss = if v < 0 {
        1int
    } else {
        0int
    };
    assert(s.len() == ss + al + 1 + 9);
    assert forall|i: int| 0 <= i < s.len() implies crate::geom::is_token_char(s[i]) by {
        if v < 0 && i == 0 {
            assert(s[0] == '-');
        } else if i < ss + al {
            assert(s[i] == a[i - ss]);
            assert(crate::coords::is_digit(s[i]));
        } else if i == ss + al {
            assert(s[i] == '.');
        } else {
            assert(s[i] == b[i - (ss + al + 1)]);
            assert(crate::coords::is_digit(s[i]));
        }
    }
}

/// Law: the canonical well-known text of a point denotes exactly that
/// point under the point grammar.
pub proof fn lemma_point_text_round_trip(x: int, y: int)
    requires
        coord_in_range(x),
        coord_in_range(y),
    ensures
        crate::geom::point_wkt_value(point_wkt_text(x, y)) == Some((x, y)),
{
    reveal_strlit("POINT (");
    reveal_strlit(" ");
    reveal_strlit(")");
    lemma_coord_text_token_chars(x);
    lemma_coord_text_token_chars(y);
    lemma_coord_text_round_trip(x);
    lemma_coord_text_round_trip(y);
    let cx = coord_text(x);
    let cy = coord_text(y);
    let xl = cx.len() as int;
    let yl = cy.len() as int;
    let t = point_wkt_text(x, y);
    assert("POINT ("@.len() == 7);
    assert(t.len() == 7 + xl + 1 + yl + 1);
    // where each part of the rendering stands in the text
    assert(forall|i: int| 0 <= i < 7 ==> t[i] == "POINT ("@[i]);
    assert(forall|i: int| 0 <= i < xl ==> t[7 + i] == cx[i]);
    assert(t[7 + xl] == " "@[0]);
    assert(forall|i: int| 0 <= i < yl ==> t[7 + xl + 1 + i] == cy[i]);
    assert(t[7 + xl + 1 + yl] == ")"@[0]);
    // the scans land on the rendered positions
    crate::geom::lemma_skip_ws_run(t, 0, 0);
    assert(crate::geom::point_prefix(t));
    crate::geom::lemma_scan_token_run(t, 0, 5);
    assert(crate::geom::kw_end(t) == 5);
    assert(crate::geom::is_point_kw(t, 0, 5));
    crate::geom::lemma_skip_ws_run(t, 5, 6);
    assert(crate::geom::dim_start(t) == 6);
    crate::geom::lemma_scan_token_run(t, 6, 6);
    assert(crate::geom::dim_end(t) == 6);
    assert(!crate::geom::has_dim_word(t));
    assert(crate::geom::extra_coords(t) == 0);
    assert(crate::geom::args_pos(t) == 6);
    crate::geom::lemma_skip_ws_run(t, 7, 7);
    assert(crate::geom::x_start(t) == 7);
    crate::geom::lemma_scan_token_run(t, 7, 7 + xl);
    assert(crate::geom::x_end(t) == 7 + xl);
    crate::geom::lemma_skip_ws_run(t, 7 + xl, 7 + xl + 1);
    assert(crate::geom::y_start(t) == 7 + xl + 1);
    crate::geom::lemma_scan_token_run(t, 7 + xl + 1, 7 + xl + 1 + yl);
    assert(crate::geom::y_end(t) == 7 + xl + 1 + yl);
    assert(crate::geom::coords_end(t) == 7 + xl + 1 + yl);
    crate::geom::lemma_skip_ws_run(t, 7 + xl + 1 + yl, 7 + xl + 1 + yl);
    assert(crate::geom::close_pos(t) == 7 + xl + 1 + yl);
    assert(crate::geom::point_grammar_ok(t));
    // the coordinate tokens are the rendered coordinate texts
    assert(t.subrange(7, 7 + xl) =~= cx);
    assert(t.subrange(7 + xl + 1, 7 + xl + 1 + yl) =~= cy);
}

/// Law: in the encoded geometry column, the text of every point row
/// denotes exactly that row's canonical point under the point grammar.
pub proof fn lemma_encoded_point_rows_denote_points(c: Seq<(Seq<char>, GeoView)>, i: int)
    requires
        0 <= i < c.len(),
        canon_values_wf(c),
        c[i].1 is Point,
    ensures
        crate::geom::point_wkt_value(canon_wkts(c)[i]) == Some(
            (c[i].1->Point_x, c[i].1->Point_y),
        ),
{
    assert(canon_wkts(c)[i] == geo_text_of(c[i].1));
    lemma_point_text_round_trip(c[i].1->Point_x, c[i].1->Point_y);
}

/// The decimal digit character for a one-digit value.
fn digit_char(d: u128) -> (c: char)
    requires
        d < 10,
    ensures
        c == digit_char_of(d as int),
{
    if d == 0 {
        '0'
    } else if d == 1 {
        '1'
    } else if d == 2 {
        '2'
    } else if d == 3 {
        '3'
    } else if d == 4 {
        '4'
    } else if d == 5 {
        '5'
    } else if d == 6 {
        '6'
    } else if d == 7 {
        '7'
    } else if d == 8 {
        '8'
    } else {
        '9'
    }
}

/// Append the decimal digits of `n`, most significant first.
fn push_dec_digits(n: u128, out: &mut Vec<char>)
    ensures
        final(out)@ == old(out)@ + dec_digits(n as nat),
    decreases n,
{
    if n < 10 {
        out.push(digit_char(n));
        proof {
            assert(out@ =~= old(out)@ + dec_digits(n as nat));
        }
    } else {
        push_dec_digits(n / 10, out);
        out.push(digit_char(n % 10));
        proof {
            assert(out@ =~= old(out)@ + dec_digits(n as nat));
        }
    }
}

/// Append the last `w` decimal digits of `n`, zero-padded to width `w`.
fn push_fixed_digits(n: u128, w: u32, out: &mut Vec<char>)
    ensures
        final(out)@ == old(out)@ + fixed_digits(n as nat, w as nat),
    decreases w,
{
    if w > 0 {
        push_fixed_digits(n / 10, w - 1, out);
        out.push(digit_char(n % 10));
    }
    proof {
        assert(out@ =~= old(out)@ + fixed_digits(n as nat, w as nat));
    }
}

/// Append the canonical decimal text of a coordinate.
fn push_coord_text(v: i128, out: &mut Vec<char>)
    requires
        coord_in_range(v as int),
    ensures
        final(out)@ == old(out)@ + coord_text(v as int),
{
    proof {
        crate::coords::lemma_pow10_pos(9);
    }
    let m: u128 = if v < 0 {
        out.push('-');
        (-v) as u128
    } else {
        v as u128
    };
    proof {
        crate::coords::lemma_pow10_values();
    }
    push_dec_digits(m / 1_000_000_000u128, out);
    out.push('.');
    push_fixed_digits(m % 1_000_000_000u128, 9, out);
    proof {
        assert(out@ =~= old(out)@ + coord_text(v as int));
    }
}

/// The well-known text a canonical geometry is encoded as.
pub fn wkt_text_of(g: &GeoValue) -> (r: String)
    requires
        geo_wf(g@),
    ensures
        r@ == geo_text_of(g@),
{
    match g {
        GeoValue::Point { x, y } => {
            let mut out: Vec<char> = Vec::new();
            out.push('P');
            out.push('O');
            out.push('I');
            out.push('N');
            out.push('T');
            out.push(' ');
            out.push('(');
            proof {
                reveal_strlit("POINT (");
                assert(out@ =~= "POINT ("@);
            }
            push_coord_text(*x, &mut out);
            out.push(' ');
            proof {
                reveal_strlit(" ");
                assert(out@ =~= "POINT ("@ + coord_text(*x as int) + " "@);
            }
            push_coord_text(*y, &mut out);
            out.push(')');
            proof {
                reveal_strlit(")");
                assert(out@ =~= point_wkt_text(*x as int, *y as int));
            }
            string_of(&out)
        },
        GeoValue::Wkt { text } => text.clone(),
    }
}

/// The arrow schema type, declared so that it can pass through verified
/// signatures; it is opaque here.
#[verifier::external_type_specification]
#[verifier::external_body]
pub struct ExSchema(arrow_schema::Schema);

/// One record batch's columns, ready for the columnar writer: one row
/// per feature, the geometry column as well-known text and the id
/// column as strings, in the same row order.
#[derive(Debug)]
pub struct RecordColumns {
    /// Well-known text of each row's canonical geometry.
    pub geometry_wkts: Vec<String>,
    /// Feature id of each row.
    pub ids: Vec<String>,
}

/// The view of a column of strings.
pub open spec fn column_view(v: Seq<String>) -> Seq<Seq<char>> {
    v.map_values(|s: String| s@)
}

/// Encode the reconciled mapping as the columns of one record batch:
/// one row per feature id, in the mapping's insertion order, the
/// geometry column holding the well-known text of each feature's
/// canonical geometry and the id column its id. The row count equals
/// the mapping's size and no id appears twice.
pub fn encode_batch(canonical: &AssocMap<GeoValue>) -> (r: RecordColumns)
    requires
        canonical.wf(),
        canon_values_wf(canonical@),
    ensures
        column_view(r.ids@) == canon_ids(canonical@),
        column_view(r.geometry_wkts@) == canon_wkts(canonical@),
        r.ids@.len() == canonical@.len(),
        r.geometry_wkts@.len() == canonical@.len(),
        column_view(r.ids@).no_duplicates(),
{
    let mut ids: Vec<String> = Vec::new();
    let mut wkts: Vec<String> = Vec::new();
    let n = canonical.len();
    let mut i: usize = 0;
    proof {
        assert(canon_ids(canonical@.take(0)) =~= Seq::<Seq<char>>::empty());
        assert(canon_wkts(canonical@.take(0)) =~= Seq::<Seq<char>>::empty());
        assert(column_view(ids@) =~= Seq::<Seq<char>>::empty());
        assert(column_view(wkts@) =~= Seq::<Seq<char>>::empty());
    }
    while i < n
        invariant
            0 <= i <= n,
            canonical.wf(),
            canon_values_wf(canonical@),
            n == canonical@.len(),
            ids@.len() == i,
            wkts@.len() == i,
            column_view(ids@) == canon_ids(canonical@.take(i as int)),
            column_view(wkts@) == canon_wkts(canonical@.take(i as int)),
        decreases n - i,
    {
        let key = canonical.key_at(i);
        let val = canonical.val_at(i);
        wkts.push(wkt_text_of(val));
        ids.push(key.clone());
        proof {
            assert(canon_ids(canonical@.take(i + 1 as int)) =~= canon_ids(
                canonical@.take(i as int),
            ).push(canonical@[i as int].0));
            assert(canon_wkts(canonical@.take(i + 1 as int)) =~= canon_wkts(
                canonical@.take(i as int),
            ).push(geo_text_of(canonical@[i as int].1)));
            assert(column_view(ids@) =~= column_view(ids@.drop_last()).push(
                canonical@[i as int].0,
            ));
            assert(column_view(wkts@) =~= column_view(wkts@.drop_last()).push(
                geo_text_of(canonical@[i as int].1),
            ));
        }
        i = i + 1;
    }
    proof {
        assert(canonical@.take(n as int) =~= canonical@);
        canonical.lemma_wf_distinct();
        assert forall|p: int, q: int|
            0 <= p < q < canon_ids(canonical@).len() implies canon_ids(canonical@)[p] != canon_ids(
            canonical@,
        )[q] by {
            assert(canonical@[p].0 != canonical@[q].0);
        }
    }
    RecordColumns { geometry_wkts: wkts, ids }
}

/// Relies on arrow's `SchemaBuilder`, `Field::new` and geoarrow's
/// `GeoArrowType::to_field`: the fixed two-column layout, a non-nullable
/// geometry column named `geometry` and a non-nullable string column
/// named `id`.
#[verifier::external_body]
pub fn generate_schema() -> (r: arrow_schema::Schema)
{
    let mut schema_builder = arrow_schema::SchemaBuilder::new();
    let geoarrow_type = geoarrow_schema::GeoArrowType::Geometry(
        geoarrow_schema::GeometryType::default(),
    );
    let geometry_field = geoarrow_type.to_field("geometry", false);
    schema_builder.push(geometry_field);
    let id_field = arrow_schema::Field::new("id", arrow_schema::DataType::Utf8, false);
    schema_builder.push(id_field);
    schema_builder.finish()
}

} // verus!
