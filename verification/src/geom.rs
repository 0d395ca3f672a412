//! Geometry values.
//!
//! A canonical geometry is either a two-dimensional point with
//! fixed-point coordinates, or the text of a well-known-text geometry
//! that denotes no comparable point. Point texts are parsed into the
//! point variant so that the reconciler can compare coordinates; other
//! shapes, and the empty point forms, are carried through as text.

use vstd::prelude::*;
use vstd::string::StringExecFns;

use crate::coords::{coord_shape_ok, coord_value, parse_coord, COORD_LIMIT, TOLERANCE_NANO};
use crate::errors::{ErrorView, TriplesError};
use crate::text::{chars_of, lexical_strict, strict_lexical, string_of, sub_chars};

verus! {

/// A two-dimensional point, in nanodegrees per axis.
#[derive(Clone, Copy, Debug, PartialEq, Eq, Structural)]
pub struct GeoPoint {
    pub x: i128,
    pub y: i128,
}

/// Mathematical model of a canonical geometry.
pub enum GeoView {
    Point { x: int, y: int },
    Wkt { text: Seq<char> },
}

/// A canonical geometry value.
#[derive(Clone, Debug, PartialEq)]
pub enum GeoValue {
    /// A two-dimensional point, in nanodegrees per axis.
    Point { x: i128, y: i128 },
    /// The text of a well-known-text geometry of any other shape.
    Wkt { text: String },
}

impl View for GeoValue {
    type V = GeoView;

    open spec fn view(&self) -> GeoView {
        match self {
            GeoValue::Point { x, y } => GeoView::Point { x: *x as int, y: *y as int },
            GeoValue::Wkt { text } => GeoView::Wkt { text: text@ },
        }
    }
}

/// Whether a coordinate is within the representable magnitude.
pub open spec fn coord_in_range(x: int) -> bool {
    -(COORD_LIMIT as int) <= x <= COORD_LIMIT as int
}

/// Well-formedness of a geometry: point coordinates are in range, and a
/// carried text is one that the WKT parser accepted and that denotes no
/// comparable point: a text with the point keyword is carried only in
/// its empty form.
pub open spec fn geo_wf(g: GeoView) -> bool {
    match g {
        GeoView::Point { x, y } => coord_in_range(x) && coord_in_range(y),
        GeoView::Wkt { text } => wkt_valid(text) && (point_prefix(text) ==> empty_point_form(
            text,
        )),
    }
}

/// What the outside WKT parser accepts; a function of the text alone.
pub uninterp spec fn wkt_valid(s: Seq<char>) -> bool;

/// Relies on `geo_types::Geometry::try_from_wkt_str` of the `wkt` crate:
/// whether the text parses as well-known text and converts to a geometry.
/// The result depends on the text alone.
#[verifier::external_body]
pub(crate) fn wkt_parses(text: &str) -> (r: bool)
    ensures
        r == wkt_valid(text@),
{
    let g: Result<geo_types::Geometry, _> = wkt::TryFromWkt::try_from_wkt_str(text);
    g.is_ok()
}

/// Whether both axes of two points agree within the tolerance.
pub open spec fn points_close(x1: int, y1: int, x2: int, y2: int) -> bool {
    &&& -(TOLERANCE_NANO as int) < x1 - x2 < TOLERANCE_NANO as int
    &&& -(TOLERANCE_NANO as int) < y1 - y2 < TOLERANCE_NANO as int
}

/// Whether the geometry is a point that agrees with `(x, y)` within the
/// tolerance on both axes; a non-point geometry is never generally equal
/// to a point.
pub open spec fn generally_equal_spec(g: GeoView, x: int, y: int) -> bool {
    match g {
        GeoView::Point { x: gx, y: gy } => points_close(gx, gy, x, y),
        GeoView::Wkt { .. } => false,
    }
}

/// Whether the two geometries are equal with some tolerance: both must be
/// points whose coordinates differ by less than the tolerance on each axis.
pub fn generally_equal(geom1: &GeoValue, geom2: &GeoPoint) -> (r: bool)
    requires
        geo_wf(geom1@),
        coord_in_range(geom2.x as int),
        coord_in_range(geom2.y as int),
    ensures
        r == generally_equal_spec(geom1@, geom2.x as int, geom2.y as int),
{
    match geom1 {
        GeoValue::Point { x, y } => {
            let dx = *x - geom2.x;
            let dy = *y - geom2.y;
            -TOLERANCE_NANO < dx && dx < TOLERANCE_NANO && -TOLERANCE_NANO < dy && dy
                < TOLERANCE_NANO
        },
        GeoValue::Wkt { .. } => false,
    }
}

impl GeoValue {
    /// A copy of this geometry with the same model.
    pub fn duplicate(&self) -> (r: GeoValue)
        ensures
            r@ == self@,
    {
        match self {
            GeoValue::Point { x, y } => GeoValue::Point { x: *x, y: *y },
            GeoValue::Wkt { text } => GeoValue::Wkt { text: text.clone() },
        }
    }
}

/// Whether the character is well-known-text whitespace.
pub open spec fn is_ws(c: char) -> bool {
    c == ' ' || c == '\n' || c == '\r' || c == '\t'
}

/// First position at or after `i` that does not hold whitespace.
pub open spec fn skip_ws(s: Seq<char>, i: int) -> int
    recommends
        0 <= i <= s.len(),
    decreases s.len() - i,
    when 0 <= i <= s.len()
{
    if i < s.len() && is_ws(s[i]) {
        skip_ws(s, i + 1)
    } else {
        i
    }
}

/// Whether the character may stand inside a coordinate token.
pub open spec fn is_token_char(c: char) -> bool {
    !is_ws(c) && c != '(' && c != ')' && c != ','
}

/// First position at or after `i` that does not hold a token character.
pub open spec fn scan_token(s: Seq<char>, i: int) -> int
    recommends
        0 <= i <= s.len(),
    decreases s.len() - i,
    when 0 <= i <= s.len()
{
    if i < s.len() && is_token_char(s[i]) {
        scan_token(s, i + 1)
    } else {
        i
    }
}

/// A whitespace scan over a run of whitespace ends exactly at the run's
/// end: at the first position after it that is no whitespace, or at the
/// end of the text.
pub proof fn lemma_skip_ws_run(s: Seq<char>, i: int, j: int)
    requires
        0 <= i <= j <= s.len(),
        forall|k: int| i <= k < j ==> is_ws(s[k]),
        j == s.len() || !is_ws(s[j]),
    ensures
        skip_ws(s, i) == j,
    decreases j - i,
{
    if i < j {
        lemma_skip_ws_run(s, i + 1, j);
    }
}

/// A token scan over a run of token characters ends exactly at the run's
/// end: at the first position after it that is no token character, or at
/// the end of the text.
pub proof fn lemma_scan_token_run(s: Seq<char>, i: int, j: int)
    requires
        0 <= i <= j <= s.len(),
        forall|k: int| i <= k < j ==> is_token_char(s[k]),
        j == s.len() || !is_token_char(s[j]),
    ensures
        scan_token(s, i) == j,
    decreases j - i,
{
    if i < j {
        lemma_scan_token_run(s, i + 1, j);
    }
}

/// Position where the leading keyword would begin.
pub open spec fn kw_start(s: Seq<char>) -> int {
    skip_ws(s, 0)
}

/// Whether the text begins, after leading whitespace, with the keyword
/// `POINT` in either case. Such a text is handled by this crate's own
/// point parser and by nothing else.
pub open spec fn point_prefix(s: Seq<char>) -> bool {
    let k = kw_start(s);
    &&& k + 5 <= s.len()
    &&& (s[k] == 'P' || s[k] == 'p')
    &&& (s[k + 1] == 'O' || s[k + 1] == 'o')
    &&& (s[k + 2] == 'I' || s[k + 2] == 'i')
    &&& (s[k + 3] == 'N' || s[k + 3] == 'n')
    &&& (s[k + 4] == 'T' || s[k + 4] == 't')
}

/// End of the leading keyword token.
pub open spec fn kw_end(s: Seq<char>) -> int {
    scan_token(s, kw_start(s))
}

/// Whether `s[i..j)` is the keyword `POINT` in either case.
pub open spec fn is_point_kw(s: Seq<char>, i: int, j: int) -> bool {
    &&& j - i == 5
    &&& (s[i] == 'P' || s[i] == 'p')
    &&& (s[i + 1] == 'O' || s[i + 1] == 'o')
    &&& (s[i + 2] == 'I' || s[i + 2] == 'i')
    &&& (s[i + 3] == 'N' || s[i + 3] == 'n')
    &&& (s[i + 4] == 'T' || s[i + 4] == 't')
}

/// Whether `s[i..j)` is the fused keyword `POINTZ` in either case.
pub open spec fn is_point_z_kw(s: Seq<char>, i: int, j: int) -> bool {
    is_point_kw(s, i, j - 1) && j - i == 6 && (s[i + 5] == 'Z' || s[i + 5] == 'z')
}

/// Whether `s[i..j)` is the fused keyword `POINTM` in either case.
pub open spec fn is_point_m_kw(s: Seq<char>, i: int, j: int) -> bool {
    is_point_kw(s, i, j - 1) && j - i == 6 && (s[i + 5] == 'M' || s[i + 5] == 'm')
}

/// Whether `s[i..j)` is the fused keyword `POINTZM` in either case.
pub open spec fn is_point_zm_kw(s: Seq<char>, i: int, j: int) -> bool {
    &&& is_point_kw(s, i, j - 2)
    &&& j - i == 7
    &&& (s[i + 5] == 'Z' || s[i + 5] == 'z')
    &&& (s[i + 6] == 'M' || s[i + 6] == 'm')
}

/// Start of the dimension word after a plain point keyword.
pub open spec fn dim_start(s: Seq<char>) -> int {
    skip_ws(s, kw_end(s))
}

/// End of the dimension word after a plain point keyword.
pub open spec fn dim_end(s: Seq<char>) -> int {
    scan_token(s, dim_start(s))
}

/// Whether `s[i..j)` is the dimension word `Z` in either case.
pub open spec fn is_z_word(s: Seq<char>, i: int, j: int) -> bool {
    j - i == 1 && (s[i] == 'Z' || s[i] == 'z')
}

/// Whether `s[i..j)` is the dimension word `M` in either case.
pub open spec fn is_m_word(s: Seq<char>, i: int, j: int) -> bool {
    j - i == 1 && (s[i] == 'M' || s[i] == 'm')
}

/// Whether `s[i..j)` is the dimension word `ZM` in either case.
pub open spec fn is_zm_word(s: Seq<char>, i: int, j: int) -> bool {
    j - i == 2 && (s[i] == 'Z' || s[i] == 'z') && (s[i + 1] == 'M' || s[i + 1] == 'm')
}

/// Whether a dimension word follows a plain point keyword.
pub open spec fn has_dim_word(s: Seq<char>) -> bool {
    &&& is_point_kw(s, kw_start(s), kw_end(s))
    &&& {
        ||| is_z_word(s, dim_start(s), dim_end(s))
        ||| is_m_word(s, dim_start(s), dim_end(s))
        ||| is_zm_word(s, dim_start(s), dim_end(s))
    }
}

/// How many coordinate tokens past the second the keyword and dimension
/// word demand (each of `Z` and `M` one more, `ZM` two more), or `-1`
/// where the keyword token is no point keyword at all.
pub open spec fn extra_coords(s: Seq<char>) -> int {
    let k0 = kw_start(s);
    let k1 = kw_end(s);
    if is_point_z_kw(s, k0, k1) || is_point_m_kw(s, k0, k1) {
        1
    } else if is_point_zm_kw(s, k0, k1) {
        2
    } else if is_point_kw(s, k0, k1) {
        let d0 = dim_start(s);
        let d1 = dim_end(s);
        if is_z_word(s, d0, d1) || is_m_word(s, d0, d1) {
            1
        } else if is_zm_word(s, d0, d1) {
            2
        } else {
            0
        }
    } else {
        -1
    }
}

/// Position where the body of a point text begins: the opening
/// parenthesis of its coordinate list, or the `EMPTY` word.
pub open spec fn args_pos(s: Seq<char>) -> int {
    if has_dim_word(s) {
        skip_ws(s, dim_end(s))
    } else {
        skip_ws(s, kw_end(s))
    }
}

/// Start of the first coordinate token.
pub open spec fn x_start(s: Seq<char>) -> int {
    skip_ws(s, args_pos(s) + 1)
}

/// End of the first coordinate token.
pub open spec fn x_end(s: Seq<char>) -> int {
    scan_token(s, x_start(s))
}

/// Start of the second coordinate token.
pub open spec fn y_start(s: Seq<char>) -> int {
    skip_ws(s, x_end(s))
}

/// End of the second coordinate token.
pub open spec fn y_end(s: Seq<char>) -> int {
    scan_token(s, y_start(s))
}

/// Start of the first discarded coordinate token.
pub open spec fn e1_start(s: Seq<char>) -> int {
    skip_ws(s, y_end(s))
}

/// End of the first discarded coordinate token.
pub open spec fn e1_end(s: Seq<char>) -> int {
    scan_token(s, e1_start(s))
}

/// Start of the second discarded coordinate token.
pub open spec fn e2_start(s: Seq<char>) -> int {
    skip_ws(s, e1_end(s))
}

/// End of the second discarded coordinate token.
pub open spec fn e2_end(s: Seq<char>) -> int {
    scan_token(s, e2_start(s))
}

/// End of the whole coordinate token list.
pub open spec fn coords_end(s: Seq<char>) -> int {
    if extra_coords(s) == 0 {
        y_end(s)
    } else if extra_coords(s) == 1 {
        e1_end(s)
    } else {
        e2_end(s)
    }
}

/// Position of the closing parenthesis of a point text.
pub open spec fn close_pos(s: Seq<char>) -> int {
    skip_ws(s, coords_end(s))
}

/// Whether the discarded coordinate tokens the dimension demands are
/// present and decimal-shaped.
pub open spec fn extras_ok(s: Seq<char>) -> bool {
    &&& extra_coords(s) >= 1 ==> e1_end(s) > e1_start(s) && coord_shape_ok(
        s.subrange(e1_start(s), e1_end(s)),
    )
    &&& extra_coords(s) >= 2 ==> e2_end(s) > e2_start(s) && coord_shape_ok(
        s.subrange(e2_start(s), e2_end(s)),
    )
}

/// Whether `s[i..j)` is the word `EMPTY` in either case.
pub open spec fn is_empty_word(s: Seq<char>, i: int, j: int) -> bool {
    &&& j - i == 5
    &&& (s[i] == 'E' || s[i] == 'e')
    &&& (s[i + 1] == 'M' || s[i + 1] == 'm')
    &&& (s[i + 2] == 'P' || s[i + 2] == 'p')
    &&& (s[i + 3] == 'T' || s[i + 3] == 't')
    &&& (s[i + 4] == 'Y' || s[i + 4] == 'y')
}

/// Whether the text is an empty point: a point keyword (with an optional
/// dimension word) whose body is the word `EMPTY` instead of a
/// coordinate list. Such a text denotes an empty geometry, not a
/// comparable point.
pub open spec fn empty_point_form(s: Seq<char>) -> bool {
    &&& extra_coords(s) >= 0
    &&& is_empty_word(s, args_pos(s), scan_token(s, args_pos(s)))
}

/// Whether the text matches the point grammar: one of the point keywords
/// (with an optional separate dimension word after the plain one), an
/// opening parenthesis, two coordinate tokens plus as many more as the
/// dimension demands, and a closing parenthesis. The extra coordinates
/// are checked for decimal shape and discarded; anything after the
/// closing parenthesis is ignored.
pub open spec fn point_grammar_ok(s: Seq<char>) -> bool {
    &&& extra_coords(s) >= 0
    &&& args_pos(s) < s.len() && s[args_pos(s)] == '('
    &&& x_end(s) > x_start(s)
    &&& y_start(s) > x_end(s)
    &&& y_end(s) > y_start(s)
    &&& extras_ok(s)
    &&& close_pos(s) < s.len() && s[close_pos(s)] == ')'
}

/// The coordinates of a point text, or `None` where the grammar or a
/// coordinate literal is rejected.
pub open spec fn point_wkt_value(s: Seq<char>) -> Option<(int, int)> {
    if point_grammar_ok(s) {
        let xv = coord_value(s.subrange(x_start(s), x_end(s)));
        let yv = coord_value(s.subrange(y_start(s), y_end(s)));
        match (xv, yv) {
            (Some(x), Some(y)) => Some((x, y)),
            _ => None,
        }
    } else {
        None
    }
}

/// The geometry a well-known-text body denotes: a text with the point
/// keyword goes through this crate's own point grammar — its empty form
/// is an empty geometry, carried as text, and any other form must be a
/// coordinate list; a text with any other keyword is carried as text
/// where the outside WKT parser accepts it.
pub open spec fn wkt_geo_of(text: Seq<char>) -> Option<GeoView> {
    if point_prefix(text) {
        if empty_point_form(text) {
            if wkt_valid(text) {
                Some(GeoView::Wkt { text })
            } else {
                None
            }
        } else {
            match point_wkt_value(text) {
                Some(p) => Some(GeoView::Point { x: p.0, y: p.1 }),
                None => None,
            }
        }
    } else if wkt_valid(text) {
        Some(GeoView::Wkt { text })
    } else {
        None
    }
}

/// The geometry an `asWKT` object term denotes: the strict lexical part
/// of the literal, read as well-known text.
pub open spec fn parsed_wkt_term(obj: Seq<char>) -> Option<GeoView> {
    match strict_lexical(obj) {
        Some(text) => wkt_geo_of(text),
        None => None,
    }
}

/// Whether the character is well-known-text whitespace.
fn is_ws_exec(c: char) -> (r: bool)
    ensures
        r == is_ws(c),
{
    c == ' ' || c == '\n' || c == '\r' || c == '\t'
}

/// First position at or after `start` that does not hold whitespace.
fn skip_ws_exec(v: &Vec<char>, start: usize) -> (r: usize)
    requires
        start as int <= v@.len(),
    ensures
        r as int == skip_ws(v@, start as int),
        start <= r,
        r as int <= v@.len(),
{
    let n = v.len();
    let mut i = start;
    while i < n && is_ws_exec(v[i])
        invariant
            start <= i <= n,
            n == v@.len(),
            skip_ws(v@, start as int) == skip_ws(v@, i as int),
        decreases n - i,
    {
        i = i + 1;
    }
    i
}

/// First position at or after `start` that does not hold a token character.
fn scan_token_exec(v: &Vec<char>, start: usize) -> (r: usize)
    requires
        start as int <= v@.len(),
    ensures
        r as int == scan_token(v@, start as int),
        start <= r,
        r as int <= v@.len(),
{
    let n = v.len();
    let mut i = start;
    while i < n && !is_ws_exec(v[i]) && v[i] != '(' && v[i] != ')' && v[i] != ','
        invariant
            start <= i <= n,
            n == v@.len(),
            scan_token(v@, start as int) == scan_token(v@, i as int),
        decreases n - i,
    {
        i = i + 1;
    }
    i
}

/// Whether the text begins, after leading whitespace, with the keyword
/// `POINT` in either case.
pub fn point_prefix_exec(v: &Vec<char>) -> (r: bool)
    ensures
        r == point_prefix(v@),
{
    let k = skip_ws_exec(v, 0);
    let n = v.len();
    if k >= n || n - k < 5 {
        return false;
    }
    (v[k] == 'P' || v[k] == 'p') && (v[k + 1] == 'O' || v[k + 1] == 'o') && (v[k + 2] == 'I' || v[k
        + 2] == 'i') && (v[k + 3] == 'N' || v[k + 3] == 'n') && (v[k + 4] == 'T' || v[k + 4] == 't')
}

/// The keyword analysis of a point text: how many coordinate tokens past
/// the second its dimension demands, and where its body begins; or
/// `None` where the keyword token is no point keyword.
fn point_header(v: &Vec<char>) -> (r: Option<(usize, usize)>)
    ensures
        (r is Some) == (extra_coords(v@) >= 0),
        r matches Some(h) ==> {
            &&& h.0 as int == extra_coords(v@)
            &&& h.1 as int == args_pos(v@)
            &&& h.1 as int <= v@.len()
        },
{
    let ghost s = v@;
    let k0 = skip_ws_exec(v, 0);
    let k1 = scan_token_exec(v, k0);
    proof {
        assert(k0 as int == kw_start(s));
        assert(k1 as int == kw_end(s));
    }
    let klen = k1 - k0;
    let p5 = klen >= 5 && (v[k0] == 'P' || v[k0] == 'p') && (v[k0 + 1] == 'O' || v[k0 + 1] == 'o')
        && (v[k0 + 2] == 'I' || v[k0 + 2] == 'i') && (v[k0 + 3] == 'N' || v[k0 + 3] == 'n') && (v[k0
        + 4] == 'T' || v[k0 + 4] == 't');
    let extra: usize;
    let pp: usize;
    if p5 && klen == 5 {
        let d0 = skip_ws_exec(v, k1);
        let d1 = scan_token_exec(v, d0);
        proof {
            assert(d0 as int == dim_start(s));
            assert(d1 as int == dim_end(s));
        }
        let dlen = d1 - d0;
        if dlen == 1 && (v[d0] == 'Z' || v[d0] == 'z' || v[d0] == 'M' || v[d0] == 'm') {
            extra = 1;
            pp = skip_ws_exec(v, d1);
        } else if dlen == 2 && (v[d0] == 'Z' || v[d0] == 'z') && (v[d0 + 1] == 'M' || v[d0 + 1]
            == 'm') {
            extra = 2;
            pp = skip_ws_exec(v, d1);
        } else {
            extra = 0;
            pp = d0;
        }
    } else if p5 && klen == 6 && (v[k0 + 5] == 'Z' || v[k0 + 5] == 'z' || v[k0 + 5] == 'M' || v[k0
        + 5] == 'm') {
        extra = 1;
        pp = skip_ws_exec(v, k1);
    } else if p5 && klen == 7 && (v[k0 + 5] == 'Z' || v[k0 + 5] == 'z') && (v[k0 + 6] == 'M' || v[k0
        + 6] == 'm') {
        extra = 2;
        pp = skip_ws_exec(v, k1);
    } else {
        proof {
            assert(extra_coords(s) == -1);
        }
        return None;
    }
    proof {
        assert(extra as int == extra_coords(s));
        assert(pp as int == args_pos(s));
    }
    Some((extra, pp))
}

/// Whether the text is an empty point (see `empty_point_form`).
fn empty_point_check(v: &Vec<char>) -> (r: bool)
    ensures
        r == empty_point_form(v@),
{
    let ghost s = v@;
    match point_header(v) {
        None => false,
        Some((_, pp)) => {
            let e1 = scan_token_exec(v, pp);
            proof {
                assert(e1 as int == scan_token(s, args_pos(s)));
            }
            e1 - pp == 5 && (v[pp] == 'E' || v[pp] == 'e') && (v[pp + 1] == 'M' || v[pp + 1] == 'm')
                && (v[pp + 2] == 'P' || v[pp + 2] == 'p') && (v[pp + 3] == 'T' || v[pp + 3] == 't')
                && (v[pp + 4] == 'Y' || v[pp + 4] == 'y')
        },
    }
}

/// The coordinates of a point text, or `None` where the grammar or a
/// coordinate literal is rejected.
pub fn parse_point_wkt(v: &Vec<char>) -> (r: Option<GeoPoint>)
    ensures
        (r is Some) == (point_wkt_value(v@) is Some),
        r matches Some(p) ==> point_wkt_value(v@) == Some((p.x as int, p.y as int))
            && coord_in_range(p.x as int) && coord_in_range(p.y as int),
{
    let ghost s = v@;
    let n = v.len();
    let (extra, pp) = match point_header(v) {
        None => {
            return None;
        },
        Some(h) => h,
    };
    if pp >= n || v[pp] != '(' {
        return None;
    }
    let x0 = skip_ws_exec(v, pp + 1);
    let x1 = scan_token_exec(v, x0);
    proof {
        assert(x0 as int == x_start(s));
        assert(x1 as int == x_end(s));
    }
    if x1 == x0 {
        return None;
    }
    let y0 = skip_ws_exec(v, x1);
    let y1 = scan_token_exec(v, y0);
    proof {
        assert(y0 as int == y_start(s));
        assert(y1 as int == y_end(s));
    }
    if y0 == x1 {
        return None;
    }
    if y1 == y0 {
        return None;
    }
    // the discarded coordinate tokens the dimension demands
    let mut cend = y1;
    if extra >= 1 {
        let t0 = skip_ws_exec(v, y1);
        let t1 = scan_token_exec(v, t0);
        proof {
            assert(t0 as int == e1_start(s));
            assert(t1 as int == e1_end(s));
        }
        if t1 == t0 {
            return None;
        }
        let et = sub_chars(v, t0, t1);
        if !crate::coords::coord_shape_check(&et) {
            return None;
        }
        cend = t1;
        if extra == 2 {
            let u0 = skip_ws_exec(v, t1);
            let u1 = scan_token_exec(v, u0);
            proof {
                assert(u0 as int == e2_start(s));
                assert(u1 as int == e2_end(s));
            }
            if u1 == u0 {
                return None;
            }
            let eu = sub_chars(v, u0, u1);
            if !crate::coords::coord_shape_check(&eu) {
                return None;
            }
            cend = u1;
        }
    }
    proof {
        assert(cend as int == coords_end(s));
        assert(extras_ok(s));
    }
    let cp = skip_ws_exec(v, cend);
    proof {
        assert(cp as int == close_pos(s));
    }
    if cp >= n || v[cp] != ')' {
        return None;
    }
    let xt = sub_chars(v, x0, x1);
    let yt = sub_chars(v, y0, y1);
    let xv = match parse_coord(&xt) {
        None => {
            return None;
        },
        Some(x) => x,
    };
    let yv = match parse_coord(&yt) {
        None => {
            return None;
        },
        Some(y) => y,
    };
    Some(GeoPoint { x: xv, y: yv })
}

/// The geometry denoted by the object term of an `asWKT` quad: the term
/// must be a quoted literal whose body is well-known text. A body that
/// begins with the point keyword is parsed by this crate's own point
/// parser into a point; any other body is handed to the outside WKT
/// parser and carried as text. A term rejected by either step is a
/// malformed geometry.
pub fn parse_wkt_from_triple_string(triple_node: &str) -> (r: Result<GeoValue, TriplesError>)
    ensures
        (r is Ok) == (parsed_wkt_term(triple_node@) is Some),
        r matches Ok(g) ==> parsed_wkt_term(triple_node@) == Some(g@) && geo_wf(g@),
        r matches Err(e) ==> e@ == (ErrorView::MalformedGeometry { literal: triple_node@ }),
{
    let cv = chars_of(triple_node);
    let text = match lexical_strict(&cv) {
        None => {
            return Err(
                TriplesError::MalformedGeometry { literal: String::from_str(triple_node) },
            );
        },
        Some(t) => t,
    };
    if point_prefix_exec(&text) {
        if empty_point_check(&text) {
            let ts = string_of(&text);
            if wkt_parses(ts.as_str()) {
                Ok(GeoValue::Wkt { text: ts })
            } else {
                Err(TriplesError::MalformedGeometry { literal: String::from_str(triple_node) })
            }
        } else {
            match parse_point_wkt(&text) {
                Some(p) => Ok(GeoValue::Point { x: p.x, y: p.y }),
                None => Err(
                    TriplesError::MalformedGeometry { literal: String::from_str(triple_node) },
                ),
            }
        }
    } else {
        let ts = string_of(&text);
        if wkt_parses(ts.as_str()) {
            Ok(GeoValue::Wkt { text: ts })
        } else {
            Err(TriplesError::MalformedGeometry { literal: String::from_str(triple_node) })
        }
    }
}

} // verus!
