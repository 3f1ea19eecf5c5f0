//! The executable parser: a single left-to-right walk over the input bytes,
//! proved to return exactly what the grammar specification
//! (`crate::grammar::spec_parse`) says.

use vstd::prelude::*;
use vstd::slice::slice_to_vec;
use crate::grammar::ci_match;
use crate::grammar::spec_parse;
use crate::grammar::spec_params_loop;
use crate::grammar::spec_push_param;
use crate::grammar::spec_scan_name;
use crate::grammar::spec_scan_quoted;
use crate::grammar::spec_scan_subtype;
use crate::grammar::spec_scan_type;
use crate::grammar::spec_scan_value;
use crate::grammar::spec_scan_value_unquoted;
use crate::grammar::spec_skip_ws;
use crate::grammar::utf8_spans_ci;
use crate::model::MimeModel;
use crate::model::ParamsModel;
use crate::model::SpanModel;
use crate::model::charset_seq;
use crate::model::lower_byte;
use crate::model::normalize;
use crate::model::normalize_with;
use crate::model::norm_lowers;
use crate::model::in_name_span;
use crate::model::in_charset_value_span;
use crate::model::params_storage_wf;
use crate::model::pair_wf;
use crate::model::seq_lower;
use crate::model::star_star_seq;
use crate::model::utf8_seq;
use crate::model::wf_bounds;
use crate::token::is_restricted_quoted_char;
use crate::token::is_token;
use crate::types::CanRange;
use crate::types::Indexed;
use crate::types::IndexedPair;
use crate::types::Mime;
use crate::types::ParamSource;
use crate::types::ParseError;
use crate::types::Source;
use crate::types::opt_view;
use crate::types::pair_view;

verus! {

/// ASCII lowercasing of one byte.
fn lower(c: u8) -> (r: u8)
    ensures
        r == lower_byte(c),
{
    if 65 <= c && c <= 90 {
        c + 32
    } else {
        c
    }
}

/// Whether the bytes of `s` in `[a, b)` lowercase to `charset`.
fn is_charset_span(s: &[u8], a: usize, b: usize) -> (r: bool)
    requires
        a <= b <= s@.len(),
    ensures
        r == ci_match(s@, SpanModel { start: a as int, end: b as int }, charset_seq()),
{
    let ghost sub = s@.subrange(a as int, b as int);
    if b - a != 7 {
        proof {
            assert(seq_lower(sub).len() == sub.len());
            assert(charset_seq().len() == 7);
        }
        return false;
    }
    let r = lower(s[a]) == 99 && lower(s[a + 1]) == 104 && lower(s[a + 2]) == 97 && lower(
        s[a + 3],
    ) == 114 && lower(s[a + 4]) == 115 && lower(s[a + 5]) == 101 && lower(s[a + 6]) == 116;
    proof {
        assert(forall|i: int|
            0 <= i < 7 ==> seq_lower(sub)[i] == lower_byte(s@[a + i]));
        if r {
            assert(seq_lower(sub) =~= charset_seq());
        } else {
            assert(seq_lower(sub) != charset_seq());
        }
    }
    r
}

/// Whether the bytes of `s` in `[a, b)` lowercase to `utf-8`.
fn is_utf8_span(s: &[u8], a: usize, b: usize) -> (r: bool)
    requires
        a <= b <= s@.len(),
    ensures
        r == ci_match(s@, SpanModel { start: a as int, end: b as int }, utf8_seq()),
{
    let ghost sub = s@.subrange(a as int, b as int);
    if b - a != 5 {
        proof {
            assert(seq_lower(sub).len() == sub.len());
            assert(utf8_seq().len() == 5);
        }
        return false;
    }
    let r = lower(s[a]) == 117 && lower(s[a + 1]) == 116 && lower(s[a + 2]) == 102 && lower(
        s[a + 3],
    ) == 45 && lower(s[a + 4]) == 56;
    proof {
        assert(forall|i: int|
            0 <= i < 5 ==> seq_lower(sub)[i] == lower_byte(s@[a + i]));
        if r {
            assert(seq_lower(sub) =~= utf8_seq());
        } else {
            assert(seq_lower(sub) != utf8_seq());
        }
    }
    r
}

/// The whole input lowercased, as the `charset=utf-8` shorthand stores it.
fn lower_all(s: &[u8]) -> (r: Vec<u8>)
    ensures
        r@ == seq_lower(s@),
{
    let mut r: Vec<u8> = Vec::new();
    let mut k: usize = 0;
    while k < s.len()
        invariant
            k <= s@.len(),
            r@.len() == k,
            forall|i: int| 0 <= i < k ==> r@[i] == lower_byte(s@[i]),
        decreases s@.len() - k,
    {
        r.push(lower(s[k]));
        k += 1;
    }
    proof {
        assert(r@ =~= seq_lower(s@));
    }
    r
}

/// Scan of one parameter name: yields the offset of its `=`.
fn scan_name(s: &[u8], nstart: usize) -> (r: Result<usize, ParseError>)
    requires
        nstart <= s@.len(),
    ensures
        match r {
            Ok(e) => spec_scan_name(s@, nstart as int, nstart as int) == Ok::<int, ParseError>(
                e as int,
            ) && nstart < e < s@.len(),
            Err(err) => spec_scan_name(s@, nstart as int, nstart as int) == Err::<int, ParseError>(
                err,
            ),
        },
{
    let mut j = nstart;
    loop
        invariant
            nstart <= j <= s@.len(),
            spec_scan_name(s@, nstart as int, j as int) == spec_scan_name(
                s@,
                nstart as int,
                nstart as int,
            ),
        decreases s@.len() - j,
    {
        if j == s.len() {
            return Err(ParseError::MissingEqual);
        }
        let c = s[j];
        if is_token(c) {
            j += 1;
        } else if c == 61 && j > nstart {
            return Ok(j);
        } else {
            return Err(ParseError::InvalidToken { pos: j, byte: c });
        }
    }
}

/// Scan of the inside of a quoted value: yields the offset just after the
/// closing quote.
fn scan_quoted(s: &[u8], j0: usize) -> (r: Result<usize, ParseError>)
    requires
        j0 <= s@.len(),
    ensures
        match r {
            Ok(v) => spec_scan_quoted(s@, j0 as int) == Ok::<int, ParseError>(v as int) && j0 < v
                <= s@.len(),
            Err(err) => spec_scan_quoted(s@, j0 as int) == Err::<int, ParseError>(err),
        },
{
    let mut j = j0;
    loop
        invariant
            j0 <= j <= s@.len(),
            spec_scan_quoted(s@, j as int) == spec_scan_quoted(s@, j0 as int),
        decreases s@.len() - j,
    {
        if j == s.len() {
            return Err(ParseError::MissingQuote);
        }
        let c = s[j];
        if c == 34 {
            return Ok(j + 1);
        } else if c == 92 {
            if j + 1 == s.len() {
                return Err(ParseError::MissingQuote);
            }
            let c2 = s[j + 1];
            if is_restricted_quoted_char(c2) {
                j += 2;
            } else {
                return Err(ParseError::InvalidToken { pos: j + 1, byte: c2 });
            }
        } else if is_restricted_quoted_char(c) {
            j += 1;
        } else {
            return Err(ParseError::InvalidToken { pos: j, byte: c });
        }
    }
}

/// Skip of the spaces after a quoted value: yields the offset where the next
/// parameter starts, or the input length.
fn skip_ws(s: &[u8], j0: usize) -> (r: Result<usize, ParseError>)
    requires
        j0 <= s@.len(),
    ensures
        match r {
            Ok(n) => spec_skip_ws(s@, j0 as int) == Ok::<int, ParseError>(n as int) && j0 <= n
                <= s@.len(),
            Err(err) => spec_skip_ws(s@, j0 as int) == Err::<int, ParseError>(err),
        },
{
    let mut j = j0;
    loop
        invariant
            j0 <= j <= s@.len(),
            spec_skip_ws(s@, j as int) == spec_skip_ws(s@, j0 as int),
        decreases s@.len() - j,
    {
        if j == s.len() {
            return Ok(j);
        }
        let c = s[j];
        if c == 59 {
            return Ok(j + 1);
        } else if c == 32 {
            j += 1;
        } else {
            return Err(ParseError::InvalidToken { pos: j, byte: c });
        }
    }
}

/// Scan of one parameter value from the byte after the `=`: yields the value
/// end and the offset where the next parameter starts.
fn scan_value(s: &[u8], vstart: usize) -> (r: Result<(usize, usize), ParseError>)
    requires
        vstart <= s@.len(),
    ensures
        match r {
            Ok(p) => spec_scan_value(s@, vstart as int) == Ok::<(int, int), ParseError>(
                (p.0 as int, p.1 as int),
            ) && vstart <= p.0 <= s@.len() && vstart <= p.1 <= s@.len(),
            Err(err) => spec_scan_value(s@, vstart as int) == Err::<(int, int), ParseError>(err),
        },
{
    if vstart < s.len() && s[vstart] == 34 {
        let vend = match scan_quoted(s, vstart + 1) {
            Ok(v) => v,
            Err(e) => {
                return Err(e);
            },
        };
        let ns = match skip_ws(s, vend) {
            Ok(n) => n,
            Err(e) => {
                return Err(e);
            },
        };
        Ok((vend, ns))
    } else {
        let mut j = vstart;
        loop
            invariant
                vstart <= j <= s@.len(),
                spec_scan_value_unquoted(s@, vstart as int, j as int) == spec_scan_value_unquoted(
                    s@,
                    vstart as int,
                    vstart as int,
                ),
                vstart < s@.len() ==> s@[vstart as int] != 34,
                spec_scan_value(s@, vstart as int) == spec_scan_value_unquoted(
                    s@,
                    vstart as int,
                    vstart as int,
                ),
            decreases s@.len() - j,
        {
            if j == s.len() {
                return Ok((s.len(), s.len()));
            }
            let c = s[j];
            if is_token(c) {
                j += 1;
            } else if c == 59 && j > vstart {
                return Ok((j, j + 1));
            } else {
                return Err(ParseError::InvalidToken { pos: j, byte: c });
            }
        }
    }
}

/// Parses the parameter section that begins with the `;` at `semicolon`,
/// one parameter per round: an optional single leading space, a token name,
/// `=`, and a token or quoted value. The first parameter may collapse into
/// the `charset=utf-8` shorthand; the fourth moves the storage to the
/// dynamic list.
pub(crate) fn params_from_str(s: &[u8], semicolon: usize) -> (r: Result<ParamSource, ParseError>)
    requires
        semicolon < s@.len(),
    ensures
        match r {
            Ok(ps) => spec_params_loop(s@, semicolon as int, ParamsModel::Empty, semicolon + 1)
                == Ok::<ParamsModel, ParseError>(ps@) && (ps@ is Empty || ps@.semi_opt() == Some(
                semicolon as int,
            )) && params_storage_wf(ps@, s@.len() as int) && (ps@ is Utf8 ==> utf8_spans_ci(
                s@,
                semicolon as int,
            )),
            Err(e) => spec_params_loop(s@, semicolon as int, ParamsModel::Empty, semicolon + 1)
                == Err::<ParamsModel, ParseError>(e),
        },
{
    let len = s.len();
    let ghost semi = semicolon as int;
    let mut params = ParamSource::Empty;
    let mut start = semicolon + 1;
    loop
        invariant
            semicolon < start <= len,
            len == s@.len(),
            semi == semicolon as int,
            spec_params_loop(s@, semi, ParamsModel::Empty, semi + 1) == spec_params_loop(
                s@,
                semi,
                params@,
                start as int,
            ),
            params@ is Empty || params@.semi_opt() == Some(semi),
            params_storage_wf(params@, len as int),
            params@ is Utf8 ==> utf8_spans_ci(s@, semi),
        decreases len - start,
    {
        if start == len {
            return Ok(params);
        }
        let ghost start0 = start as int;
        let ghost old_params = params@;
        let nstart = if s[start] == 32 {
            start + 1
        } else {
            start
        };
        let eqpos = match scan_name(s, nstart) {
            Ok(e) => e,
            Err(e) => {
                return Err(e);
            },
        };
        let (vend, ns) = match scan_value(s, eqpos + 1) {
            Ok(p) => p,
            Err(e) => {
                return Err(e);
            },
        };
        let ghost nm = SpanModel { start: nstart as int, end: eqpos as int };
        let ghost vl = SpanModel { start: eqpos as int + 1, end: vend as int };
        let pair = IndexedPair { name: Indexed(nstart, eqpos), value: Indexed(eqpos + 1, vend) };
        params = match params {
            ParamSource::Empty => {
                if nstart - semicolon == 2 && is_charset_span(s, nstart, eqpos) && is_utf8_span(
                    s,
                    eqpos + 1,
                    vend,
                ) {
                    proof {
                        assert(charset_seq().len() == 7);
                        assert(utf8_seq().len() == 5);
                        assert(s@.subrange(nm.start, nm.end).len() == 7);
                        assert(s@.subrange(vl.start, vl.end).len() == 5);
                    }
                    ParamSource::Utf8(semicolon)
                } else {
                    ParamSource::One(semicolon, pair)
                }
            },
            ParamSource::Utf8(sc) => ParamSource::Two(
                sc,
                IndexedPair { name: Indexed(sc + 2, sc + 9), value: Indexed(sc + 10, sc + 15) },
                pair,
            ),
            ParamSource::One(sc, a) => ParamSource::Two(sc, a, pair),
            ParamSource::Two(sc, a, b) => ParamSource::Three(sc, a, b, pair),
            ParamSource::Three(sc, a, b, c) => {
                let mut v: Vec<IndexedPair> = Vec::new();
                v.push(a);
                v.push(b);
                v.push(c);
                v.push(pair);
                proof {
                    assert(v@ =~= seq![a, b, c, pair]);
                    assert(v@.map_values(|p: IndexedPair| pair_view(p)) =~= seq![
                        pair_view(a),
                        pair_view(b),
                        pair_view(c),
                    ].push(pair_view(pair)));
                }
                ParamSource::Custom(sc, v)
            },
            ParamSource::Custom(sc, v) => {
                let mut v2 = v;
                let ghost oldv = v2@;
                v2.push(pair);
                proof {
                    assert(v2@.map_values(|p: IndexedPair| pair_view(p)) =~= oldv.map_values(
                        |p: IndexedPair| pair_view(p),
                    ).push(pair_view(pair)));
                }
                ParamSource::Custom(sc, v2)
            },
        };
        proof {
            assert(pair_wf(pair_view(pair), semi, len as int));
            assert(params@ =~= spec_push_param(s@, semi, old_params, nm, vl));
            assert(params_storage_wf(params@, len as int)) by {
                match params@ {
                    ParamsModel::Empty => {},
                    ParamsModel::Utf8 { .. } => {},
                    ParamsModel::Inline { semi: sm, pairs } => {
                        assert(forall|i: int|
                            0 <= i < pairs.len() ==> #[trigger] pair_wf(pairs[i], sm, len as int));
                    },
                    ParamsModel::Custom { semi: sm, pairs } => {
                        assert(forall|i: int|
                            0 <= i < pairs.len() ==> #[trigger] pair_wf(pairs[i], sm, len as int));
                    },
                }
            }
            assert(spec_params_loop(s@, semi, old_params, start0) == spec_params_loop(
                s@,
                semi,
                params@,
                ns as int,
            ));
        }
        start = ns;
    }
}

/// Whether case normalization lowercases the byte at offset `k`: before the
/// `;`, inside a parameter name, or inside the value of a parameter named
/// `charset`.
fn norm_lowers_at(s: &[u8], semi: usize, pairs: &Vec<IndexedPair>, k: usize) -> (r: bool)
    requires
        k < s@.len(),
        forall|i: int|
            0 <= i < pairs@.len() ==> #[trigger] pair_wf(
                pair_view(pairs@[i]),
                semi as int,
                s@.len() as int,
            ),
    ensures
        r == norm_lowers(
            s@,
            semi as int,
            pairs@.map_values(|p: IndexedPair| pair_view(p)),
            k as int,
        ),
{
    let ghost pview = pairs@.map_values(|p: IndexedPair| pair_view(p));
    if k < semi {
        return true;
    }
    let mut i: usize = 0;
    while i < pairs.len()
        invariant
            i <= pairs@.len(),
            pview == pairs@.map_values(|p: IndexedPair| pair_view(p)),
            forall|t: int|
                0 <= t < i ==> !((#[trigger] pview[t]).0.start <= k < pview[t].0.end),
            forall|t: int|
                0 <= t < i ==> !((#[trigger] pview[t]).1.start <= k < pview[t].1.end && ci_match(
                    s@,
                    pview[t].0,
                    charset_seq(),
                )),
            forall|t: int|
                0 <= t < pairs@.len() ==> #[trigger] pair_wf(
                    pair_view(pairs@[t]),
                    semi as int,
                    s@.len() as int,
                ),
            k < s@.len(),
        decreases pairs@.len() - i,
    {
        let p = pairs[i];
        proof {
            assert(pview[i as int] == pair_view(pairs@[i as int]));
            assert(pair_wf(pair_view(pairs@[i as int]), semi as int, s@.len() as int));
        }
        if p.name.0 <= k && k < p.name.1 {
            proof {
                assert(in_name_span(k as int, pview));
            }
            return true;
        }
        if p.value.0 <= k && k < p.value.1 {
            if is_charset_span(s, p.name.0, p.name.1) {
                proof {
                    assert((pview[i as int]).1.start <= k < pview[i as int].1.end && ci_match(
                        s@,
                        pview[i as int].0,
                        charset_seq(),
                    ));
                    assert(in_charset_value_span(s@, k as int, pview));
                }
                return true;
            }
        } else {
            proof {
                assert(!(pview[i as int].1.start <= k < pview[i as int].1.end));
            }
        }
        i += 1;
    }
    proof {
        assert(!in_name_span(k as int, pview));
        assert(!in_charset_value_span(s@, k as int, pview));
    }
    false
}

/// The case-normalized copy of a parameter-bearing text: the type and
/// subtype, every parameter name, and every `charset` value lowercased.
fn lower_ascii_with_params(s: &[u8], semi: usize, pairs: &Vec<IndexedPair>) -> (r: Vec<u8>)
    requires
        forall|i: int|
            0 <= i < pairs@.len() ==> #[trigger] pair_wf(
                pair_view(pairs@[i]),
                semi as int,
                s@.len() as int,
            ),
    ensures
        r@ == normalize_with(
            s@,
            semi as int,
            pairs@.map_values(|p: IndexedPair| pair_view(p)),
        ),
{
    let ghost pview = pairs@.map_values(|p: IndexedPair| pair_view(p));
    let mut r: Vec<u8> = Vec::new();
    let mut k: usize = 0;
    while k < s.len()
        invariant
            k <= s@.len(),
            r@.len() == k,
            pview == pairs@.map_values(|p: IndexedPair| pair_view(p)),
            forall|i: int|
                0 <= i < pairs@.len() ==> #[trigger] pair_wf(
                    pair_view(pairs@[i]),
                    semi as int,
                    s@.len() as int,
                ),
            forall|t: int|
                0 <= t < k ==> r@[t] == normalize_with(s@, semi as int, pview)[t],
        decreases s@.len() - k,
    {
        let c = s[k];
        if norm_lowers_at(s, semi, pairs, k) {
            r.push(lower(c));
        } else {
            r.push(c);
        }
        k += 1;
    }
    proof {
        assert(r@ =~= normalize_with(s@, semi as int, pview));
    }
    r
}

/// Scan of the top-level type: yields the offset of the `/`.
fn scan_type_slash(s: &[u8], can_range: CanRange) -> (r: Result<usize, ParseError>)
    ensures
        match r {
            Ok(sl) => 0 < sl < s@.len() && s@[sl as int] == 47 && spec_scan_type(
                s@,
                can_range.allows(),
                0,
            ) == spec_scan_subtype(s@, can_range.allows(), sl as int, None, sl as int + 1),
            Err(e) => spec_scan_type(s@, can_range.allows(), 0) == Err::<MimeModel, ParseError>(e),
        },
{
    let ghost cr = can_range.allows();
    let len = s.len();
    let mut j: usize = 0;
    loop
        invariant
            j <= len,
            len == s@.len(),
            spec_scan_type(s@, cr, j as int) == spec_scan_type(s@, cr, 0),
            cr == can_range.allows(),
        decreases len - j,
    {
        if j == len {
            return Err(ParseError::MissingSlash);
        }
        let c = s[j];
        if is_token(c) {
            j += 1;
        } else if c == 47 && j > 0 {
            return Ok(j);
        } else {
            return Err(ParseError::InvalidToken { pos: j, byte: c });
        }
    }
}

/// Scan of the subtype from the byte after the `/`: yields the suffix
/// marker, and the offset of the `;` when a parameter section follows.
fn scan_subtype_part(s: &[u8], can_range: CanRange, slash: usize) -> (r: Result<
    (Option<usize>, Option<usize>),
    ParseError,
>)
    requires
        slash < s@.len(),
    ensures
        match r {
            Ok((plus, semi_opt)) => {
                &&& match plus {
                    Some(p) => slash + 1 < p < s@.len() && s@[p as int] == 43,
                    None => true,
                }
                &&& match semi_opt {
                    Some(semi) => {
                        &&& slash + 1 < semi < s@.len()
                        &&& s@[semi as int] == 59
                        &&& match plus {
                            Some(p) => p < semi,
                            None => true,
                        }
                        &&& spec_scan_subtype(
                            s@,
                            can_range.allows(),
                            slash as int,
                            None,
                            slash as int + 1,
                        ) == crate::grammar::spec_params(
                            s@,
                            slash as int,
                            opt_view(plus),
                            semi as int,
                        )
                    },
                    None => spec_scan_subtype(
                        s@,
                        can_range.allows(),
                        slash as int,
                        None,
                        slash as int + 1,
                    ) == Ok::<MimeModel, ParseError>(
                        MimeModel {
                            source: s@,
                            slash: slash as int,
                            plus: opt_view(plus),
                            params: ParamsModel::Empty,
                        },
                    ),
                }
            },
            Err(e) => spec_scan_subtype(s@, can_range.allows(), slash as int, None, slash as int + 1)
                == Err::<MimeModel, ParseError>(e),
        },
{
    let ghost cr = can_range.allows();
    let len = s.len();
    let mut plus: Option<usize> = None;
    let mut j = slash + 1;
    loop
        invariant
            slash + 1 <= j <= len,
            len == s@.len(),
            slash < len,
            cr == can_range.allows(),
            spec_scan_subtype(s@, cr, slash as int, opt_view(plus), j as int) == spec_scan_subtype(
                s@,
                cr,
                slash as int,
                None,
                slash as int + 1,
            ),
            match plus {
                Some(p) => slash + 1 < p < j && s@[p as int] == 43,
                None => true,
            },
        decreases len - j,
    {
        if j == len {
            return Ok((plus, None));
        }
        let c = s[j];
        if c == 43 && j > slash + 1 {
            plus = Some(j);
            j += 1;
        } else if c == 59 && j > slash + 1 {
            return Ok((plus, Some(j)));
        } else if c == 42 && j == slash + 1 && can_range == CanRange::Yes {
            if j + 1 == len {
                return Ok((plus, None));
            }
            let c2 = s[j + 1];
            if c2 == 59 {
                return Ok((plus, Some(j + 1)));
            }
            return Err(ParseError::InvalidToken { pos: j + 1, byte: c2 });
        } else if is_token(c) {
            j += 1;
        } else {
            return Err(ParseError::InvalidToken { pos: j, byte: c });
        }
    }
}

/// Parses a media type. The exact input `*/*` succeeds as the canonical
/// wildcard only when `can_range` permits it and fails with the wildcard
/// error otherwise; every other input runs the state machine, and the
/// backing text is case-normalized exactly when a parameter section was
/// seen. The returned value is precisely what the grammar specification
/// `spec_parse` assigns to the input, and its offsets are well placed.
pub fn parse(s: &[u8], can_range: CanRange) -> (r: Result<Mime, ParseError>)
    ensures
        match r {
            Ok(m) => spec_parse(s@, can_range.allows()) == Ok::<MimeModel, ParseError>(m@)
                && wf_bounds(m@),
            Err(e) => spec_parse(s@, can_range.allows()) == Err::<MimeModel, ParseError>(e),
        },
{
    let ghost cr = can_range.allows();
    let len = s.len();
    if len == 3 && s[0] == 42 && s[1] == 47 && s[2] == 42 {
        proof {
            assert(s@ =~= star_star_seq());
        }
        return match can_range {
            CanRange::Yes => {
                let mut v: Vec<u8> = Vec::new();
                v.push(42);
                v.push(47);
                v.push(42);
                let m = Mime {
                    source: Source::Atom(v),
                    slash: 1,
                    plus: None,
                    params: ParamSource::Empty,
                };
                proof {
                    assert(m@.source =~= star_star_seq());
                    assert(m@ =~= MimeModel {
                        source: star_star_seq(),
                        slash: 1,
                        plus: None,
                        params: ParamsModel::Empty,
                    });
                }
                Ok(m)
            },
            CanRange::No => Err(ParseError::InvalidRange),
        };
    }
    proof {
        assert(s@ != star_star_seq()) by {
            if s@ == star_star_seq() {
                assert(s@.len() == 3);
                assert(s@[0] == 42 && s@[1] == 47 && s@[2] == 42);
            }
        }
    }
    let slash = match scan_type_slash(s, can_range) {
        Ok(sl) => sl,
        Err(e) => {
            return Err(e);
        },
    };
    let (plus, semi_opt) = match scan_subtype_part(s, can_range, slash) {
        Ok(p) => p,
        Err(e) => {
            return Err(e);
        },
    };
    let semicolon = match semi_opt {
        None => {
            let m = Mime {
                source: Source::Dynamic(slice_to_vec(s)),
                slash,
                plus,
                params: ParamSource::Empty,
            };
            proof {
                assert(m@ =~= MimeModel {
                    source: s@,
                    slash: slash as int,
                    plus: opt_view(plus),
                    params: ParamsModel::Empty,
                });
            }
            return Ok(m);
        },
        Some(sc) => sc,
    };
    let params = match params_from_str(s, semicolon) {
        Ok(p) => p,
        Err(e) => {
            return Err(e);
        },
    };
    let source: Vec<u8> = match &params {
        ParamSource::Empty => slice_to_vec(s),
        ParamSource::Utf8(_) => lower_all(s),
        ParamSource::One(sc, a) => {
            let mut v: Vec<IndexedPair> = Vec::new();
            v.push(*a);
            proof {
                let glen = s@.len() as int;
                let gp = params@.span_pairs();
                assert(gp == seq![pair_view(*a)]);
                assert(pair_wf(gp[0], *sc as int, glen));
                assert forall|i: int| 0 <= i < v@.len() implies #[trigger] pair_wf(
                    pair_view(v@[i]),
                    *sc as int,
                    glen,
                ) by {
                    assert(pair_view(v@[i]) == gp[0]);
                }
            }
            let out = lower_ascii_with_params(s, *sc, &v);
            proof {
                assert(v@.map_values(|p: IndexedPair| pair_view(p)) =~= seq![pair_view(*a)]);
            }
            out
        },
        ParamSource::Two(sc, a, b) => {
            let mut v: Vec<IndexedPair> = Vec::new();
            v.push(*a);
            v.push(*b);
            proof {
                let glen = s@.len() as int;
                let gp = params@.span_pairs();
                assert(gp == seq![pair_view(*a), pair_view(*b)]);
                assert(pair_wf(gp[0], *sc as int, glen));
                assert(pair_wf(gp[1], *sc as int, glen));
                assert forall|i: int| 0 <= i < v@.len() implies #[trigger] pair_wf(
                    pair_view(v@[i]),
                    *sc as int,
                    glen,
                ) by {
                    if i == 0 {
                        assert(pair_view(v@[i]) == gp[0]);
                    } else {
                        assert(pair_view(v@[i]) == gp[1]);
                    }
                }
            }
            let out = lower_ascii_with_params(s, *sc, &v);
            proof {
                assert(v@.map_values(|p: IndexedPair| pair_view(p)) =~= seq![
                    pair_view(*a),
                    pair_view(*b),
                ]);
            }
            out
        },
        ParamSource::Three(sc, a, b, c) => {
            let mut v: Vec<IndexedPair> = Vec::new();
            v.push(*a);
            v.push(*b);
            v.push(*c);
            proof {
                let glen = s@.len() as int;
                let gp = params@.span_pairs();
                assert(gp == seq![pair_view(*a), pair_view(*b), pair_view(*c)]);
                assert(pair_wf(gp[0], *sc as int, glen));
                assert(pair_wf(gp[1], *sc as int, glen));
                assert(pair_wf(gp[2], *sc as int, glen));
                assert forall|i: int| 0 <= i < v@.len() implies #[trigger] pair_wf(
                    pair_view(v@[i]),
                    *sc as int,
                    glen,
                ) by {
                    if i == 0 {
                        assert(pair_view(v@[i]) == gp[0]);
                    } else if i == 1 {
                        assert(pair_view(v@[i]) == gp[1]);
                    } else {
                        assert(pair_view(v@[i]) == gp[2]);
                    }
                }
            }
            let out = lower_ascii_with_params(s, *sc, &v);
            proof {
                assert(v@.map_values(|p: IndexedPair| pair_view(p)) =~= seq![
                    pair_view(*a),
                    pair_view(*b),
                    pair_view(*c),
                ]);
            }
            out
        },
        ParamSource::Custom(sc, v) => {
            proof {
                let glen = s@.len() as int;
                let gp = params@.span_pairs();
                assert forall|i: int| 0 <= i < v@.len() implies #[trigger] pair_wf(
                    pair_view(v@[i]),
                    *sc as int,
                    glen,
                ) by {
                    assert(gp[i] == pair_view(v@[i]));
                    assert(pair_wf(gp[i], *sc as int, glen));
                }
            }
            lower_ascii_with_params(s, *sc, v)
        },
    };
    proof {
        assert(source@ == normalize(s@, params@));
        assert(source@.len() == s@.len());
    }
    let m = Mime { source: Source::Dynamic(source), slash, plus, params };
    proof {
        match m@.params {
            ParamsModel::Utf8 { semi } => {
                crate::model::lemma_seq_lower_subrange(s@, semi + 2, semi + 9);
                crate::model::lemma_seq_lower_subrange(s@, semi + 10, semi + 15);
            },
            _ => {},
        }
        assert(m@ =~= MimeModel {
            source: normalize(s@, m@.params),
            slash: slash as int,
            plus: opt_view(plus),
            params: m@.params,
        });
        assert(spec_parse(s@, cr) == Ok::<MimeModel, ParseError>(m@));
        assert(wf_bounds(m@));
    }
    Ok(m)
}

} // verus!
