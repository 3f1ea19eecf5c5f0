//! The media-type grammar as a recursive specification.
//!
//! `spec_parse` is the mathematical form of the parser: it walks the byte
//! sequence exactly as the executable state machine does and yields either
//! the model of the parsed value or the parse error. The executable `parse`
//! is proved to return precisely this function's result.

use vstd::prelude::*;
use crate::model::MimeModel;
use crate::model::ParamsModel;
use crate::model::SpanModel;
use crate::model::charset_seq;
use crate::model::normalize;
use crate::model::seq_lower;
use crate::model::star_star_seq;
use crate::model::utf8_seq;
use crate::token::is_token_byte;
use crate::token::is_restricted_quoted_byte;
use crate::types::ParseError;

verus! {

/// Scan of the top-level type: token bytes up to the first `/`, which must
/// not stand at offset 0. `j` is the scan position.
pub open spec fn spec_scan_type(s: Seq<u8>, can_range: bool, j: int) -> Result<
    MimeModel,
    ParseError,
>
    decreases s.len() - j,
{
    if j >= s.len() {
        Err(ParseError::MissingSlash)
    } else if is_token_byte(s[j]) {
        spec_scan_type(s, can_range, j + 1)
    } else if s[j] == 47u8 && j > 0 {
        spec_scan_subtype(s, can_range, j, None, j + 1)
    } else {
        Err(ParseError::InvalidToken { pos: j as usize, byte: s[j] })
    }
}

/// Scan of the subtype from position `j`, with `slash` fixed. A `+` strictly
/// after the subtype start records the suffix marker (the last one wins); a
/// `;` strictly after the start begins the parameters; a `*` is legal only
/// as the whole subtype, only when wildcards are permitted, and only when
/// followed by `;` or the end of the input.
pub open spec fn spec_scan_subtype(
    s: Seq<u8>,
    can_range: bool,
    slash: int,
    plus: Option<int>,
    j: int,
) -> Result<MimeModel, ParseError>
    decreases s.len() - j,
{
    if j >= s.len() {
        Ok(MimeModel { source: s, slash, plus, params: ParamsModel::Empty })
    } else if s[j] == 43u8 && j > slash + 1 {
        spec_scan_subtype(s, can_range, slash, Some(j), j + 1)
    } else if s[j] == 59u8 && j > slash + 1 {
        spec_params(s, slash, plus, j)
    } else if s[j] == 42u8 && j == slash + 1 && can_range {
        if j + 1 >= s.len() {
            Ok(MimeModel { source: s, slash, plus, params: ParamsModel::Empty })
        } else if s[j + 1] == 59u8 {
            spec_params(s, slash, plus, j + 1)
        } else {
            Err(ParseError::InvalidToken { pos: (j + 1) as usize, byte: s[j + 1] })
        }
    } else if is_token_byte(s[j]) {
        spec_scan_subtype(s, can_range, slash, plus, j + 1)
    } else {
        Err(ParseError::InvalidToken { pos: j as usize, byte: s[j] })
    }
}

/// Scan of one parameter name starting at `nstart`: token bytes ended by an
/// `=` after at least one name byte. Yields the offset of the `=`.
pub open spec fn spec_scan_name(s: Seq<u8>, nstart: int, j: int) -> Result<int, ParseError>
    decreases s.len() - j,
{
    if j >= s.len() {
        Err(ParseError::MissingEqual)
    } else if is_token_byte(s[j]) {
        spec_scan_name(s, nstart, j + 1)
    } else if s[j] == 61u8 && j > nstart {
        Ok(j)
    } else {
        Err(ParseError::InvalidToken { pos: j as usize, byte: s[j] })
    }
}

/// Scan of the inside of a quoted value from position `j` (just after the
/// opening quote): restricted bytes, `\`-escapes, ended by the closing `"`.
/// Yields the offset just after the closing quote.
pub open spec fn spec_scan_quoted(s: Seq<u8>, j: int) -> Result<int, ParseError>
    decreases s.len() - j,
{
    if j >= s.len() {
        Err(ParseError::MissingQuote)
    } else if s[j] == 34u8 {
        Ok(j + 1)
    } else if s[j] == 92u8 {
        if j + 1 >= s.len() {
            Err(ParseError::MissingQuote)
        } else if is_restricted_quoted_byte(s[j + 1]) {
            spec_scan_quoted(s, j + 2)
        } else {
            Err(ParseError::InvalidToken { pos: (j + 1) as usize, byte: s[j + 1] })
        }
    } else if is_restricted_quoted_byte(s[j]) {
        spec_scan_quoted(s, j + 1)
    } else {
        Err(ParseError::InvalidToken { pos: j as usize, byte: s[j] })
    }
}

/// After a quoted value: spaces may stand before the `;` of the next
/// parameter or the end of the input. Yields the offset where the next
/// parameter starts, or the input length.
pub open spec fn spec_skip_ws(s: Seq<u8>, j: int) -> Result<int, ParseError>
    decreases s.len() - j,
{
    if j >= s.len() {
        Ok(s.len() as int)
    } else if s[j] == 59u8 {
        Ok(j + 1)
    } else if s[j] == 32u8 {
        spec_skip_ws(s, j + 1)
    } else {
        Err(ParseError::InvalidToken { pos: j as usize, byte: s[j] })
    }
}

/// Scan of an unquoted value from `vstart`: token bytes up to a `;` after at
/// least one byte, or up to the end of the input (then the value may be
/// empty). Yields the value end and the offset where the next parameter
/// starts.
pub open spec fn spec_scan_value_unquoted(s: Seq<u8>, vstart: int, j: int) -> Result<
    (int, int),
    ParseError,
>
    decreases s.len() - j,
{
    if j >= s.len() {
        Ok((s.len() as int, s.len() as int))
    } else if is_token_byte(s[j]) {
        spec_scan_value_unquoted(s, vstart, j + 1)
    } else if s[j] == 59u8 && j > vstart {
        Ok((j, j + 1))
    } else {
        Err(ParseError::InvalidToken { pos: j as usize, byte: s[j] })
    }
}

/// Scan of one parameter value from `vstart`: a quoted string when the first
/// byte is `"` (the stored span keeps both quotes), else an unquoted token
/// run. Yields the value end and the offset where the next parameter starts.
pub open spec fn spec_scan_value(s: Seq<u8>, vstart: int) -> Result<(int, int), ParseError> {
    if vstart < s.len() && s[vstart] == 34u8 {
        match spec_scan_quoted(s, vstart + 1) {
            Err(e) => Err(e),
            Ok(vend) => match spec_skip_ws(s, vend) {
                Err(e) => Err(e),
                Ok(ns) => Ok((vend, ns)),
            },
        }
    } else {
        spec_scan_value_unquoted(s, vstart, vstart)
    }
}

/// The span pair the shorthand variant stands for: `charset` and `utf-8`
/// at their fixed offsets after the `;`.
pub open spec fn utf8_pair(semi: int) -> (SpanModel, SpanModel) {
    (SpanModel { start: semi + 2, end: semi + 9 }, SpanModel { start: semi + 10, end: semi + 15 })
}

/// Adds one parsed parameter to the storage: the first parameter may become
/// the `charset=utf-8` shorthand (only with exactly one space after the
/// `;`); the shorthand is materialized into explicit spans when a second
/// parameter arrives; the fourth parameter moves the storage to the dynamic
/// list.
pub open spec fn spec_push_param(
    s: Seq<u8>,
    semi: int,
    acc: ParamsModel,
    name: SpanModel,
    value: SpanModel,
) -> ParamsModel {
    match acc {
        ParamsModel::Empty => {
            if name.start == semi + 2 && ci_match(s, name, charset_seq()) && ci_match(
                s,
                value,
                utf8_seq(),
            ) {
                ParamsModel::Utf8 { semi }
            } else {
                ParamsModel::Inline { semi, pairs: seq![(name, value)] }
            }
        },
        ParamsModel::Utf8 { semi } => ParamsModel::Inline {
            semi,
            pairs: seq![utf8_pair(semi), (name, value)],
        },
        ParamsModel::Inline { semi, pairs } => {
            if pairs.len() < 3 {
                ParamsModel::Inline { semi, pairs: pairs.push((name, value)) }
            } else {
                ParamsModel::Custom { semi, pairs: pairs.push((name, value)) }
            }
        },
        ParamsModel::Custom { semi, pairs } => ParamsModel::Custom {
            semi,
            pairs: pairs.push((name, value)),
        },
    }
}

/// The bytes of span `sp` of `s`, lowercased, equal `w`.
pub open spec fn ci_match(s: Seq<u8>, sp: SpanModel, w: Seq<u8>) -> bool {
    seq_lower(s.subrange(sp.start, sp.end)) == w
}

/// The raw text behind a recognized `charset=utf-8` shorthand: the fixed
/// spans after the `;` lowercase to `charset` and `utf-8`.
pub open spec fn utf8_spans_ci(s: Seq<u8>, semi: int) -> bool {
    &&& ci_match(s, utf8_pair(semi).0, charset_seq())
    &&& ci_match(s, utf8_pair(semi).1, utf8_seq())
}

/// The parameter section: one parameter per round, from `start`, until the
/// end of the input. A single space may stand before each parameter name.
pub open spec fn spec_params_loop(s: Seq<u8>, semi: int, acc: ParamsModel, start: int) -> Result<
    ParamsModel,
    ParseError,
>
    decreases s.len() - start,
    via spec_params_loop_dec
{
    if start >= s.len() {
        Ok(acc)
    } else {
        let nstart = if s[start] == 32u8 {
            start + 1
        } else {
            start
        };
        match spec_scan_name(s, nstart, nstart) {
            Err(e) => Err(e),
            Ok(eq) => match spec_scan_value(s, eq + 1) {
                Err(e) => Err(e),
                Ok((vend, ns)) => spec_params_loop(
                    s,
                    semi,
                    spec_push_param(
                        s,
                        semi,
                        acc,
                        SpanModel { start: nstart, end: eq },
                        SpanModel { start: eq + 1, end: vend },
                    ),
                    ns,
                ),
            },
        }
    }
}

/// Positions returned by the name scan lie after the scan start and inside
/// the input.
pub proof fn lemma_scan_name_pos(s: Seq<u8>, nstart: int, j: int)
    ensures
        spec_scan_name(s, nstart, j) matches Ok(e) ==> e >= j && e > nstart && e < s.len(),
    decreases s.len() - j,
{
    if j >= s.len() {
    } else if is_token_byte(s[j]) {
        lemma_scan_name_pos(s, nstart, j + 1);
    }
}

/// The position after a closing quote lies after the scan start and within
/// the input length.
pub proof fn lemma_scan_quoted_pos(s: Seq<u8>, j: int)
    ensures
        spec_scan_quoted(s, j) matches Ok(v) ==> v > j && v <= s.len(),
    decreases s.len() - j,
{
    if j >= s.len() {
    } else if s[j] == 34u8 {
    } else if s[j] == 92u8 {
        if j + 1 < s.len() && is_restricted_quoted_byte(s[j + 1]) {
            lemma_scan_quoted_pos(s, j + 2);
        }
    } else if is_restricted_quoted_byte(s[j]) {
        lemma_scan_quoted_pos(s, j + 1);
    }
}

/// The position after the space run lies at or after the scan start and
/// within the input length.
pub proof fn lemma_skip_ws_pos(s: Seq<u8>, j: int)
    requires
        j <= s.len(),
    ensures
        spec_skip_ws(s, j) matches Ok(n) ==> n >= j && n <= s.len(),
    decreases s.len() - j,
{
    if j >= s.len() {
    } else if s[j] == 59u8 {
    } else if s[j] == 32u8 {
        lemma_skip_ws_pos(s, j + 1);
    }
}

/// The positions returned by the unquoted value scan stay within the input
/// and at or after the value start.
pub proof fn lemma_scan_value_unquoted_pos(s: Seq<u8>, vstart: int, j: int)
    requires
        vstart <= j,
        vstart <= s.len(),
    ensures
        spec_scan_value_unquoted(s, vstart, j) matches Ok(p) ==> p.0 >= vstart && p.0 <= s.len()
            && p.1 >= p.0 && p.1 <= s.len(),
    decreases s.len() - j,
{
    if j >= s.len() {
    } else if is_token_byte(s[j]) {
        lemma_scan_value_unquoted_pos(s, vstart, j + 1);
    }
}

/// The positions returned by the value scan stay within the input and at or
/// after the value start.
pub proof fn lemma_scan_value_pos(s: Seq<u8>, vstart: int)
    requires
        vstart <= s.len(),
    ensures
        spec_scan_value(s, vstart) matches Ok(p) ==> p.0 >= vstart && p.0 <= s.len() && p.1
            >= vstart && p.1 <= s.len(),
{
    if vstart < s.len() && s[vstart] == 34u8 {
        lemma_scan_quoted_pos(s, vstart + 1);
        match spec_scan_quoted(s, vstart + 1) {
            Ok(vend) => lemma_skip_ws_pos(s, vend),
            Err(_) => (),
        }
    } else {
        lemma_scan_value_unquoted_pos(s, vstart, vstart);
    }
}

#[via_fn]
proof fn spec_params_loop_dec(s: Seq<u8>, semi: int, acc: ParamsModel, start: int) {
    if start < s.len() {
        let nstart = if s[start] == 32u8 {
            start + 1
        } else {
            start
        };
        lemma_scan_name_pos(s, nstart, nstart);
        match spec_scan_name(s, nstart, nstart) {
            Ok(eqpos) => lemma_scan_value_pos(s, eqpos + 1),
            Err(_) => (),
        }
    }
}

/// Parameter parsing from the `;` at `semi`, followed by assembly of the
/// value: when any parameter is present the backing text is normalized
/// (type, subtype, and parameter names lowercased; a value lowercased only
/// under the name `charset`).
pub open spec fn spec_params(s: Seq<u8>, slash: int, plus: Option<int>, semi: int) -> Result<
    MimeModel,
    ParseError,
> {
    match spec_params_loop(s, semi, ParamsModel::Empty, semi + 1) {
        Err(e) => Err(e),
        Ok(pm) => Ok(MimeModel { source: normalize(s, pm), slash, plus, params: pm }),
    }
}

/// The whole grammar: the exact input `*/*` short-circuits to the canonical
/// wildcard when wildcards are permitted and to the wildcard error when they
/// are not; every other input runs the state machine.
pub open spec fn spec_parse(s: Seq<u8>, can_range: bool) -> Result<MimeModel, ParseError> {
    if s == star_star_seq() {
        if can_range {
            Ok(
                MimeModel {
                    source: star_star_seq(),
                    slash: 1,
                    plus: None,
                    params: ParamsModel::Empty,
                },
            )
        } else {
            Err(ParseError::InvalidRange)
        }
    } else {
        spec_scan_type(s, can_range, 0)
    }
}

} // verus!
