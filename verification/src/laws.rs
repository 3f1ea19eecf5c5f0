//! Crate-wide laws: properties that relate several operations, stated and
//! proved over the grammar specification and the equality model.

use vstd::prelude::*;
use crate::grammar::ci_match;
use crate::grammar::spec_parse;
use crate::grammar::spec_params;
use crate::grammar::spec_push_param;
use crate::grammar::spec_scan_name;
use crate::grammar::spec_scan_quoted;
use crate::grammar::spec_scan_value;
use crate::grammar::spec_scan_value_unquoted;
use crate::grammar::spec_skip_ws;
use crate::grammar::spec_params_loop;
use crate::grammar::spec_scan_subtype;
use crate::grammar::spec_scan_type;
use crate::model::MimeModel;
use crate::model::ParamsModel;
use crate::model::SpanModel;
use crate::model::charset_seq;
use crate::model::lower_byte;
use crate::model::normalize_with;
use crate::model::seq_lower;
use crate::model::utf8_seq;
use crate::model::mime_eq;
use crate::model::normalize;
use crate::model::params_eq;
use crate::model::params_map;
use crate::model::star_star_seq;
use crate::token::is_token_byte;
use crate::types::ParseError;

verus! {

proof fn lemma_scan_subtype_verbatim(
    s: Seq<u8>,
    cr: bool,
    slash: int,
    plus: Option<int>,
    j: int,
    m: MimeModel,
)
    requires
        spec_scan_subtype(s, cr, slash, plus, j) == Ok::<MimeModel, ParseError>(m),
        m.params is Empty,
    ensures
        m.source == s,
    decreases s.len() - j,
{
    if j >= s.len() {
    } else if s[j] == 43u8 && j > slash + 1 {
        lemma_scan_subtype_verbatim(s, cr, slash, Some(j), j + 1, m);
    } else if s[j] == 59u8 && j > slash + 1 {
        lemma_params_verbatim(s, slash, plus, j, m);
    } else if s[j] == 42u8 && j == slash + 1 && cr {
        if j + 1 >= s.len() {
        } else if s[j + 1] == 59u8 {
            lemma_params_verbatim(s, slash, plus, j + 1, m);
        }
    } else if is_token_byte(s[j]) {
        lemma_scan_subtype_verbatim(s, cr, slash, plus, j + 1, m);
    }
}

proof fn lemma_params_verbatim(s: Seq<u8>, slash: int, plus: Option<int>, semi: int, m: MimeModel)
    requires
        spec_params(s, slash, plus, semi) == Ok::<MimeModel, ParseError>(m),
        m.params is Empty,
    ensures
        m.source == s,
{
    match spec_params_loop(s, semi, ParamsModel::Empty, semi + 1) {
        Ok(pm) => {
            assert(m.params == pm);
            assert(normalize(s, ParamsModel::Empty) == s);
        },
        Err(_) => {},
    }
}

proof fn lemma_scan_type_verbatim(s: Seq<u8>, cr: bool, j: int, m: MimeModel)
    requires
        spec_scan_type(s, cr, j) == Ok::<MimeModel, ParseError>(m),
        m.params is Empty,
    ensures
        m.source == s,
    decreases s.len() - j,
{
    if j >= s.len() {
    } else if is_token_byte(s[j]) {
        lemma_scan_type_verbatim(s, cr, j + 1, m);
    } else if s[j] == 47u8 && j > 0 {
        lemma_scan_subtype_verbatim(s, cr, j, None, j + 1, m);
    }
}

/// A successful parse that recorded no parameters stores the input text
/// verbatim, byte for byte: without a parameter section no case
/// normalization takes place, and the type and subtype are exactly the
/// input's substrings around the recorded `/`.
pub proof fn lemma_no_params_text_verbatim(s: Seq<u8>, can_range: bool, m: MimeModel)
    requires
        spec_parse(s, can_range) == Ok::<MimeModel, ParseError>(m),
        m.params is Empty,
    ensures
        m.source == s,
        m.type_seq() == s.subrange(0, m.slash),
        m.subtype_seq() == s.subrange(m.slash + 1, m.subtype_end()),
{
    if s == star_star_seq() {
    } else {
        lemma_scan_type_verbatim(s, can_range, 0, m);
    }
}

/// Media-type equality is commutative.
pub proof fn lemma_eq_commutative(a: MimeModel, b: MimeModel)
    ensures
        mime_eq(a, b) == mime_eq(b, a),
{
}

/// Parameter-set equality is insensitive to parameter order: swapping two
/// adjacent parameters with distinct names leaves the set equal. Together
/// with commutativity this makes any reordering of distinctly named
/// parameters equal as a set.
pub proof fn lemma_params_order_insensitive(
    ps: Seq<(Seq<u8>, Seq<u8>)>,
    p: (Seq<u8>, Seq<u8>),
    q: (Seq<u8>, Seq<u8>),
)
    requires
        p.0 != q.0,
    ensures
        params_eq(ps.push(p).push(q), ps.push(q).push(p)),
{
    assert(ps.push(p).drop_last() =~= ps);
    assert(ps.push(q).drop_last() =~= ps);
    assert(ps.push(p).push(q).drop_last() =~= ps.push(p));
    assert(ps.push(q).push(p).drop_last() =~= ps.push(q));
    assert(params_map(ps.push(p).push(q)) == params_map(ps.push(p)).insert(q.0, q.1));
    assert(params_map(ps.push(q).push(p)) == params_map(ps.push(q)).insert(p.0, p.1));
    assert(params_map(ps.push(p)) == params_map(ps).insert(p.0, p.1));
    assert(params_map(ps.push(q)) == params_map(ps).insert(q.0, q.1));
    assert(params_map(ps).insert(p.0, p.1).insert(q.0, q.1) =~= params_map(ps).insert(
        q.0,
        q.1,
    ).insert(p.0, p.1));
}

/// Pointwise relation between a text and any case-normalized form of it:
/// same length, each byte kept or ASCII-lowercased.
pub open spec fn norm_rel(s: Seq<u8>, s2: Seq<u8>) -> bool {
    &&& s2.len() == s.len()
    &&& forall|k: int|
        0 <= k < s.len() ==> (#[trigger] s2[k]) == s[k] || s2[k] == lower_byte(s[k])
}

/// ASCII lowercasing keeps every byte class the grammar decides on.
proof fn lemma_lower_classes(c: u8)
    ensures
        is_token_byte(lower_byte(c)) == is_token_byte(c),
        crate::token::is_restricted_quoted_byte(lower_byte(c))
            == crate::token::is_restricted_quoted_byte(c),
        lower_byte(lower_byte(c)) == lower_byte(c),
        (lower_byte(c) == 47) == (c == 47),
        (lower_byte(c) == 59) == (c == 59),
        (lower_byte(c) == 43) == (c == 43),
        (lower_byte(c) == 42) == (c == 42),
        (lower_byte(c) == 61) == (c == 61),
        (lower_byte(c) == 34) == (c == 34),
        (lower_byte(c) == 32) == (c == 32),
        (lower_byte(c) == 92) == (c == 92),
{
}

/// Every stored text is a case-normalized form of the input it came from.
proof fn lemma_normalize_rel(s: Seq<u8>, pm: ParamsModel)
    ensures
        norm_rel(s, normalize(s, pm)),
{
    match pm {
        ParamsModel::Empty => {},
        ParamsModel::Utf8 { .. } => {
            assert forall|k: int| 0 <= k < s.len() implies (#[trigger] seq_lower(s)[k]) == s[k]
                || seq_lower(s)[k] == lower_byte(s[k]) by {}
        },
        ParamsModel::Inline { semi, pairs } => {
            assert forall|k: int|
                0 <= k < s.len() implies (#[trigger] normalize_with(s, semi, pairs)[k]) == s[k]
                || normalize_with(s, semi, pairs)[k] == lower_byte(s[k]) by {}
        },
        ParamsModel::Custom { semi, pairs } => {
            assert forall|k: int|
                0 <= k < s.len() implies (#[trigger] normalize_with(s, semi, pairs)[k]) == s[k]
                || normalize_with(s, semi, pairs)[k] == lower_byte(s[k]) by {}
        },
    }
}

/// Case-insensitive span comparisons do not see normalization.
proof fn lemma_ci_match_norm(s: Seq<u8>, s2: Seq<u8>, sp: SpanModel, w: Seq<u8>)
    requires
        norm_rel(s, s2),
        0 <= sp.start <= sp.end <= s.len(),
    ensures
        ci_match(s2, sp, w) == ci_match(s, sp, w),
{
    assert forall|k: int|
        0 <= k < sp.end - sp.start implies seq_lower(s2.subrange(sp.start, sp.end))[k] == seq_lower(
        s.subrange(sp.start, sp.end),
    )[k] by {
        lemma_lower_classes(s[sp.start + k]);
    }
    assert(seq_lower(s2.subrange(sp.start, sp.end)) =~= seq_lower(s.subrange(sp.start, sp.end)));
}

/// The name scan makes the same decisions on a normalized form.
proof fn lemma_scan_name_norm(s: Seq<u8>, s2: Seq<u8>, nstart: int, j: int, e: int)
    requires
        norm_rel(s, s2),
        0 <= j,
        spec_scan_name(s, nstart, j) == Ok::<int, ParseError>(e),
    ensures
        spec_scan_name(s2, nstart, j) == Ok::<int, ParseError>(e),
    decreases s.len() - j,
{
    lemma_lower_classes(s[j]);
    if is_token_byte(s[j]) {
        lemma_scan_name_norm(s, s2, nstart, j + 1, e);
    }
}

/// The quoted-value scan makes the same decisions on a normalized form.
proof fn lemma_scan_quoted_norm(s: Seq<u8>, s2: Seq<u8>, j: int, e: int)
    requires
        norm_rel(s, s2),
        0 <= j,
        spec_scan_quoted(s, j) == Ok::<int, ParseError>(e),
    ensures
        spec_scan_quoted(s2, j) == Ok::<int, ParseError>(e),
    decreases s.len() - j,
{
    if j >= s.len() {
    } else {
        lemma_lower_classes(s[j]);
        if s[j] == 34u8 {
        } else if s[j] == 92u8 {
            if j + 1 < s.len() {
                lemma_lower_classes(s[j + 1]);
                if crate::token::is_restricted_quoted_byte(s[j + 1]) {
                    lemma_scan_quoted_norm(s, s2, j + 2, e);
                }
            }
        } else if crate::token::is_restricted_quoted_byte(s[j]) {
            lemma_scan_quoted_norm(s, s2, j + 1, e);
        }
    }
}

/// The space skip makes the same decisions on a normalized form.
proof fn lemma_skip_ws_norm(s: Seq<u8>, s2: Seq<u8>, j: int, e: int)
    requires
        norm_rel(s, s2),
        0 <= j,
        spec_skip_ws(s, j) == Ok::<int, ParseError>(e),
    ensures
        spec_skip_ws(s2, j) == Ok::<int, ParseError>(e),
    decreases s.len() - j,
{
    if j >= s.len() {
    } else {
        lemma_lower_classes(s[j]);
        if s[j] == 59u8 {
        } else if s[j] == 32u8 {
            lemma_skip_ws_norm(s, s2, j + 1, e);
        }
    }
}

/// The unquoted-value scan makes the same decisions on a normalized form.
proof fn lemma_scan_value_unquoted_norm(s: Seq<u8>, s2: Seq<u8>, vstart: int, j: int, p: (int, int))
    requires
        norm_rel(s, s2),
        0 <= j,
        spec_scan_value_unquoted(s, vstart, j) == Ok::<(int, int), ParseError>(p),
    ensures
        spec_scan_value_unquoted(s2, vstart, j) == Ok::<(int, int), ParseError>(p),
    decreases s.len() - j,
{
    if j >= s.len() {
    } else {
        lemma_lower_classes(s[j]);
        if is_token_byte(s[j]) {
            lemma_scan_value_unquoted_norm(s, s2, vstart, j + 1, p);
        }
    }
}

/// The value scan makes the same decisions on a normalized form.
proof fn lemma_scan_value_norm(s: Seq<u8>, s2: Seq<u8>, vstart: int, p: (int, int))
    requires
        norm_rel(s, s2),
        0 <= vstart,
        spec_scan_value(s, vstart) == Ok::<(int, int), ParseError>(p),
    ensures
        spec_scan_value(s2, vstart) == Ok::<(int, int), ParseError>(p),
{
    if vstart < s.len() {
        lemma_lower_classes(s[vstart]);
    }
    if vstart < s.len() && s[vstart] == 34u8 {
        match spec_scan_quoted(s, vstart + 1) {
            Ok(vend) => {
                lemma_scan_quoted_norm(s, s2, vstart + 1, vend);
                crate::grammar::lemma_scan_quoted_pos(s, vstart + 1);
                match spec_skip_ws(s, vend) {
                    Ok(ns) => {
                        lemma_skip_ws_norm(s, s2, vend, ns);
                    },
                    Err(_) => {},
                }
            },
            Err(_) => {},
        }
    } else {
        lemma_scan_value_unquoted_norm(s, s2, vstart, vstart, p);
    }
}

/// Adding a parameter classifies it identically on a normalized form.
proof fn lemma_push_param_norm(
    s: Seq<u8>,
    s2: Seq<u8>,
    semi: int,
    acc: ParamsModel,
    name: SpanModel,
    value: SpanModel,
)
    requires
        norm_rel(s, s2),
        0 <= name.start <= name.end <= s.len(),
        0 <= value.start <= value.end <= s.len(),
    ensures
        spec_push_param(s2, semi, acc, name, value) == spec_push_param(s, semi, acc, name, value),
{
    lemma_ci_match_norm(s, s2, name, charset_seq());
    lemma_ci_match_norm(s, s2, value, utf8_seq());
}

/// The parameter loop yields the same storage on a normalized form.
proof fn lemma_params_loop_norm(
    s: Seq<u8>,
    s2: Seq<u8>,
    semi: int,
    acc: ParamsModel,
    start: int,
    pm: ParamsModel,
)
    requires
        norm_rel(s, s2),
        0 <= start,
        spec_params_loop(s, semi, acc, start) == Ok::<ParamsModel, ParseError>(pm),
    ensures
        spec_params_loop(s2, semi, acc, start) == Ok::<ParamsModel, ParseError>(pm),
    decreases s.len() - start,
{
    if start >= s.len() {
    } else {
        lemma_lower_classes(s[start]);
        let nstart = if s[start] == 32u8 {
            start + 1
        } else {
            start
        };
        match spec_scan_name(s, nstart, nstart) {
            Ok(eqpos) => {
                lemma_scan_name_norm(s, s2, nstart, nstart, eqpos);
                crate::grammar::lemma_scan_name_pos(s, nstart, nstart);
                match spec_scan_value(s, eqpos + 1) {
                    Ok((vend, ns)) => {
                        lemma_scan_value_norm(s, s2, eqpos + 1, (vend, ns));
                        crate::grammar::lemma_scan_value_pos(s, eqpos + 1);
                        let nm = SpanModel { start: nstart, end: eqpos };
                        let vl = SpanModel { start: eqpos + 1, end: vend };
                        lemma_push_param_norm(s, s2, semi, acc, nm, vl);
                        lemma_params_loop_norm(
                            s,
                            s2,
                            semi,
                            spec_push_param(s, semi, acc, nm, vl),
                            ns,
                            pm,
                        );
                    },
                    Err(_) => {},
                }
            },
            Err(_) => {},
        }
    }
}

/// The subtype scan on a normalized form yields the same offsets and
/// storage, with the normalized form's own text stored.
proof fn lemma_scan_subtype_norm(
    s: Seq<u8>,
    s2: Seq<u8>,
    cr: bool,
    slash: int,
    plus: Option<int>,
    j: int,
    m: MimeModel,
)
    requires
        norm_rel(s, s2),
        0 <= j,
        spec_scan_subtype(s, cr, slash, plus, j) == Ok::<MimeModel, ParseError>(m),
    ensures
        m.source == normalize(s, m.params),
        spec_scan_subtype(s2, cr, slash, plus, j) == Ok::<MimeModel, ParseError>(
            MimeModel {
                source: normalize(s2, m.params),
                slash: m.slash,
                plus: m.plus,
                params: m.params,
            },
        ),
    decreases s.len() - j,
{
    if j >= s.len() {
    } else {
        lemma_lower_classes(s[j]);
        if s[j] == 43u8 && j > slash + 1 {
            lemma_scan_subtype_norm(s, s2, cr, slash, Some(j), j + 1, m);
        } else if s[j] == 59u8 && j > slash + 1 {
            lemma_params_norm(s, s2, slash, plus, j, m);
        } else if s[j] == 42u8 && j == slash + 1 && cr {
            if j + 1 >= s.len() {
            } else {
                lemma_lower_classes(s[j + 1]);
                if s[j + 1] == 59u8 {
                    lemma_params_norm(s, s2, slash, plus, j + 1, m);
                }
            }
        } else if is_token_byte(s[j]) {
            lemma_scan_subtype_norm(s, s2, cr, slash, plus, j + 1, m);
        }
    }
}

/// The parameter phase on a normalized form stores the same layout and the
/// normalized form's own text.
proof fn lemma_params_norm(
    s: Seq<u8>,
    s2: Seq<u8>,
    slash: int,
    plus: Option<int>,
    semi: int,
    m: MimeModel,
)
    requires
        norm_rel(s, s2),
        0 <= semi,
        spec_params(s, slash, plus, semi) == Ok::<MimeModel, ParseError>(m),
    ensures
        m.source == normalize(s, m.params),
        spec_params(s2, slash, plus, semi) == Ok::<MimeModel, ParseError>(
            MimeModel {
                source: normalize(s2, m.params),
                slash: m.slash,
                plus: m.plus,
                params: m.params,
            },
        ),
{
    match spec_params_loop(s, semi, ParamsModel::Empty, semi + 1) {
        Ok(pm) => {
            lemma_params_loop_norm(s, s2, semi, ParamsModel::Empty, semi + 1, pm);
        },
        Err(_) => {},
    }
}

/// The type scan on a normalized form yields the same offsets and storage,
/// with the normalized form's own text stored.
proof fn lemma_scan_type_norm(s: Seq<u8>, s2: Seq<u8>, cr: bool, j: int, m: MimeModel)
    requires
        norm_rel(s, s2),
        0 <= j,
        spec_scan_type(s, cr, j) == Ok::<MimeModel, ParseError>(m),
    ensures
        m.source == normalize(s, m.params),
        spec_scan_type(s2, cr, j) == Ok::<MimeModel, ParseError>(
            MimeModel {
                source: normalize(s2, m.params),
                slash: m.slash,
                plus: m.plus,
                params: m.params,
            },
        ),
    decreases s.len() - j,
{
    if j >= s.len() {
    } else {
        lemma_lower_classes(s[j]);
        if is_token_byte(s[j]) {
            lemma_scan_type_norm(s, s2, cr, j + 1, m);
        } else if s[j] == 47u8 && j > 0 {
            lemma_scan_subtype_norm(s, s2, cr, j, None, j + 1, m);
        }
    }
}

/// A span pair whose two spans lie inside a text of length `len`.
spec fn span_pair_bounded(p: (SpanModel, SpanModel), len: int) -> bool {
    &&& 0 <= p.0.start <= p.0.end <= len
    &&& 0 <= p.1.start <= p.1.end <= len
}

/// Every span pair of the list lies inside a text of length `len`.
spec fn pairs_bounded(pairs: Seq<(SpanModel, SpanModel)>, len: int) -> bool {
    forall|i: int| 0 <= i < pairs.len() ==> span_pair_bounded(#[trigger] pairs[i], len)
}

/// Every span the storage holds lies inside a text of length `len`.
spec fn storage_bounded(pm: ParamsModel, len: int) -> bool {
    match pm {
        ParamsModel::Empty => true,
        ParamsModel::Utf8 { semi } => 0 <= semi && semi + 15 <= len,
        ParamsModel::Inline { pairs, .. } => pairs_bounded(pairs, len),
        ParamsModel::Custom { pairs, .. } => pairs_bounded(pairs, len),
    }
}

/// The parameter loop only ever stores spans inside the text.
proof fn lemma_params_loop_bounded(
    s: Seq<u8>,
    semi: int,
    acc: ParamsModel,
    start: int,
    pm: ParamsModel,
)
    requires
        0 <= semi < start,
        spec_params_loop(s, semi, acc, start) == Ok::<ParamsModel, ParseError>(pm),
        storage_bounded(acc, s.len() as int),
    ensures
        storage_bounded(pm, s.len() as int),
    decreases s.len() - start,
{
    let len = s.len() as int;
    if start >= s.len() {
    } else {
        let nstart = if s[start] == 32u8 {
            start + 1
        } else {
            start
        };
        match spec_scan_name(s, nstart, nstart) {
            Ok(eqpos) => {
                crate::grammar::lemma_scan_name_pos(s, nstart, nstart);
                match spec_scan_value(s, eqpos + 1) {
                    Ok((vend, ns)) => {
                        crate::grammar::lemma_scan_value_pos(s, eqpos + 1);
                        let nm = SpanModel { start: nstart, end: eqpos };
                        let vl = SpanModel { start: eqpos + 1, end: vend };
                        let acc2 = spec_push_param(s, semi, acc, nm, vl);
                        assert(span_pair_bounded((nm, vl), len));
                        assert(storage_bounded(acc2, len)) by {
                            match acc {
                                ParamsModel::Empty => {
                                    if acc2 is Utf8 {
                                        assert(charset_seq().len() == 7);
                                        assert(utf8_seq().len() == 5);
                                        assert(s.subrange(nm.start, nm.end).len() == 7);
                                        assert(s.subrange(vl.start, vl.end).len() == 5);
                                    }
                                },
                                ParamsModel::Utf8 { semi: sm } => {
                                    assert(span_pair_bounded(crate::grammar::utf8_pair(sm), len));
                                },
                                ParamsModel::Inline { pairs, .. } => {
                                    assert(pairs_bounded(pairs.push((nm, vl)), len));
                                },
                                ParamsModel::Custom { pairs, .. } => {
                                    assert(pairs_bounded(pairs.push((nm, vl)), len));
                                },
                            }
                        }
                        lemma_params_loop_bounded(s, semi, acc2, ns, pm);
                    },
                    Err(_) => {},
                }
            },
            Err(_) => {},
        }
    }
}

/// The subtype scan only produces values whose spans lie inside the text,
/// and keeps the text length.
proof fn lemma_scan_subtype_bounded(
    s: Seq<u8>,
    cr: bool,
    slash: int,
    plus: Option<int>,
    j: int,
    m: MimeModel,
)
    requires
        0 <= j,
        spec_scan_subtype(s, cr, slash, plus, j) == Ok::<MimeModel, ParseError>(m),
    ensures
        storage_bounded(m.params, s.len() as int),
        m.source.len() == s.len(),
    decreases s.len() - j,
{
    if j >= s.len() {
    } else if s[j] == 43u8 && j > slash + 1 {
        lemma_scan_subtype_bounded(s, cr, slash, Some(j), j + 1, m);
    } else if s[j] == 59u8 && j > slash + 1 {
        lemma_params_bounded(s, slash, plus, j, m);
    } else if s[j] == 42u8 && j == slash + 1 && cr {
        if j + 1 >= s.len() {
        } else if s[j + 1] == 59u8 {
            lemma_params_bounded(s, slash, plus, j + 1, m);
        }
    } else if is_token_byte(s[j]) {
        lemma_scan_subtype_bounded(s, cr, slash, plus, j + 1, m);
    }
}

/// The parameter phase only produces values whose spans lie inside the
/// text, and keeps the text length.
proof fn lemma_params_bounded(s: Seq<u8>, slash: int, plus: Option<int>, semi: int, m: MimeModel)
    requires
        0 <= semi < s.len(),
        spec_params(s, slash, plus, semi) == Ok::<MimeModel, ParseError>(m),
    ensures
        storage_bounded(m.params, s.len() as int),
        m.source.len() == s.len(),
{
    match spec_params_loop(s, semi, ParamsModel::Empty, semi + 1) {
        Ok(pm) => {
            lemma_params_loop_bounded(s, semi, ParamsModel::Empty, semi + 1, pm);
        },
        Err(_) => {},
    }
}

/// Any successfully parsed value has its spans inside its text, which is as
/// long as the input.
proof fn lemma_scan_type_bounded(s: Seq<u8>, cr: bool, j: int, m: MimeModel)
    requires
        0 <= j,
        spec_scan_type(s, cr, j) == Ok::<MimeModel, ParseError>(m),
    ensures
        storage_bounded(m.params, s.len() as int),
        m.source.len() == s.len(),
    decreases s.len() - j,
{
    if j >= s.len() {
    } else if is_token_byte(s[j]) {
        lemma_scan_type_bounded(s, cr, j + 1, m);
    } else if s[j] == 47u8 && j > 0 {
        lemma_scan_subtype_bounded(s, cr, j, None, j + 1, m);
    }
}

/// Normalizing an already-normalized text changes nothing.
proof fn lemma_normalize_idem(s: Seq<u8>, s2: Seq<u8>, pm: ParamsModel)
    requires
        s2 == normalize(s, pm),
        storage_bounded(pm, s.len() as int),
    ensures
        normalize(s2, pm) == s2,
{
    lemma_normalize_rel(s, pm);
    match pm {
        ParamsModel::Empty => {},
        ParamsModel::Utf8 { .. } => {
            assert forall|k: int| 0 <= k < s2.len() implies seq_lower(s2)[k] == s2[k] by {
                lemma_lower_classes(s[k]);
            }
            assert(seq_lower(s2) =~= s2);
        },
        ParamsModel::Inline { semi, pairs } => {
            lemma_normalize_with_idem(s, s2, semi, pairs);
        },
        ParamsModel::Custom { semi, pairs } => {
            lemma_normalize_with_idem(s, s2, semi, pairs);
        },
    }
}

/// Span-wise normalization of an already-normalized text changes nothing.
proof fn lemma_normalize_with_idem(
    s: Seq<u8>,
    s2: Seq<u8>,
    semi: int,
    pairs: Seq<(SpanModel, SpanModel)>,
)
    requires
        norm_rel(s, s2),
        s2 == normalize_with(s, semi, pairs),
        pairs_bounded(pairs, s.len() as int),
    ensures
        normalize_with(s2, semi, pairs) == s2,
{
    assert forall|k: int| 0 <= k < s2.len() implies normalize_with(s2, semi, pairs)[k] == s2[k] by {
        lemma_lower_classes(s[k]);
        assert(crate::model::norm_lowers(s2, semi, pairs, k) == crate::model::norm_lowers(
            s,
            semi,
            pairs,
            k,
        )) by {
            lemma_charset_spans_norm(s, s2, pairs, k);
        }
    }
    assert(normalize_with(s2, semi, pairs) =~= s2);
}

/// The charset-value test behind normalization agrees on a normalized form.
proof fn lemma_charset_spans_norm(
    s: Seq<u8>,
    s2: Seq<u8>,
    pairs: Seq<(SpanModel, SpanModel)>,
    k: int,
)
    requires
        norm_rel(s, s2),
        pairs_bounded(pairs, s.len() as int),
    ensures
        crate::model::in_charset_value_span(s2, k, pairs) == crate::model::in_charset_value_span(
            s,
            k,
            pairs,
        ),
{
    assert forall|i: int|
        0 <= i < pairs.len() implies seq_lower(
        s2.subrange(pairs[i].0.start, pairs[i].0.end),
    ) == seq_lower(s.subrange(pairs[i].0.start, pairs[i].0.end)) by {
        let a = pairs[i].0.start;
        let b = pairs[i].0.end;
        assert(span_pair_bounded(pairs[i], s.len() as int));
        assert forall|t: int|
            0 <= t < b - a implies seq_lower(s2.subrange(a, b))[t] == seq_lower(
            s.subrange(a, b),
        )[t] by {
            lemma_lower_classes(s[a + t]);
        }
        assert(seq_lower(s2.subrange(a, b)) =~= seq_lower(s.subrange(a, b)));
    }
}

/// Round trip in general: the rendered (stored) text of any successfully
/// parsed value re-parses to the very same value; in particular the two are
/// equal.
pub proof fn lemma_round_trip(s: Seq<u8>, can_range: bool, m: MimeModel)
    requires
        spec_parse(s, can_range) == Ok::<MimeModel, ParseError>(m),
    ensures
        spec_parse(m.source, can_range) == Ok::<MimeModel, ParseError>(m),
        mime_eq(m, m),
{
    assert(mime_eq(m, m)) by {
        assert(params_map(m.params_seq()) =~= params_map(m.params_seq()));
    }
    if s == star_star_seq() {
    } else {
        lemma_scan_type_norm(s, s, can_range, 0, m);
        lemma_scan_type_bounded(s, can_range, 0, m);
        let s2 = m.source;
        assert(s2 == normalize(s, m.params));
        lemma_normalize_rel(s, m.params);
        assert(s2 != star_star_seq()) by {
            if s2 == star_star_seq() {
                assert(s2.len() == 3 && s2[0] == 42 && s2[1] == 47 && s2[2] == 42);
                lemma_lower_classes(s[0]);
                lemma_lower_classes(s[1]);
                lemma_lower_classes(s[2]);
                assert(s =~= star_star_seq());
            }
        }
        lemma_scan_type_norm(s, s2, can_range, 0, m);
        lemma_normalize_idem(s, s2, m.params);
        assert(MimeModel {
            source: normalize(s2, m.params),
            slash: m.slash,
            plus: m.plus,
            params: m.params,
        } =~= m);
    }
}

/// A nonempty storage with the right `;` offset stays that way through the
/// rest of the parameter loop.
proof fn lemma_params_loop_keeps(s: Seq<u8>, semi: int, acc: ParamsModel, start: int, pm: ParamsModel)
    requires
        spec_params_loop(s, semi, acc, start) == Ok::<ParamsModel, ParseError>(pm),
        !(acc is Empty),
        acc.semi_opt() == Some(semi),
    ensures
        !(pm is Empty),
        pm.semi_opt() == Some(semi),
    decreases s.len() - start,
{
    if start >= s.len() {
    } else {
        let nstart = if s[start] == 32u8 {
            start + 1
        } else {
            start
        };
        match spec_scan_name(s, nstart, nstart) {
            Ok(eqpos) => {
                crate::grammar::lemma_scan_name_pos(s, nstart, nstart);
                match spec_scan_value(s, eqpos + 1) {
                    Ok((vend, ns)) => {
                        crate::grammar::lemma_scan_value_pos(s, eqpos + 1);
                        let nm = SpanModel { start: nstart, end: eqpos };
                        let vl = SpanModel { start: eqpos + 1, end: vend };
                        lemma_params_loop_keeps(
                            s,
                            semi,
                            spec_push_param(s, semi, acc, nm, vl),
                            ns,
                            pm,
                        );
                    },
                    Err(_) => {},
                }
            },
            Err(_) => {},
        }
    }
}

/// Starting from empty storage, the loop stays empty only when the input is
/// already exhausted; otherwise the result records the `;` offset.
proof fn lemma_params_loop_start(s: Seq<u8>, semi: int, start: int, pm: ParamsModel)
    requires
        spec_params_loop(s, semi, ParamsModel::Empty, start) == Ok::<ParamsModel, ParseError>(pm),
    ensures
        pm is Empty ==> start >= s.len(),
        !(pm is Empty) ==> pm.semi_opt() == Some(semi),
{
    if start >= s.len() {
    } else {
        let nstart = if s[start] == 32u8 {
            start + 1
        } else {
            start
        };
        match spec_scan_name(s, nstart, nstart) {
            Ok(eqpos) => {
                crate::grammar::lemma_scan_name_pos(s, nstart, nstart);
                match spec_scan_value(s, eqpos + 1) {
                    Ok((vend, ns)) => {
                        crate::grammar::lemma_scan_value_pos(s, eqpos + 1);
                        let nm = SpanModel { start: nstart, end: eqpos };
                        let vl = SpanModel { start: eqpos + 1, end: vend };
                        let acc2 = spec_push_param(s, semi, ParamsModel::Empty, nm, vl);
                        assert(!(acc2 is Empty) && acc2.semi_opt() == Some(semi));
                        lemma_params_loop_keeps(s, semi, acc2, ns, pm);
                    },
                    Err(_) => {},
                }
            },
            Err(_) => {},
        }
    }
}

/// Subtype-scan induction behind the wildcard-placement law: with only
/// token bytes seen so far, any `*` that the accepted region can hold is
/// the lone wildcard.
proof fn lemma_wildcard_scan(
    s: Seq<u8>,
    cr: bool,
    slash: int,
    plus: Option<int>,
    j: int,
    m: MimeModel,
)
    requires
        spec_scan_subtype(s, cr, slash, plus, j) == Ok::<MimeModel, ParseError>(m),
        0 <= slash,
        slash + 1 <= j,
        forall|k: int| slash < k < j ==> is_token_byte(#[trigger] s[k]),
    ensures
        m.slash == slash,
        m.semi_or_len() <= s.len(),
        forall|k: int|
            slash < k < m.semi_or_len() && (#[trigger] s[k]) == 42 ==> k == slash + 1 && (k + 1
                == s.len() || s[k + 1] == 59),
    decreases s.len() - j,
{
    if j >= s.len() {
    } else if s[j] == 43u8 && j > slash + 1 {
        lemma_wildcard_scan(s, cr, slash, Some(j), j + 1, m);
    } else if s[j] == 59u8 && j > slash + 1 {
        lemma_wildcard_params(s, slash, plus, j, m);
    } else if s[j] == 42u8 && j == slash + 1 && cr {
        if j + 1 >= s.len() {
        } else if s[j + 1] == 59u8 {
            lemma_wildcard_params(s, slash, plus, j + 1, m);
        }
    } else if is_token_byte(s[j]) {
        lemma_wildcard_scan(s, cr, slash, plus, j + 1, m);
    }
}

/// Parameter-phase part of the wildcard-placement induction: the accepted
/// region ends at the `;`, or one byte later when the section is empty.
proof fn lemma_wildcard_params(s: Seq<u8>, slash: int, plus: Option<int>, semi: int, m: MimeModel)
    requires
        spec_params(s, slash, plus, semi) == Ok::<MimeModel, ParseError>(m),
        0 <= semi < s.len(),
    ensures
        m.slash == slash,
        m.params is Empty ==> m.semi_or_len() == s.len() && semi + 1 >= s.len(),
        !(m.params is Empty) ==> m.semi_or_len() == semi,
{
    match spec_params_loop(s, semi, ParamsModel::Empty, semi + 1) {
        Ok(pm) => {
            lemma_params_loop_start(s, semi, semi + 1, pm);
            assert(m.source.len() == s.len()) by {
                lemma_normalize_rel(s, pm);
            }
        },
        Err(_) => {},
    }
}

/// A subtype wildcard is accepted only as the entire subtype and only
/// immediately before the parameter section or the end of the input: in any
/// successfully parsed value, a `*` in the subtype region of the input
/// stands alone right after the `/`.
pub proof fn lemma_wildcard_placement(s: Seq<u8>, can_range: bool, m: MimeModel)
    requires
        spec_parse(s, can_range) == Ok::<MimeModel, ParseError>(m),
    ensures
        forall|k: int|
            m.slash < k < m.semi_or_len() && (#[trigger] s[k]) == 42 ==> k == m.slash + 1 && (k + 1
                == s.len() || s[k + 1] == 59),
{
    if s == star_star_seq() {
    } else {
        lemma_wildcard_type_scan(s, can_range, 0, m);
    }
}

/// Type-scan part of the wildcard-placement induction.
proof fn lemma_wildcard_type_scan(s: Seq<u8>, cr: bool, j: int, m: MimeModel)
    requires
        spec_scan_type(s, cr, j) == Ok::<MimeModel, ParseError>(m),
        0 <= j,
    ensures
        m.semi_or_len() <= s.len(),
        forall|k: int|
            m.slash < k < m.semi_or_len() && (#[trigger] s[k]) == 42 ==> k == m.slash + 1 && (k + 1
                == s.len() || s[k + 1] == 59),
    decreases s.len() - j,
{
    if j >= s.len() {
    } else if is_token_byte(s[j]) {
        lemma_wildcard_type_scan(s, cr, j + 1, m);
    } else if s[j] == 47u8 && j > 0 {
        lemma_wildcard_scan(s, cr, j, None, j + 1, m);
    }
}

/// The exact input `*/*` parses successfully only when wildcards are
/// permitted; otherwise it fails with the wildcard error.
pub proof fn lemma_star_star_gated()
    ensures
        spec_parse(star_star_seq(), true) is Ok,
        spec_parse(star_star_seq(), false) == Err::<MimeModel, ParseError>(
            ParseError::InvalidRange,
        ),
{
}

} // verus!
