//! Ghost-level model of a parsed media type.
//!
//! A `MimeModel` is the mathematical shadow of an executable `Mime`: the
//! backing text as a byte sequence, the offset of the `/`, the optional
//! offset of the last `+` of the subtype, and the parameter layout. All
//! contracts of the crate speak in terms of this model.

use vstd::prelude::*;

verus! {

/// A half-open byte-offset range, the ghost form of `Indexed`.
pub struct SpanModel {
    pub start: int,
    pub end: int,
}

/// Ghost form of the parameter storage.
///
/// `Inline` stands for the one-to-three-parameter storage, `Custom` for the
/// dynamic list used from the fourth parameter on; `Utf8` records only the
/// `;` offset of the single parameter `charset=utf-8`.
#[verifier::ext_equal]
pub enum ParamsModel {
    Empty,
    Utf8 { semi: int },
    Inline { semi: int, pairs: Seq<(SpanModel, SpanModel)> },
    Custom { semi: int, pairs: Seq<(SpanModel, SpanModel)> },
}

/// Ghost form of a parsed media type.
#[verifier::ext_equal]
pub struct MimeModel {
    pub source: Seq<u8>,
    pub slash: int,
    pub plus: Option<int>,
    pub params: ParamsModel,
}

/// ASCII lowercasing of one byte.
pub open spec fn lower_byte(c: u8) -> u8 {
    if 65 <= c && c <= 90 {
        (c + 32) as u8
    } else {
        c
    }
}

/// Pointwise ASCII lowercasing of a byte sequence.
pub open spec fn seq_lower(s: Seq<u8>) -> Seq<u8> {
    s.map_values(|c: u8| lower_byte(c))
}

/// The bytes of `charset`.
pub open spec fn charset_seq() -> Seq<u8> {
    seq![99u8, 104u8, 97u8, 114u8, 115u8, 101u8, 116u8]
}

/// The bytes of `utf-8`.
pub open spec fn utf8_seq() -> Seq<u8> {
    seq![117u8, 116u8, 102u8, 45u8, 56u8]
}

/// The bytes of `*/*`.
pub open spec fn star_star_seq() -> Seq<u8> {
    seq![42u8, 47u8, 42u8]
}

impl ParamsModel {
    /// The `;` offset introducing the parameter section, if any.
    pub open spec fn semi_opt(self) -> Option<int> {
        match self {
            ParamsModel::Empty => None,
            ParamsModel::Utf8 { semi } => Some(semi),
            ParamsModel::Inline { semi, .. } => Some(semi),
            ParamsModel::Custom { semi, .. } => Some(semi),
        }
    }

    /// The stored span pairs; the shorthand variant has its fixed spans.
    pub open spec fn span_pairs(self) -> Seq<(SpanModel, SpanModel)> {
        match self {
            ParamsModel::Empty => Seq::empty(),
            ParamsModel::Utf8 { semi } => seq![
                (
                    SpanModel { start: semi + 2, end: semi + 9 },
                    SpanModel { start: semi + 10, end: semi + 15 },
                ),
            ],
            ParamsModel::Inline { pairs, .. } => pairs,
            ParamsModel::Custom { pairs, .. } => pairs,
        }
    }
}

impl MimeModel {
    /// End of the parameter-free part of the text: the `;` offset if there
    /// are parameters, else the whole length.
    pub open spec fn semi_or_len(self) -> int {
        match self.params.semi_opt() {
            Some(i) => i,
            None => self.source.len() as int,
        }
    }

    /// End of the subtype as the accessors see it: the last `+` if one was
    /// recorded, else the `;`, else the end of the text.
    pub open spec fn subtype_end(self) -> int {
        match self.plus {
            Some(p) => p,
            None => self.semi_or_len(),
        }
    }

    /// The top-level type: the bytes before the `/`.
    pub open spec fn type_seq(self) -> Seq<u8> {
        self.source.subrange(0, self.slash)
    }

    /// The subtype: the bytes between the `/` and the suffix or parameters.
    pub open spec fn subtype_seq(self) -> Seq<u8> {
        self.source.subrange(self.slash + 1, self.subtype_end())
    }

    /// The structured-syntax suffix after the last `+`, if one was recorded.
    pub open spec fn suffix_seq(self) -> Option<Seq<u8>> {
        match self.plus {
            Some(p) => Some(self.source.subrange(p + 1, self.semi_or_len())),
            None => None,
        }
    }

    /// The parameter pairs as (name, value) byte sequences, in parse order.
    /// The shorthand variant yields its definitional single pair.
    pub open spec fn params_seq(self) -> Seq<(Seq<u8>, Seq<u8>)> {
        match self.params {
            ParamsModel::Utf8 { .. } => seq![(charset_seq(), utf8_seq())],
            _ => self.params.span_pairs().map_values(
                |p: (SpanModel, SpanModel)|
                    (
                        self.source.subrange(p.0.start, p.0.end),
                        self.source.subrange(p.1.start, p.1.end),
                    ),
            ),
        }
    }
}

/// Whether offset `k` falls inside the name span of some pair.
pub open spec fn in_name_span(k: int, pairs: Seq<(SpanModel, SpanModel)>) -> bool {
    exists|i: int|
        0 <= i < pairs.len() && (#[trigger] pairs[i]).0.start <= k < pairs[i].0.end
}

/// Whether offset `k` falls inside the value span of some pair whose name
/// lowercases to `charset`.
pub open spec fn in_charset_value_span(
    s: Seq<u8>,
    k: int,
    pairs: Seq<(SpanModel, SpanModel)>,
) -> bool {
    exists|i: int|
        0 <= i < pairs.len() && (#[trigger] pairs[i]).1.start <= k < pairs[i].1.end && seq_lower(
            s.subrange(pairs[i].0.start, pairs[i].0.end),
        ) == charset_seq()
}

/// Whether normalization lowercases the byte at offset `k`: everything
/// before the `;`, every parameter name, and a value only under the name
/// `charset`.
pub open spec fn norm_lowers(
    s: Seq<u8>,
    semi: int,
    pairs: Seq<(SpanModel, SpanModel)>,
    k: int,
) -> bool {
    k < semi || in_name_span(k, pairs) || in_charset_value_span(s, k, pairs)
}

/// Case normalization of a parameter-bearing text over explicit spans.
pub open spec fn normalize_with(
    s: Seq<u8>,
    semi: int,
    pairs: Seq<(SpanModel, SpanModel)>,
) -> Seq<u8> {
    Seq::new(
        s.len(),
        |k: int|
            if norm_lowers(s, semi, pairs, k) {
                lower_byte(s[k])
            } else {
                s[k]
            },
    )
}

/// The backing text as stored: untouched without parameters, wholly
/// lowercased for the `charset=utf-8` shorthand, and span-wise lowercased
/// otherwise.
pub open spec fn normalize(s: Seq<u8>, pm: ParamsModel) -> Seq<u8> {
    match pm {
        ParamsModel::Empty => s,
        ParamsModel::Utf8 { .. } => seq_lower(s),
        ParamsModel::Inline { semi, pairs } => normalize_with(s, semi, pairs),
        ParamsModel::Custom { semi, pairs } => normalize_with(s, semi, pairs),
    }
}

/// Lowercasing commutes with taking a subrange.
pub proof fn lemma_seq_lower_subrange(s: Seq<u8>, a: int, b: int)
    requires
        0 <= a <= b <= s.len(),
    ensures
        seq_lower(s).subrange(a, b) == seq_lower(s.subrange(a, b)),
{
    assert(seq_lower(s).subrange(a, b) =~= seq_lower(s.subrange(a, b)));
}

/// Bounds every accessor of a `Mime` relies on: the `/` is a proper interior
/// offset, the recorded `+` and `;` offsets lie inside the text in the right
/// order, and every stored span is in range.
pub open spec fn wf_bounds(m: MimeModel) -> bool {
    let len = m.source.len() as int;
    &&& 0 < m.slash < len
    &&& m.source[m.slash] == 47u8
    &&& match m.params.semi_opt() {
        Some(semi) => m.slash + 1 < semi < len && m.source[semi] == 59u8,
        None => true,
    }
    &&& match m.plus {
        Some(p) => m.slash + 1 < p < m.semi_or_len() && m.source[p] == 43u8,
        None => true,
    }
    &&& params_storage_wf(m.params, len)
    &&& match m.params {
        ParamsModel::Utf8 { semi } => {
            &&& m.source.subrange(semi + 2, semi + 9) == charset_seq()
            &&& m.source.subrange(semi + 10, semi + 15) == utf8_seq()
        },
        _ => true,
    }
}

/// Shape of the parameter storage: the shorthand's fixed spans fit, the
/// inline variant holds one to three pairs, the dynamic variant at least
/// four, and every span pair is well placed.
pub open spec fn params_storage_wf(pm: ParamsModel, len: int) -> bool {
    match pm {
        ParamsModel::Empty => true,
        ParamsModel::Utf8 { semi } => semi + 15 <= len,
        ParamsModel::Inline { semi, pairs } => {
            &&& 1 <= pairs.len() <= 3
            &&& forall|i: int|
                0 <= i < pairs.len() ==> #[trigger] pair_wf(pairs[i], semi, len)
        },
        ParamsModel::Custom { semi, pairs } => {
            &&& pairs.len() >= 4
            &&& forall|i: int|
                0 <= i < pairs.len() ==> #[trigger] pair_wf(pairs[i], semi, len)
        },
    }
}

/// A stored (name, value) span pair sits after the `;` and inside the text,
/// with the `=` separating name and value.
pub open spec fn pair_wf(p: (SpanModel, SpanModel), semi: int, len: int) -> bool {
    &&& semi < p.0.start < p.0.end
    &&& p.1.start == p.0.end + 1
    &&& p.1.start <= p.1.end <= len
}

/// Equality of two parameter names or values after ASCII lowercasing.
pub open spec fn ci_eq(a: Seq<u8>, b: Seq<u8>) -> bool {
    seq_lower(a) == seq_lower(b)
}

/// The parameter pairs read as a name-to-value map; a later occurrence of a
/// name overrides an earlier one.
pub open spec fn params_map(ps: Seq<(Seq<u8>, Seq<u8>)>) -> Map<Seq<u8>, Seq<u8>>
    decreases ps.len(),
{
    if ps.len() == 0 {
        Map::empty()
    } else {
        params_map(ps.drop_last()).insert(ps.last().0, ps.last().1)
    }
}

/// Order-independent equality of two parameter lists: equal as name-to-value
/// maps.
pub open spec fn params_eq(a: Seq<(Seq<u8>, Seq<u8>)>, b: Seq<(Seq<u8>, Seq<u8>)>) -> bool {
    params_map(a) =~= params_map(b)
}

/// A nonempty parameter list's map holds its last name.
pub proof fn lemma_params_map_nonempty(ps: Seq<(Seq<u8>, Seq<u8>)>)
    requires
        ps.len() > 0,
    ensures
        params_map(ps).dom().contains(ps.last().0),
{
}

/// The map of a parameter list holds the name of any of its pairs.
pub proof fn lemma_params_map_contains(ps: Seq<(Seq<u8>, Seq<u8>)>, j: int)
    requires
        0 <= j < ps.len(),
    ensures
        params_map(ps).dom().contains(ps[j].0),
    decreases ps.len(),
{
    if j < ps.len() - 1 {
        assert(ps.drop_last()[j] == ps[j]);
        lemma_params_map_contains(ps.drop_last(), j);
    }
}

/// The map of a parameter list gives a name the value of its last
/// occurrence.
pub proof fn lemma_params_map_get(ps: Seq<(Seq<u8>, Seq<u8>)>, n: Seq<u8>, j: int)
    requires
        0 <= j < ps.len(),
        ps[j].0 == n,
        forall|t: int| j < t < ps.len() ==> (#[trigger] ps[t]).0 != n,
    ensures
        params_map(ps).dom().contains(n),
        params_map(ps)[n] == ps[j].1,
    decreases ps.len(),
{
    if j == ps.len() - 1 {
    } else {
        assert(ps.drop_last()[j] == ps[j]);
        assert(forall|t: int|
            j < t < ps.drop_last().len() ==> (#[trigger] ps.drop_last()[t]).0 != n);
        lemma_params_map_get(ps.drop_last(), n, j);
        assert(ps.last().0 != n);
    }
}

/// A name that occurs in no pair is absent from the map.
pub proof fn lemma_params_map_absent(ps: Seq<(Seq<u8>, Seq<u8>)>, n: Seq<u8>)
    requires
        forall|t: int| 0 <= t < ps.len() ==> (#[trigger] ps[t]).0 != n,
    ensures
        !params_map(ps).dom().contains(n),
    decreases ps.len(),
{
    if ps.len() > 0 {
        assert(forall|t: int|
            0 <= t < ps.drop_last().len() ==> (#[trigger] ps.drop_last()[t]).0 != n);
        lemma_params_map_absent(ps.drop_last(), n);
    }
}

/// Every name in the map belongs to some pair of the list.
pub proof fn lemma_params_map_dom(ps: Seq<(Seq<u8>, Seq<u8>)>, n: Seq<u8>)
    requires
        params_map(ps).dom().contains(n),
    ensures
        exists|i: int| 0 <= i < ps.len() && (#[trigger] ps[i]).0 == n,
{
    if forall|t: int| 0 <= t < ps.len() ==> (#[trigger] ps[t]).0 != n {
        lemma_params_map_absent(ps, n);
    }
}

/// Parameter-set equality is symmetric.
pub proof fn lemma_params_eq_symmetric(a: Seq<(Seq<u8>, Seq<u8>)>, b: Seq<(Seq<u8>, Seq<u8>)>)
    ensures
        params_eq(a, b) == params_eq(b, a),
{
}

/// Equality of two media types: type, subtype, and suffix compared after
/// ASCII lowercasing, and the parameter sets compared as unordered
/// name-to-value maps.
pub open spec fn mime_eq(a: MimeModel, b: MimeModel) -> bool {
    &&& ci_eq(a.type_seq(), b.type_seq())
    &&& ci_eq(a.subtype_seq(), b.subtype_seq())
    &&& match (a.suffix_seq(), b.suffix_seq()) {
        (None, None) => true,
        (Some(x), Some(y)) => ci_eq(x, y),
        _ => false,
    }
    &&& params_eq(a.params_seq(), b.params_seq())
}

} // verus!
