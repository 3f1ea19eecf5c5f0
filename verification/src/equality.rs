//! Equality and ordering of media types.
//!
//! Equality compares type, subtype, and suffix after ASCII lowercasing and
//! the parameter sets as unordered name-to-value maps; the storage tags
//! settle the common cases without materializing the sets. Ordering is a
//! different relation on purpose: plain byte-wise comparison of the stored
//! textual form.

use vstd::prelude::*;
use vstd::slice::slice_to_vec;
use crate::grammar::spec_parse;
use crate::model::ci_eq;
use crate::model::lemma_params_map_absent;
use crate::model::lemma_params_map_contains;
use crate::model::lemma_params_map_dom;
use crate::model::lemma_params_map_get;
use crate::model::lower_byte;
use crate::model::mime_eq;
use crate::model::params_eq;
use crate::model::params_map;
use crate::model::seq_lower;
use crate::params::FastEqRes;
use crate::params::Params;
use crate::parse::parse;
use crate::types::CanRange;
use crate::types::Mime;

verus! {

/// Exact byte equality of two slices.
fn eq_bytes(a: &[u8], b: &[u8]) -> (r: bool)
    ensures
        r == (a@ == b@),
{
    if a.len() != b.len() {
        return false;
    }
    let mut i: usize = 0;
    while i < a.len()
        invariant
            i <= a@.len(),
            a@.len() == b@.len(),
            forall|t: int| 0 <= t < i ==> a@[t] == b@[t],
        decreases a@.len() - i,
    {
        if a[i] != b[i] {
            return false;
        }
        i += 1;
    }
    proof {
        assert(a@ =~= b@);
    }
    true
}

/// ASCII-case-insensitive equality of two byte slices.
fn eq_ascii_ci(a: &[u8], b: &[u8]) -> (r: bool)
    ensures
        r == ci_eq(a@, b@),
{
    if a.len() != b.len() {
        proof {
            assert(seq_lower(a@).len() == a@.len());
            assert(seq_lower(b@).len() == b@.len());
        }
        return false;
    }
    let mut i: usize = 0;
    while i < a.len()
        invariant
            i <= a@.len(),
            a@.len() == b@.len(),
            forall|t: int| 0 <= t < i ==> lower_byte(a@[t]) == lower_byte(b@[t]),
        decreases a@.len() - i,
    {
        let ca = a[i];
        let cb = b[i];
        let la = if 65 <= ca && ca <= 90 {
            ca + 32
        } else {
            ca
        };
        let lb = if 65 <= cb && cb <= 90 {
            cb + 32
        } else {
            cb
        };
        if la != lb {
            proof {
                assert(seq_lower(a@)[i as int] == lower_byte(a@[i as int]));
                assert(seq_lower(b@)[i as int] == lower_byte(b@[i as int]));
            }
            return false;
        }
        i += 1;
    }
    proof {
        assert(seq_lower(a@) =~= seq_lower(b@));
    }
    true
}

/// The ghost form of a materialized parameter list.
spec fn pview(ps: Seq<(Vec<u8>, Vec<u8>)>) -> Seq<(Seq<u8>, Seq<u8>)> {
    ps.map_values(|q: (Vec<u8>, Vec<u8>)| (q.0@, q.1@))
}

/// Materializes the remaining pairs of an iterator into owned byte pairs.
fn collect_params(p: Params<'_>) -> (r: Vec<(Vec<u8>, Vec<u8>)>)
    requires
        p.wf(),
    ensures
        pview(r@) == p@,
{
    let mut it = p;
    let mut out: Vec<(Vec<u8>, Vec<u8>)> = Vec::new();
    loop
        invariant
            it.wf(),
            pview(out@) + it@ == p@,
        decreases it@.len(),
    {
        let ghost out0 = out@;
        let ghost it0 = it@;
        match it.next() {
            None => {
                proof {
                    assert(pview(out@) =~= pview(out@) + it@);
                }
                return out;
            },
            Some((n, v)) => {
                out.push((slice_to_vec(n), slice_to_vec(v)));
                proof {
                    assert(pview(out@) =~= pview(out0).push((n@, v@)));
                    assert(pview(out@) + it@ =~= pview(out0) + it0);
                }
            },
        }
    }
}

/// The index of the last pair bearing `name`, which is the pair the
/// name-to-value map reads.
fn lookup_last(ps: &Vec<(Vec<u8>, Vec<u8>)>, name: &[u8]) -> (r: Option<usize>)
    ensures
        match r {
            Some(j) => {
                &&& j < ps@.len()
                &&& ps@[j as int].0@ == name@
                &&& params_map(pview(ps@)).dom().contains(name@)
                &&& params_map(pview(ps@))[name@] == ps@[j as int].1@
            },
            None => !params_map(pview(ps@)).dom().contains(name@),
        },
{
    let mut i = ps.len();
    while i > 0
        invariant
            i <= ps@.len(),
            forall|t: int| i <= t < ps@.len() ==> (#[trigger] pview(ps@)[t]).0 != name@,
        decreases i,
    {
        i -= 1;
        let pr = &ps[i];
        if eq_bytes(pr.0.as_slice(), name) {
            proof {
                assert(pview(ps@)[i as int].0 == name@);
                lemma_params_map_get(pview(ps@), name@, i as int);
            }
            return Some(i);
        }
        proof {
            assert(pview(ps@)[i as int].0 != name@);
        }
    }
    proof {
        lemma_params_map_absent(pview(ps@), name@);
    }
    None
}

/// Every name of `x` is in `y`'s map with the same (last) value as in
/// `x`'s own map.
spec fn spec_covered(x: Seq<(Seq<u8>, Seq<u8>)>, y: Seq<(Seq<u8>, Seq<u8>)>) -> bool {
    forall|i: int|
        0 <= i < x.len() ==> params_map(y).dom().contains((#[trigger] x[i]).0) && params_map(y)[
            x[i].0
        ] == params_map(x)[x[i].0]
}

/// Decides `spec_covered` by looking each name up in both lists.
fn map_covered(a: &Vec<(Vec<u8>, Vec<u8>)>, b: &Vec<(Vec<u8>, Vec<u8>)>) -> (r: bool)
    ensures
        r == spec_covered(pview(a@), pview(b@)),
{
    let mut i: usize = 0;
    while i < a.len()
        invariant
            i <= a@.len(),
            forall|t: int|
                0 <= t < i ==> params_map(pview(b@)).dom().contains(
                    (#[trigger] pview(a@)[t]).0,
                ) && params_map(pview(b@))[pview(a@)[t].0] == params_map(pview(a@))[pview(
                    a@,
                )[t].0],
        decreases a@.len() - i,
    {
        let name = &a[i].0;
        let j = match lookup_last(b, name.as_slice()) {
            Some(j) => j,
            None => {
                proof {
                    assert(pview(a@)[i as int].0 == name@);
                }
                return false;
            },
        };
        let k = match lookup_last(a, name.as_slice()) {
            Some(k) => k,
            None => {
                proof {
                    assert(pview(a@)[i as int].0 == name@);
                    lemma_params_map_contains(pview(a@), i as int);
                }
                // the name is its own entry, so the lookup cannot miss
                return false;
            },
        };
        let bv = &b[j].1;
        let av = &a[k].1;
        if !eq_bytes(bv.as_slice(), av.as_slice()) {
            proof {
                assert(pview(a@)[i as int].0 == name@);
            }
            return false;
        }
        proof {
            assert(pview(a@)[i as int].0 == name@);
        }
        i += 1;
    }
    true
}

/// Two parameter lists have equal maps exactly when each covers the other.
proof fn lemma_covered_iff(x: Seq<(Seq<u8>, Seq<u8>)>, y: Seq<(Seq<u8>, Seq<u8>)>)
    ensures
        params_eq(x, y) == (spec_covered(x, y) && spec_covered(y, x)),
{
    if spec_covered(x, y) && spec_covered(y, x) {
        assert(params_map(x) =~= params_map(y)) by {
            assert forall|n: Seq<u8>| #[trigger]
                params_map(x).dom().contains(n) implies params_map(y).dom().contains(n)
                && params_map(y)[n] == params_map(x)[n] by {
                lemma_params_map_dom(x, n);
                let i = choose|i: int| 0 <= i < x.len() && (#[trigger] x[i]).0 == n;
                assert(params_map(y).dom().contains(x[i].0));
            }
            assert forall|n: Seq<u8>| #[trigger]
                params_map(y).dom().contains(n) implies params_map(x).dom().contains(n) by {
                lemma_params_map_dom(y, n);
                let i = choose|i: int| 0 <= i < y.len() && (#[trigger] y[i]).0 == n;
                assert(params_map(x).dom().contains(y[i].0));
            }
        }
    }
    if params_eq(x, y) {
        assert forall|i: int| 0 <= i < x.len() implies params_map(y).dom().contains(
            (#[trigger] x[i]).0,
        ) && params_map(y)[x[i].0] == params_map(x)[x[i].0] by {
            lemma_params_map_contains(x, i);
        }
        assert forall|i: int| 0 <= i < y.len() implies params_map(x).dom().contains(
            (#[trigger] y[i]).0,
        ) && params_map(x)[y[i].0] == params_map(y)[y[i].0] by {
            lemma_params_map_contains(y, i);
        }
    }
}

/// Strict lexicographic byte order on sequences.
pub open spec fn lex_lt(a: Seq<u8>, b: Seq<u8>) -> bool
    decreases a.len(),
{
    if b.len() == 0 {
        false
    } else if a.len() == 0 {
        true
    } else if a[0] < b[0] {
        true
    } else if a[0] > b[0] {
        false
    } else {
        lex_lt(a.drop_first(), b.drop_first())
    }
}

/// With an equal prefix of length `i`, lexicographic order is decided by
/// the remainders.
proof fn lemma_lex_skip(a: Seq<u8>, b: Seq<u8>, i: int)
    requires
        0 <= i <= a.len(),
        i <= b.len(),
        forall|t: int| 0 <= t < i ==> a[t] == b[t],
    ensures
        lex_lt(a, b) == lex_lt(a.skip(i), b.skip(i)),
    decreases i,
{
    if i > 0 {
        assert(a[0] == b[0]);
        assert(forall|t: int| 0 <= t < i - 1 ==> a.drop_first()[t] == b.drop_first()[t]);
        lemma_lex_skip(a.drop_first(), b.drop_first(), i - 1);
        assert(a.drop_first().skip(i - 1) =~= a.skip(i));
        assert(b.drop_first().skip(i - 1) =~= b.skip(i));
    } else {
        assert(a.skip(0) =~= a);
        assert(b.skip(0) =~= b);
    }
}

/// Exactly one of `a < b`, `a == b`, `b < a` holds.
proof fn lemma_lex_trichotomy(a: Seq<u8>, b: Seq<u8>)
    ensures
        lex_lt(a, b) ==> !lex_lt(b, a) && a != b,
        !lex_lt(a, b) && !lex_lt(b, a) ==> a == b,
    decreases a.len(),
{
    if a.len() > 0 && b.len() > 0 && a[0] == b[0] {
        lemma_lex_trichotomy(a.drop_first(), b.drop_first());
        if !lex_lt(a, b) && !lex_lt(b, a) {
            assert(a.drop_first() == b.drop_first());
            assert forall|t: int| 0 <= t < a.len() implies a[t] == b[t] by {
                if t > 0 {
                    assert(a[t] == a.drop_first()[t - 1]);
                    assert(b[t] == b.drop_first()[t - 1]);
                }
            }
            assert(a =~= b);
        }
    } else if a.len() == 0 && b.len() == 0 {
        assert(a =~= b);
    }
}

impl Mime {
    /// Byte-wise lexicographic comparison of the stored textual forms.
    /// This is deliberately a different relation from equality: two values
    /// with set-equal but differently ordered parameters are equal yet
    /// compare unequal here.
    pub fn cmp_text(&self, other: &Mime) -> (r: core::cmp::Ordering)
        ensures
            (r == core::cmp::Ordering::Less) == lex_lt(self@.source, other@.source),
            (r == core::cmp::Ordering::Equal) == (self@.source == other@.source),
            (r == core::cmp::Ordering::Greater) == lex_lt(other@.source, self@.source),
    {
        let a = self.source.as_bytes();
        let b = other.source.as_bytes();
        let mut i: usize = 0;
        while i < a.len() && i < b.len()
            invariant
                i <= a@.len(),
                i <= b@.len(),
                a@ == self@.source,
                b@ == other@.source,
                forall|t: int| 0 <= t < i ==> a@[t] == b@[t],
            decreases a@.len() - i,
        {
            if a[i] < b[i] {
                proof {
                    lemma_lex_skip(a@, b@, i as int);
                    assert(a@.skip(i as int)[0] == a@[i as int]);
                    assert(b@.skip(i as int)[0] == b@[i as int]);
                    assert(lex_lt(a@, b@));
                    lemma_lex_trichotomy(a@, b@);
                }
                return core::cmp::Ordering::Less;
            }
            if a[i] > b[i] {
                proof {
                    lemma_lex_skip(b@, a@, i as int);
                    assert(b@.skip(i as int)[0] == b@[i as int]);
                    assert(a@.skip(i as int)[0] == a@[i as int]);
                    assert(lex_lt(b@, a@));
                    lemma_lex_trichotomy(a@, b@);
                    lemma_lex_trichotomy(b@, a@);
                }
                return core::cmp::Ordering::Greater;
            }
            i += 1;
        }
        if a.len() == b.len() {
            proof {
                assert(a@ =~= b@);
                lemma_lex_trichotomy(a@, b@);
            }
            core::cmp::Ordering::Equal
        } else if a.len() < b.len() {
            proof {
                lemma_lex_skip(a@, b@, a@.len() as int);
                assert(a@.skip(a@.len() as int).len() == 0);
                assert(b@.skip(a@.len() as int).len() > 0);
                assert(lex_lt(a@, b@));
                lemma_lex_trichotomy(a@, b@);
            }
            core::cmp::Ordering::Less
        } else {
            proof {
                lemma_lex_skip(b@, a@, b@.len() as int);
                assert(b@.skip(b@.len() as int).len() == 0);
                assert(a@.skip(b@.len() as int).len() > 0);
                assert(lex_lt(b@, a@));
                lemma_lex_trichotomy(a@, b@);
                lemma_lex_trichotomy(b@, a@);
            }
            core::cmp::Ordering::Greater
        }
    }

    /// Order-independent equality of the two parameter sets, using the
    /// storage tags where they settle it and the materialized maps
    /// otherwise.
    pub fn eq_of_params(&self, other: &Mime) -> (r: bool)
        requires
            self.wf(),
            other.wf(),
        ensures
            r == params_eq(self@.params_seq(), other@.params_seq()),
    {
        match self.params().fast_eq(&other.params()) {
            FastEqRes::Equals => true,
            FastEqRes::NotEquals => false,
            FastEqRes::Undetermined => {
                let a = collect_params(self.params());
                let b = collect_params(other.params());
                let r = map_covered(&a, &b) && map_covered(&b, &a);
                proof {
                    lemma_covered_iff(pview(a@), pview(b@));
                }
                r
            },
        }
    }

    /// Equality of two media types: type, subtype, and suffix compared
    /// ASCII-case-insensitively, parameters as unordered name-to-value
    /// maps.
    pub fn eq_mime(&self, other: &Mime) -> (r: bool)
        requires
            self.wf(),
            other.wf(),
        ensures
            r == mime_eq(self@, other@),
    {
        // identical interned constants: settled by text identity alone
        if let (crate::types::Source::Atom(a), crate::types::Source::Atom(b)) = (
            &self.source,
            &other.source,
        ) {
            let same_plus = match (self.plus, other.plus) {
                (None, None) => true,
                (Some(x), Some(y)) => x == y,
                _ => false,
            };
            if eq_bytes(a.as_slice(), b.as_slice()) && self.slash == other.slash && same_plus
                && matches!(self.params, crate::types::ParamSource::Empty) && matches!(
                other.params,
                crate::types::ParamSource::Empty,
            ) {
                proof {
                    assert(self@.source == other@.source);
                    assert(params_map(self@.params_seq()) =~= params_map(other@.params_seq()));
                }
                return true;
            }
        }
        if !eq_ascii_ci(self.type_(), other.type_()) {
            return false;
        }
        if !eq_ascii_ci(self.subtype(), other.subtype()) {
            return false;
        }
        match (self.suffix(), other.suffix()) {
            (None, None) => {},
            (Some(x), Some(y)) => {
                if !eq_ascii_ci(x, y) {
                    return false;
                }
            },
            _ => {
                return false;
            },
        }
        self.eq_of_params(other)
    }

    /// Equality against a raw string: true exactly when the bytes parse
    /// (wildcards permitted) to a media type equal to this one.
    pub fn eq_str(&self, s: &[u8]) -> (r: bool)
        requires
            self.wf(),
        ensures
            r == match spec_parse(s@, true) {
                Ok(mm) => mime_eq(self@, mm),
                Err(_) => false,
            },
    {
        match parse(s, CanRange::Yes) {
            Ok(m) => self.eq_mime(&m),
            Err(_) => false,
        }
    }
}

} // verus!
