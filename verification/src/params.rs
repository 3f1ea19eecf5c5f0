//! The lazy parameter iterator: yields the (name, value) pairs of a `Mime`
//! in parse order, slicing the backing text without allocating, whichever
//! storage variant is present.

use vstd::prelude::*;
use vstd::slice::slice_subrange;
use crate::model::charset_seq;
use crate::model::params_eq;
use crate::model::params_map;
use crate::model::utf8_seq;
use crate::types::IndexedPair;
use crate::types::Mime;
use crate::types::ParamSource;
use crate::types::Source;

verus! {

/// Outcome of the storage-tag comparison that can settle parameter-set
/// equality without materializing the sets.
#[derive(Clone, Copy, PartialEq, Eq, Structural, Debug)]
pub enum FastEqRes {
    Equals,
    NotEquals,
    Undetermined,
}

/// The inline span pairs an iterator has still to yield.
#[derive(Clone, Copy)]
enum Inline {
    Done,
    One(IndexedPair),
    Two(IndexedPair, IndexedPair),
    Three(IndexedPair, IndexedPair, IndexedPair),
}

/// The iterator's state: the shorthand pair, inline pairs, a position in
/// the dynamic list, or nothing left.
#[derive(Clone, Copy)]
enum ParamsInner<'a> {
    Utf8(&'a Source, usize),
    Inlined(&'a Source, Inline),
    Custom(&'a Source, &'a Vec<IndexedPair>, usize),
    Done,
}

/// A lazy iterator over the parameters of a `Mime`, in parse order. Its
/// view is the sequence of (name, value) byte pairs still to be yielded.
pub struct Params<'a>(ParamsInner<'a>);

/// The (name, value) bytes a stored span pair stands for.
spec fn resolve_pair(src: Seq<u8>, p: IndexedPair) -> (Seq<u8>, Seq<u8>) {
    (
        src.subrange(p.name.0 as int, p.name.1 as int),
        src.subrange(p.value.0 as int, p.value.1 as int),
    )
}

/// A span pair that can be sliced out of `src`.
spec fn pair_in(src: Seq<u8>, p: IndexedPair) -> bool {
    &&& p.name.0 <= p.name.1 <= src.len()
    &&& p.value.0 <= p.value.1 <= src.len()
}

impl<'a> View for Params<'a> {
    type V = Seq<(Seq<u8>, Seq<u8>)>;

    closed spec fn view(&self) -> Seq<(Seq<u8>, Seq<u8>)> {
        match self.0 {
            ParamsInner::Utf8(_, _) => seq![(charset_seq(), utf8_seq())],
            ParamsInner::Inlined(src, inl) => match inl {
                Inline::Done => Seq::empty(),
                Inline::One(a) => seq![resolve_pair(src@, a)],
                Inline::Two(a, b) => seq![resolve_pair(src@, a), resolve_pair(src@, b)],
                Inline::Three(a, b, c) => seq![
                    resolve_pair(src@, a),
                    resolve_pair(src@, b),
                    resolve_pair(src@, c),
                ],
            },
            ParamsInner::Custom(src, v, idx) => v@.skip(idx as int).map_values(
                |p: IndexedPair| resolve_pair(src@, p),
            ),
            ParamsInner::Done => Seq::empty(),
        }
    }
}

impl<'a> Params<'a> {
    /// Every span the iterator still holds can be sliced out of its text;
    /// the shorthand's fixed spans carry their definitional bytes.
    pub closed spec fn wf(self) -> bool {
        match self.0 {
            ParamsInner::Utf8(src, semi) => {
                &&& semi + 15 <= src@.len()
                &&& src@.subrange(semi as int + 2, semi as int + 9) == charset_seq()
                &&& src@.subrange(semi as int + 10, semi as int + 15) == utf8_seq()
            },
            ParamsInner::Inlined(src, inl) => match inl {
                Inline::Done => true,
                Inline::One(a) => pair_in(src@, a),
                Inline::Two(a, b) => pair_in(src@, a) && pair_in(src@, b),
                Inline::Three(a, b, c) => pair_in(src@, a) && pair_in(src@, b) && pair_in(
                    src@,
                    c,
                ),
            },
            ParamsInner::Custom(src, v, idx) => idx <= v@.len() && forall|i: int|
                0 <= i < v@.len() ==> #[trigger] pair_in(src@, v@[i]),
            ParamsInner::Done => true,
        }
    }

    /// Whether this iterator state has nothing to yield at all (the
    /// no-parameter storage, or an exhausted iterator).
    pub closed spec fn storage_empty(self) -> bool {
        self.0 is Done
    }

    /// Whether this iterator state is the `charset=utf-8` shorthand.
    pub closed spec fn storage_shorthand(self) -> bool {
        self.0 is Utf8
    }

    /// A freshly created iterator: nothing has been yielded yet, and a
    /// nonempty storage variant still holds its pairs.
    pub closed spec fn initial(self) -> bool {
        match self.0 {
            ParamsInner::Utf8(..) => true,
            ParamsInner::Inlined(_, inl) => !(inl is Done),
            ParamsInner::Custom(_, v, idx) => idx == 0 && v@.len() >= 1,
            ParamsInner::Done => true,
        }
    }

    /// Yields the next (name, value) pair, or nothing once the sequence is
    /// exhausted.
    pub fn next(&mut self) -> (r: Option<(&'a [u8], &'a [u8])>)
        requires
            old(self).wf(),
        ensures
            final(self).wf(),
            match r {
                None => old(self)@.len() == 0 && final(self)@ == old(self)@,
                Some(p) => {
                    &&& old(self)@.len() > 0
                    &&& p.0@ == old(self)@[0].0
                    &&& p.1@ == old(self)@[0].1
                    &&& final(self)@ == old(self)@.drop_first()
                },
            },
    {
        let cur = self.0;
        match cur {
            ParamsInner::Utf8(src, semi) => {
                let sb = src.as_bytes();
                let sblen = sb.len();
                proof {
                    assert(semi + 15 <= sblen);
                }
                let n = slice_subrange(sb, semi + 2, semi + 9);
                let v = slice_subrange(sb, semi + 10, semi + 15);
                self.0 = ParamsInner::Done;
                proof {
                    assert(self@ =~= old(self)@.drop_first());
                }
                Some((n, v))
            },
            ParamsInner::Inlined(src, inl) => match inl {
                Inline::Done => None,
                Inline::One(a) => {
                    let n = slice_subrange(src.as_bytes(), a.name.0, a.name.1);
                    let v = slice_subrange(src.as_bytes(), a.value.0, a.value.1);
                    self.0 = ParamsInner::Inlined(src, Inline::Done);
                    proof {
                        assert(self@ =~= old(self)@.drop_first());
                    }
                    Some((n, v))
                },
                Inline::Two(a, b) => {
                    let n = slice_subrange(src.as_bytes(), a.name.0, a.name.1);
                    let v = slice_subrange(src.as_bytes(), a.value.0, a.value.1);
                    self.0 = ParamsInner::Inlined(src, Inline::One(b));
                    proof {
                        assert(self@ =~= old(self)@.drop_first());
                    }
                    Some((n, v))
                },
                Inline::Three(a, b, c) => {
                    let n = slice_subrange(src.as_bytes(), a.name.0, a.name.1);
                    let v = slice_subrange(src.as_bytes(), a.value.0, a.value.1);
                    self.0 = ParamsInner::Inlined(src, Inline::Two(b, c));
                    proof {
                        assert(self@ =~= old(self)@.drop_first());
                    }
                    Some((n, v))
                },
            },
            ParamsInner::Custom(src, v, idx) => {
                if idx == v.len() {
                    None
                } else {
                    proof {
                        assert(pair_in(src@, v@[idx as int]));
                    }
                    let p = v[idx];
                    let n = slice_subrange(src.as_bytes(), p.name.0, p.name.1);
                    let vv = slice_subrange(src.as_bytes(), p.value.0, p.value.1);
                    self.0 = ParamsInner::Custom(src, v, idx + 1);
                    proof {
                        assert(self@ =~= old(self)@.drop_first());
                    }
                    Some((n, vv))
                }
            },
            ParamsInner::Done => None,
        }
    }

    /// The exact number of pairs still to be yielded, as a lower and upper
    /// bound.
    pub fn size_hint(&self) -> (r: (usize, Option<usize>))
        requires
            self.wf(),
        ensures
            r.0 == self@.len(),
            r.1 == Some(r.0),
    {
        match &self.0 {
            ParamsInner::Utf8(..) => (1, Some(1)),
            ParamsInner::Inlined(_, Inline::Done) => (0, Some(0)),
            ParamsInner::Inlined(_, Inline::One(..)) => (1, Some(1)),
            ParamsInner::Inlined(_, Inline::Two(..)) => (2, Some(2)),
            ParamsInner::Inlined(_, Inline::Three(..)) => (3, Some(3)),
            ParamsInner::Custom(_, v, idx) => {
                let n = v.len() - *idx;
                (n, Some(n))
            },
            ParamsInner::Done => (0, Some(0)),
        }
    }

    /// Settles parameter-set equality from the storage tags alone where
    /// possible: two empty sets or two shorthand sets are equal, an empty
    /// set differs from any nonempty one, and anything else is left open.
    pub fn fast_eq<'b>(&self, other: &Params<'b>) -> (r: FastEqRes)
        requires
            self.initial(),
            other.initial(),
        ensures
            r == (if self.storage_empty() && other.storage_empty() {
                FastEqRes::Equals
            } else if self.storage_shorthand() && other.storage_shorthand() {
                FastEqRes::Equals
            } else if self.storage_empty() || other.storage_empty() {
                FastEqRes::NotEquals
            } else {
                FastEqRes::Undetermined
            }),
            match r {
                FastEqRes::Equals => self@ == other@,
                FastEqRes::NotEquals => !params_eq(self@, other@),
                FastEqRes::Undetermined => true,
            },
    {
        match (&self.0, &other.0) {
            (ParamsInner::Done, ParamsInner::Done) => FastEqRes::Equals,
            (ParamsInner::Utf8(..), ParamsInner::Utf8(..)) => {
                proof {
                    assert(self@ =~= other@);
                }
                FastEqRes::Equals
            },
            (ParamsInner::Done, _) => {
                proof {
                    lemma_one_side_empty(self@, other@);
                }
                FastEqRes::NotEquals
            },
            (_, ParamsInner::Done) => {
                proof {
                    lemma_one_side_empty(other@, self@);
                    crate::model::lemma_params_eq_symmetric(self@, other@);
                }
                FastEqRes::NotEquals
            },
            _ => FastEqRes::Undetermined,
        }
    }
}

/// An empty parameter set never equals a nonempty one.
proof fn lemma_one_side_empty(a: Seq<(Seq<u8>, Seq<u8>)>, b: Seq<(Seq<u8>, Seq<u8>)>)
    requires
        a.len() == 0,
        b.len() > 0,
    ensures
        !params_eq(a, b),
{
    crate::model::lemma_params_map_nonempty(b);
    assert(params_map(a) == Map::<Seq<u8>, Seq<u8>>::empty());
    if params_eq(a, b) {
        assert(params_map(a).dom().contains(b.last().0));
    }
}

impl Mime {
    /// The lazy iterator over this value's parameters, in parse order.
    pub fn params<'a>(&'a self) -> (r: Params<'a>)
        requires
            self.wf(),
        ensures
            r@ == self@.params_seq(),
            r.wf(),
            r.initial(),
            r.storage_empty() == (self@.params is Empty),
            r.storage_shorthand() == (self@.params is Utf8),
    {
        let r = Params(
            match &self.params {
                ParamSource::Empty => ParamsInner::Done,
                ParamSource::Utf8(i) => ParamsInner::Utf8(&self.source, *i),
                ParamSource::One(_, a) => ParamsInner::Inlined(&self.source, Inline::One(*a)),
                ParamSource::Two(_, a, b) => ParamsInner::Inlined(
                    &self.source,
                    Inline::Two(*a, *b),
                ),
                ParamSource::Three(_, a, b, c) => ParamsInner::Inlined(
                    &self.source,
                    Inline::Three(*a, *b, *c),
                ),
                ParamSource::Custom(_, v) => ParamsInner::Custom(&self.source, v, 0),
            },
        );
        proof {
            let glen = self@.source.len() as int;
            let gp = self@.params.span_pairs();
            match self.params {
                ParamSource::Empty => {},
                ParamSource::Utf8(_) => {},
                ParamSource::One(sc, a) => {
                    assert(gp == seq![crate::types::pair_view(a)]);
                    assert(crate::model::pair_wf(gp[0], sc as int, glen));
                },
                ParamSource::Two(sc, a, b) => {
                    assert(gp == seq![crate::types::pair_view(a), crate::types::pair_view(b)]);
                    assert(crate::model::pair_wf(gp[0], sc as int, glen));
                    assert(crate::model::pair_wf(gp[1], sc as int, glen));
                },
                ParamSource::Three(sc, a, b, c) => {
                    assert(gp == seq![
                        crate::types::pair_view(a),
                        crate::types::pair_view(b),
                        crate::types::pair_view(c),
                    ]);
                    assert(crate::model::pair_wf(gp[0], sc as int, glen));
                    assert(crate::model::pair_wf(gp[1], sc as int, glen));
                    assert(crate::model::pair_wf(gp[2], sc as int, glen));
                },
                ParamSource::Custom(sc, ref v) => {
                    assert forall|i: int| 0 <= i < v@.len() implies #[trigger] pair_in(
                        self@.source,
                        v@[i],
                    ) by {
                        assert(gp[i] == crate::types::pair_view(v@[i]));
                        assert(crate::model::pair_wf(gp[i], sc as int, glen));
                    }
                    assert(v@.skip(0) =~= v@);
                },
            }
            assert(r@ =~= self@.params_seq());
        }
        r
    }
}

} // verus!
