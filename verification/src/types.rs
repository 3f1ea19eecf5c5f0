//! The executable value types: `Mime`, its backing `Source`, the tagged
//! parameter storage, byte spans, and the parse outcome enums.

use vstd::prelude::*;
use crate::model::MimeModel;
use crate::model::ParamsModel;
use crate::model::SpanModel;

verus! {

/// A half-open byte-offset range into the owning `Mime`'s source text, used
/// in place of an owned substring.
#[derive(Clone, Copy, PartialEq, Eq, Structural, Debug)]
pub struct Indexed(pub usize, pub usize);

impl View for Indexed {
    type V = SpanModel;

    open spec fn view(&self) -> SpanModel {
        SpanModel { start: self.0 as int, end: self.1 as int }
    }
}

/// The backing text of a parsed media type: either a recognized
/// process-lifetime constant (here only the canonical wildcard `*/*`) or an
/// owned buffer. The split is an allocation optimization; both variants
/// behave identically everywhere.
#[derive(Clone, Debug)]
pub enum Source {
    Atom(Vec<u8>),
    Dynamic(Vec<u8>),
}

impl View for Source {
    type V = Seq<u8>;

    open spec fn view(&self) -> Seq<u8> {
        match self {
            Source::Atom(v) => v@,
            Source::Dynamic(v) => v@,
        }
    }
}

impl Source {
    /// The backing bytes, whichever variant holds them.
    pub fn as_bytes(&self) -> (r: &[u8])
        ensures
            r@ == self@,
    {
        match self {
            Source::Atom(v) => v.as_slice(),
            Source::Dynamic(v) => v.as_slice(),
        }
    }
}

/// The tagged parameter storage. Zero to three parameters avoid a
/// heap-allocated list; the single parameter `charset=utf-8` (with exactly
/// one space after the `;`) is stored as just the `;` offset.
#[derive(Clone, Debug)]
pub enum ParamSource {
    Empty,
    Utf8(usize),
    One(usize, IndexedPair),
    Two(usize, IndexedPair, IndexedPair),
    Three(usize, IndexedPair, IndexedPair, IndexedPair),
    Custom(usize, Vec<IndexedPair>),
}

/// One stored parameter: the spans of its name and of its value.
#[derive(Clone, Copy, PartialEq, Eq, Structural, Debug)]
pub struct IndexedPair {
    pub name: Indexed,
    pub value: Indexed,
}

/// The ghost form of one stored span pair.
pub open spec fn pair_view(p: IndexedPair) -> (SpanModel, SpanModel) {
    (p.name@, p.value@)
}

impl View for ParamSource {
    type V = ParamsModel;

    open spec fn view(&self) -> ParamsModel {
        match self {
            ParamSource::Empty => ParamsModel::Empty,
            ParamSource::Utf8(i) => ParamsModel::Utf8 { semi: *i as int },
            ParamSource::One(i, a) => ParamsModel::Inline {
                semi: *i as int,
                pairs: seq![pair_view(*a)],
            },
            ParamSource::Two(i, a, b) => ParamsModel::Inline {
                semi: *i as int,
                pairs: seq![pair_view(*a), pair_view(*b)],
            },
            ParamSource::Three(i, a, b, c) => ParamsModel::Inline {
                semi: *i as int,
                pairs: seq![pair_view(*a), pair_view(*b), pair_view(*c)],
            },
            ParamSource::Custom(i, v) => ParamsModel::Custom {
                semi: *i as int,
                pairs: v@.map_values(|p: IndexedPair| pair_view(p)),
            },
        }
    }
}

/// A parsed media type: the backing text plus the byte offsets that carve it
/// into type, subtype, optional suffix, and parameters.
#[derive(Clone, Debug)]
pub struct Mime {
    pub source: Source,
    pub slash: usize,
    pub plus: Option<usize>,
    pub params: ParamSource,
}

/// The ghost form of an optional byte offset.
pub open spec fn opt_view(o: Option<usize>) -> Option<int> {
    match o {
        Some(p) => Some(p as int),
        None => None,
    }
}

impl View for Mime {
    type V = MimeModel;

    open spec fn view(&self) -> MimeModel {
        MimeModel {
            source: self.source@,
            slash: self.slash as int,
            plus: opt_view(self.plus),
            params: self.params@,
        }
    }
}

impl Mime {
    /// The parser's structural invariant over the stored offsets.
    pub open spec fn wf(self) -> bool {
        crate::model::wf_bounds(self@)
    }

    /// The stored (normalized) textual form, byte for byte.
    pub fn as_bytes(&self) -> (r: &[u8])
        ensures
            r@ == self@.source,
    {
        self.source.as_bytes()
    }

    /// The top-level type: the bytes before the `/`.
    pub fn type_(&self) -> (r: &[u8])
        requires
            self.wf(),
        ensures
            r@ == self@.type_seq(),
    {
        vstd::slice::slice_subrange(self.source.as_bytes(), 0, self.slash)
    }

    /// The `;` offset that starts the parameter section, if any.
    fn semicolon(&self) -> (r: Option<usize>)
        ensures
            opt_view(r) == self@.params.semi_opt(),
    {
        match &self.params {
            ParamSource::Empty => None,
            ParamSource::Utf8(i) => Some(*i),
            ParamSource::One(i, ..) => Some(*i),
            ParamSource::Two(i, ..) => Some(*i),
            ParamSource::Three(i, ..) => Some(*i),
            ParamSource::Custom(i, _) => Some(*i),
        }
    }

    /// The subtype: the bytes between the `/` and the suffix marker, the
    /// parameter section, or the end of the text.
    pub fn subtype(&self) -> (r: &[u8])
        requires
            self.wf(),
        ensures
            r@ == self@.subtype_seq(),
    {
        let src = self.source.as_bytes();
        let end = match self.plus {
            Some(p) => p,
            None => match self.semicolon() {
                Some(i) => i,
                None => src.len(),
            },
        };
        vstd::slice::slice_subrange(src, self.slash + 1, end)
    }

    /// The structured-syntax suffix after the last `+` of the subtype, if
    /// one was recorded.
    pub fn suffix(&self) -> (r: Option<&[u8]>)
        requires
            self.wf(),
        ensures
            match r {
                Some(x) => self@.suffix_seq() == Some(x@),
                None => self@.suffix_seq() is None,
            },
    {
        let src = self.source.as_bytes();
        let end = match self.semicolon() {
            Some(i) => i,
            None => src.len(),
        };
        match self.plus {
            Some(p) => Some(vstd::slice::slice_subrange(src, p + 1, end)),
            None => None,
        }
    }

    /// Whether any parameter section was recorded.
    pub fn has_params(&self) -> (r: bool)
        ensures
            r == (self@.params.semi_opt() is Some),
    {
        self.semicolon().is_some()
    }
}

/// Terminal parse outcome: which structural element was missing or which
/// byte was illegal at which position.
#[derive(Clone, Copy, PartialEq, Eq, Structural, Debug)]
pub enum ParseError {
    MissingSlash,
    MissingEqual,
    MissingQuote,
    InvalidToken { pos: usize, byte: u8 },
    InvalidRange,
}

impl ParseError {
    /// A short fixed description of the error kind.
    pub fn description(&self) -> (r: &'static str)
        ensures
            r@ == match self {
                ParseError::MissingSlash => "a slash (/) was missing between the type and subtype"@,
                ParseError::MissingEqual => "an equals sign (=) was missing between a parameter and its value"@,
                ParseError::MissingQuote => "a quote (\") was missing from a parameter value"@,
                ParseError::InvalidToken { .. } => "invalid token"@,
                ParseError::InvalidRange => "unexpected asterisk"@,
            },
    {
        match self {
            ParseError::MissingSlash => "a slash (/) was missing between the type and subtype",
            ParseError::MissingEqual => "an equals sign (=) was missing between a parameter and its value",
            ParseError::MissingQuote => "a quote (\") was missing from a parameter value",
            ParseError::InvalidToken { .. } => "invalid token",
            ParseError::InvalidRange => "unexpected asterisk",
        }
    }
}

/// Whether the parser accepts the wildcard forms `*/*` and `type/*`.
#[derive(Clone, Copy, PartialEq, Eq, Structural, Debug)]
pub enum CanRange {
    Yes,
    No,
}

impl CanRange {
    /// Whether wildcards are permitted.
    pub open spec fn allows(self) -> bool {
        self is Yes
    }
}

} // verus!
