use crate::bundle::rendering::ResolverErrorView;
use crate::syntax::errors::{ParserError, ParserErrorView};
use vstd::prelude::*;

verus! {

/// What the resolver found wrong.
#[derive(Debug, PartialEq, Clone)]
pub enum ResolverError {
    Reference(String),
    Cyclic(String),
    TooManyPlaceables,
    MissingDefault,
}

impl ResolverError {
    pub open spec fn view(&self) -> ResolverErrorView {
        match self {
            ResolverError::Reference(s) => ResolverErrorView::Reference(s@),
            ResolverError::Cyclic(s) => ResolverErrorView::Cyclic(s@),
            ResolverError::TooManyPlaceables => ResolverErrorView::TooManyPlaceables,
            ResolverError::MissingDefault => ResolverErrorView::MissingDefault,
        }
    }
}

/// What went wrong with a bundle: a name added twice, an error of the parser
/// or an error of the resolver.
#[derive(Debug, PartialEq)]
pub enum FluentError {
    Overriding { kind: &'static str, id: String },
    ParserError(ParserError),
    ResolverError(ResolverError),
}

pub ghost enum FluentErrorView {
    Overriding { kind: Seq<char>, id: Seq<char> },
    ParserError(ParserErrorView),
    ResolverError(ResolverErrorView),
}

impl FluentError {
    pub open spec fn view(&self) -> FluentErrorView {
        match self {
            FluentError::Overriding { kind, id } => FluentErrorView::Overriding {
                kind: kind@,
                id: id@,
            },
            FluentError::ParserError(e) => FluentErrorView::ParserError(e.view()),
            FluentError::ResolverError(e) => FluentErrorView::ResolverError(e.view()),
        }
    }
}

impl ResolverError {
    /// A copy of the error.
    pub fn duplicate(&self) -> (r: ResolverError)
        ensures
            r.view() == self.view(),
    {
        match self {
            ResolverError::Reference(s) => ResolverError::Reference(s.clone()),
            ResolverError::Cyclic(s) => ResolverError::Cyclic(s.clone()),
            ResolverError::TooManyPlaceables => ResolverError::TooManyPlaceables,
            ResolverError::MissingDefault => ResolverError::MissingDefault,
        }
    }
}

impl FluentError {
    /// A copy of the error.
    pub fn duplicate(&self) -> (r: FluentError)
        ensures
            r.view() == self.view(),
    {
        match self {
            FluentError::Overriding { kind, id } => FluentError::Overriding {
                kind: *kind,
                id: id.clone(),
            },
            FluentError::ParserError(e) => FluentError::ParserError(e.duplicate()),
            FluentError::ResolverError(e) => FluentError::ResolverError(e.duplicate()),
        }
    }
}

/// The views of a vector of errors of the resolver.
pub open spec fn resolver_error_views(v: Seq<ResolverError>) -> Seq<ResolverErrorView> {
    Seq::new(v.len(), |i: int| v[i].view())
}

/// The views of a vector of errors.
pub open spec fn fluent_error_views(v: Seq<FluentError>) -> Seq<FluentErrorView> {
    Seq::new(v.len(), |i: int| v[i].view())
}

/// The errors of the resolver as errors of a bundle.
pub open spec fn as_fluent_errors(v: Seq<ResolverErrorView>) -> Seq<FluentErrorView> {
    Seq::new(v.len(), |i: int| FluentErrorView::ResolverError(v[i]))
}

} // verus!
