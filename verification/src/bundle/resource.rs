use crate::syntax::ast::{Resource, ResourceView};
use crate::syntax::errors::ParserError;
use crate::syntax::parser::{error_views, Parser};
use crate::syntax::productions::resource_from;
use vstd::prelude::*;
use vstd::utf8::*;

verus! {

/// A parsed document that owns its text.
#[derive(Debug)]
pub enum FluentResource {
    Owned(Resource<String>),
}

impl FluentResource {
    pub open spec fn view(&self) -> ResourceView {
        match self {
            FluentResource::Owned(ast) => ast.view(),
        }
    }

    /// Parses `source`. The result is `Ok` where nothing was wrong; else it
    /// holds the resource, with what could not be parsed kept as junk, and the
    /// errors.
    pub fn try_new(source: String) -> (r: Result<Self, (Self, Vec<ParserError>)>)
        ensures
            match r {
                Ok(x) => x.view() == resource_from(encode_utf8(source@), 0).0 && resource_from(
                    encode_utf8(source@),
                    0,
                ).1.len() == 0,
                Err((x, e)) => x.view() == resource_from(encode_utf8(source@), 0).0
                    && error_views(e@) == resource_from(encode_utf8(source@), 0).1 && e@.len()
                    > 0,
            },
    {
        let mut parser = Parser::new(source);
        match parser.parse() {
            Ok(ast) => Ok(FluentResource::Owned(ast)),
            Err((ast, errors)) => Err((FluentResource::Owned(ast), errors)),
        }
    }

    /// The parsed document.
    pub fn ast(&self) -> (r: &Resource<String>)
        ensures
            r.view() == self.view(),
    {
        match self {
            FluentResource::Owned(ast) => ast,
        }
    }
}

} // verus!
