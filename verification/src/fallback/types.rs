use crate::bundle::args::FluentArgs;
use crate::bundle::rendering::ArgsView;
use crate::syntax::slice::Slice;
use vstd::prelude::*;

verus! {

/// What is asked of the chain of locales: a message by its name, with the
/// arguments to resolve it with.
#[derive(Debug)]
pub struct L10nKey<A> {
    pub id: String,
    pub args: Option<FluentArgs<A>>,
}

/// An attribute of a resolved message.
#[derive(Debug, PartialEq)]
pub struct L10nAttribute {
    pub name: String,
    pub value: String,
}

/// A resolved message: its value, if it has one, and its attributes.
#[derive(Debug, PartialEq)]
pub struct L10nMessage {
    pub value: Option<String>,
    pub attributes: Vec<L10nAttribute>,
}

pub ghost struct L10nKeyView {
    pub id: Seq<char>,
    pub args: Option<ArgsView>,
}

pub ghost struct L10nMessageView {
    pub value: Option<Seq<char>>,
    pub attributes: Seq<(Seq<char>, Seq<char>)>,
}

impl<A: Slice> L10nKey<A> {
    pub open spec fn view(&self) -> L10nKeyView {
        L10nKeyView {
            id: self.id@,
            args: match self.args {
                Some(a) => Some(a.view()),
                None => None,
            },
        }
    }
}

impl L10nMessage {
    pub open spec fn view(&self) -> L10nMessageView {
        L10nMessageView {
            value: match self.value {
                Some(v) => Some(v@),
                None => None,
            },
            attributes: Seq::new(
                self.attributes@.len(),
                |i: int| (self.attributes@[i].name@, self.attributes@[i].value@),
            ),
        }
    }
}

/// The views of a vector of keys.
pub open spec fn key_views<A: Slice>(v: Seq<L10nKey<A>>) -> Seq<L10nKeyView> {
    Seq::new(v.len(), |i: int| v[i].view())
}

} // verus!
