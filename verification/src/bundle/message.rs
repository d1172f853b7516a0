use crate::syntax::ast::Pattern;
use crate::syntax::slice::str_eq;
use vstd::prelude::*;

verus! {

/// An attribute of a message: its name and its value.
#[derive(Debug, PartialEq)]
pub struct FluentAttribute<'m, S> {
    pub id: &'m str,
    pub value: &'m Pattern<S>,
}

/// A message as a bundle hands it out: its value, if it has one, and its
/// attributes.
#[derive(Debug, PartialEq)]
pub struct FluentMessage<'m, S> {
    pub value: Option<&'m Pattern<S>>,
    pub attributes: Vec<FluentAttribute<'m, S>>,
}

/// The index of the first attribute of that name from `i` on.
pub open spec fn attribute_index<'m, S>(
    attributes: Seq<FluentAttribute<'m, S>>,
    key: Seq<char>,
    i: int,
) -> Option<int>
    decreases attributes.len() - i,
{
    if !(0 <= i < attributes.len()) {
        None
    } else if attributes[i].id@ == key {
        Some(i)
    } else {
        attribute_index(attributes, key, i + 1)
    }
}

impl<'m, S> FluentMessage<'m, S> {
    /// The first attribute of that name.
    pub fn get_attribute(&self, key: &str) -> (r: Option<&FluentAttribute<'m, S>>)
        ensures
            match (r, attribute_index(self.attributes@, key@, 0)) {
                (Some(a), Some(i)) => *a == self.attributes@[i],
                (None, None) => true,
                _ => false,
            },
    {
        let mut i: usize = 0;
        while i < self.attributes.len()
            invariant
                i <= self.attributes@.len(),
                attribute_index(self.attributes@, key@, 0) == attribute_index(
                    self.attributes@,
                    key@,
                    i as int,
                ),
            decreases self.attributes.len() - i,
        {
            if str_eq(self.attributes[i].id, key) {
                return Some(&self.attributes[i]);
            }
            i += 1;
        }
        None
    }
}

} // verus!
