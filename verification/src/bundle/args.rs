use crate::bundle::rendering::{ArgsView, find_argument, ValueView};
use crate::bundle::types::FluentValue;
use crate::syntax::slice::{Slice, str_eq};
use vstd::prelude::*;

verus! {

/// The arguments of a call, by name, in the order in which they were given.
#[derive(Debug)]
pub struct FluentArgs<S>(pub Vec<(S, FluentValue<S>)>);

impl<S> From<Vec<(S, FluentValue<S>)>> for FluentArgs<S> {
    fn from(input: Vec<(S, FluentValue<S>)>) -> (r: Self) {
        FluentArgs(input)
    }
}

impl<S> vstd::std_specs::convert::FromSpecImpl<Vec<(S, FluentValue<S>)>> for FluentArgs<S> {
    open spec fn obeys_from_spec() -> bool {
        true
    }

    open spec fn from_spec(v: Vec<(S, FluentValue<S>)>) -> Self {
        FluentArgs(v)
    }
}

impl<S: Slice> FluentArgs<S> {
    pub open spec fn view(&self) -> ArgsView {
        Seq::new(self.0@.len(), |i: int| (self.0@[i].0.text(), self.0@[i].1.view()))
    }

    /// No arguments.
    pub fn new() -> (r: Self)
        ensures
            r.view() == Seq::<(Seq<char>, ValueView)>::empty(),
    {
        let r = FluentArgs(Vec::new());
        assert(r.view() =~= Seq::empty());
        r
    }

    /// Adds an argument behind those that are there.
    pub fn add(&mut self, key: S, value: FluentValue<S>)
        ensures
            final(self).view() == old(self).view().push((key.text(), value.view())),
    {
        self.0.push((key, value));
        assert(self.view() =~= old(self).view().push((key.text(), value.view())));
    }

    /// The value of the first argument of that name.
    pub fn get(&self, key: &str) -> (r: Option<&FluentValue<S>>)
        ensures
            match (r, find_argument(self.view(), key@, 0)) {
                (Some(v), Some(m)) => v.view() == m,
                (None, None) => true,
                _ => false,
            },
    {
        let mut i: usize = 0;
        while i < self.0.len()
            invariant
                i <= self.0@.len(),
                find_argument(self.view(), key@, 0) == find_argument(self.view(), key@, i as int),
            decreases self.0.len() - i,
        {
            if str_eq(self.0[i].0.as_str(), key) {
                return Some(&self.0[i].1);
            }
            i += 1;
        }
        None
    }
}

} // verus!
