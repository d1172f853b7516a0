use crate::bundle::args::FluentArgs;
use crate::bundle::errors::{resolver_error_views, ResolverError};
use crate::bundle::fluent_bundle::{BorrowResource, FluentBundle};
use crate::bundle::rendering::{CallView, Env, MAX_PLACEABLES, ScopeView, told, with_error};
use crate::syntax::ast::{Pattern, PatternView};
use crate::syntax::equal::same_pattern;
use crate::syntax::slice::Slice;
use vstd::prelude::*;

verus! {

/// The state of one call of the resolver.
pub struct Scope<'scope, R, F, T, A> {
    /// The bundle whose messages are resolved.
    pub bundle: &'scope FluentBundle<R, F, T>,
    /// The arguments of the call.
    pub args: Option<&'scope FluentArgs<A>>,
    /// The arguments of the term under way.
    pub local_args: Option<FluentArgs<String>>,
    /// The errors met so far.
    pub errors: Vec<ResolverError>,
    /// How many placeables were resolved.
    pub placeables: u8,
    /// The patterns under way.
    pub travelled: Vec<&'scope Pattern<String>>,
    /// Whether the call has given up.
    pub dirty: bool,
    /// The calls made into the functions and the transform of the bundle,
    /// with what each returned.
    pub calls: Ghost<Seq<CallView>>,
}

/// The views of the patterns under way.
pub open spec fn travelled_views(v: Seq<&Pattern<String>>) -> Seq<PatternView> {
    Seq::new(v.len(), |i: int| v[i].view())
}

impl<'scope, R: BorrowResource, F, T, A: Slice> Scope<'scope, R, F, T, A> {
    pub open spec fn view(&self) -> ScopeView {
        ScopeView {
            errors: resolver_error_views(self.errors@),
            placeables: self.placeables as nat,
            travelled: travelled_views(self.travelled@),
            dirty: self.dirty,
            local_args: match self.local_args {
                Some(a) => Some(a.view()),
                None => None,
            },
            asked: self.calls@.len(),
        }
    }

    /// What the resolver reads and does not change, where the calls into the
    /// code of the caller are `calls`.
    pub open spec fn env(&self, calls: Seq<CallView>) -> Env {
        told(
            self.bundle.env(
                match self.args {
                    Some(a) => Some(a.view()),
                    None => None,
                },
            ),
            calls,
        )
    }

    /// The count of placeables is within its limit, and the call has given up
    /// where the count has passed it.
    pub open spec fn ok(&self) -> bool {
        &&& self.placeables <= MAX_PLACEABLES + 1
        &&& self.placeables > MAX_PLACEABLES ==> self.dirty
    }

    /// The scope works on the same bundle with the same arguments as
    /// `before`.
    pub open spec fn same_call(&self, before: Self) -> bool {
        &&& self.bundle == before.bundle
        &&& self.args == before.args
    }

    /// The state at the start of a call.
    pub fn new(bundle: &'scope FluentBundle<R, F, T>, args: Option<&'scope FluentArgs<A>>) -> (r:
        Self)
        ensures
            r.bundle == bundle,
            r.args == args,
            r.ok(),
            r.calls@ == Seq::<CallView>::empty(),
            r.view() == (ScopeView {
                errors: Seq::empty(),
                placeables: 0,
                travelled: Seq::empty(),
                dirty: false,
                local_args: None,
                asked: 0,
            }),
    {
        let r = Scope {
            bundle,
            args,
            local_args: None,
            errors: Vec::new(),
            placeables: 0,
            travelled: Vec::new(),
            dirty: false,
            calls: Ghost(Seq::empty()),
        };
        assert(resolver_error_views(r.errors@) =~= Seq::empty());
        assert(travelled_views(r.travelled@) =~= Seq::empty());
        r
    }

    /// Notes an error.
    pub fn add_error(&mut self, error: ResolverError)
        ensures
            final(self).view() == with_error(old(self).view(), error.view()),
            final(self).same_call(*old(self)),
            final(self).ok() == old(self).ok(),
            final(self).placeables == old(self).placeables,
            final(self).local_args == old(self).local_args,
            final(self).travelled == old(self).travelled,
            final(self).dirty == old(self).dirty,
            final(self).calls == old(self).calls,
    {
        let ghost before = resolver_error_views(self.errors@);
        self.errors.push(error);
        assert(resolver_error_views(self.errors@) =~= before.push(error.view()));
    }

    /// Whether the pattern is under way.
    pub fn is_travelled(&self, pattern: &Pattern<String>) -> (r: bool)
        ensures
            r == self.view().travelled.contains(pattern.view()),
    {
        let ghost views = travelled_views(self.travelled@);
        let mut i: usize = 0;
        while i < self.travelled.len()
            invariant
                i <= self.travelled@.len(),
                views == travelled_views(self.travelled@),
                forall|j: int| 0 <= j < i ==> views[j] != pattern.view(),
            decreases self.travelled.len() - i,
        {
            if same_pattern(self.travelled[i], pattern) {
                assert(views[i as int] == pattern.view());
                return true;
            }
            i += 1;
        }
        false
    }
}

} // verus!
