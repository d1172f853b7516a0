use crate::bundle::args::FluentArgs;
use crate::bundle::fluent_bundle::BorrowResource;
use crate::bundle::resolver::args_view;
use crate::bundle::types::FluentValue;
use crate::fallback::errors::{localization_error_views, LocalizationError, LocalizationErrorView};
use crate::fallback::messages::{format_messages_sync, message_views, messages_of};
use crate::fallback::types::{key_views, L10nKey, L10nMessage};
use crate::fallback::value::{
    askable, FluentBundleResult, format_value_sync, Formatting, optional_view, value_walk,
};
use crate::fallback::values::{format_values_sync, optional_views, values_of};
use crate::syntax::slice::{Slice, str_eq};
use vstd::prelude::*;

verus! {

/// The texts of a vector of strings.
pub open spec fn id_views(v: Seq<String>) -> Seq<Seq<char>> {
    Seq::new(v.len(), |i: int| v[i]@)
}

/// The names from `i` on that are not among `removed`, in their order.
pub open spec fn remaining(ids: Seq<Seq<char>>, removed: Seq<Seq<char>>, i: int) -> Seq<Seq<char>>
    decreases ids.len() - i,
{
    if !(0 <= i < ids.len()) {
        Seq::empty()
    } else if removed.contains(ids[i]) {
        remaining(ids, removed, i + 1)
    } else {
        seq![ids[i]] + remaining(ids, removed, i + 1)
    }
}

/// Whether `id` is among `ids`.
fn contains_id(ids: &Vec<String>, id: &str) -> (r: bool)
    ensures
        r == id_views(ids@).contains(id@),
{
    let mut i: usize = 0;
    while i < ids.len()
        invariant
            i <= ids@.len(),
            forall|j: int| 0 <= j < i ==> id_views(ids@)[j] != id@,
        decreases ids.len() - i,
    {
        if str_eq(ids[i].as_str(), id) {
            assert(id_views(ids@)[i as int] == id@);
            return true;
        }
        i += 1;
    }
    false
}

/// The names of the resources that a localization is made of, whether its
/// bundles come without waiting, and the bundles, once they were asked for.
/// The bundles are forgotten whenever the names or the mode change.
pub struct Localization<B> {
    res_ids: Vec<String>,
    sync: bool,
    bundles: Option<B>,
}

impl<B> Localization<B> {
    /// The names of the resources.
    pub closed spec fn resource_ids(&self) -> Seq<Seq<char>> {
        id_views(self.res_ids@)
    }

    /// Whether the bundles come without waiting.
    pub closed spec fn sync_mode(&self) -> bool {
        self.sync
    }

    /// The bundles, where they were asked for since the last change.
    pub closed spec fn cached(&self) -> Option<B> {
        self.bundles
    }

    /// A localization of those resources, with no bundles yet.
    pub fn new(res_ids: Vec<String>, sync: bool) -> (r: Self)
        ensures
            r.resource_ids() == id_views(res_ids@),
            r.sync_mode() == sync,
            r.cached() is None,
    {
        Localization { res_ids, sync, bundles: None }
    }

    /// Whether the bundles come without waiting.
    pub fn is_sync(&self) -> (r: bool)
        ensures
            r == self.sync_mode(),
    {
        self.sync
    }

    /// The names of the resources.
    pub fn res_ids(&self) -> (r: &Vec<String>)
        ensures
            id_views(r@) == self.resource_ids(),
    {
        &self.res_ids
    }

    /// The bundles, where they were asked for since the last change.
    pub fn bundles(&self) -> (r: Option<&B>)
        ensures
            match (r, self.cached()) {
                (Some(b), Some(c)) => *b == c,
                (None, None) => true,
                _ => false,
            },
    {
        match &self.bundles {
            Some(b) => Some(b),
            None => None,
        }
    }

    /// Keeps the bundles that were asked for.
    pub fn set_bundles(&mut self, bundles: B)
        ensures
            final(self).cached() == Some(bundles),
            final(self).resource_ids() == old(self).resource_ids(),
            final(self).sync_mode() == old(self).sync_mode(),
    {
        self.bundles = Some(bundles);
    }

    /// Forgets the bundles.
    pub fn on_change(&mut self)
        ensures
            final(self).cached() is None,
            final(self).resource_ids() == old(self).resource_ids(),
            final(self).sync_mode() == old(self).sync_mode(),
    {
        self.bundles = None;
    }

    /// Adds a resource behind those that are there.
    pub fn add_resource_id(&mut self, res_id: String)
        ensures
            final(self).resource_ids() == old(self).resource_ids().push(res_id@),
            final(self).cached() is None,
            final(self).sync_mode() == old(self).sync_mode(),
    {
        self.res_ids.push(res_id);
        assert(id_views(self.res_ids@) =~= id_views(old(self).res_ids@).push(res_id@));
        self.on_change();
    }

    /// Adds resources behind those that are there.
    pub fn add_resource_ids(&mut self, res_ids: Vec<String>)
        ensures
            final(self).resource_ids() == old(self).resource_ids() + id_views(res_ids@),
            final(self).cached() is None,
            final(self).sync_mode() == old(self).sync_mode(),
    {
        let ghost before = id_views(self.res_ids@);
        let ghost all = id_views(res_ids@);
        assert(before + all.subrange(0, 0) =~= before);
        for id in it: res_ids
            invariant
                id_views(it.seq()) == all,
                it.seq().len() == all.len(),
                id_views(self.res_ids@) == before + all.subrange(0, it.index()),
                self.sync == old(self).sync,
        {
            let ghost k = it.index();
            let ghost now = id_views(self.res_ids@);
            assert(id@ == all[k]);
            self.res_ids.push(id);
            assert(id_views(self.res_ids@) =~= now.push(id@));
            assert(before + all.subrange(0, k + 1) =~= (before + all.subrange(0, k)).push(all[k]));
        }
        assert(all.subrange(0, all.len() as int) =~= all);
        self.on_change();
    }

    /// Takes the resources of those names away. The result is the number of
    /// resources left.
    pub fn remove_resource_ids(&mut self, res_ids: Vec<String>) -> (n: usize)
        ensures
            final(self).resource_ids() == remaining(
                old(self).resource_ids(),
                id_views(res_ids@),
                0,
            ),
            n == final(self).resource_ids().len(),
            final(self).cached() is None,
            final(self).sync_mode() == old(self).sync_mode(),
    {
        let mut kept: Vec<String> = Vec::new();
        let mut current: Vec<String> = Vec::new();
        std::mem::swap(&mut current, &mut self.res_ids);
        let ghost all = id_views(current@);
        let ghost removed = id_views(res_ids@);
        assert(id_views(kept@) + remaining(all, removed, 0) =~= remaining(all, removed, 0));
        for id in it: current
            invariant
                id_views(it.seq()) == all,
                it.seq().len() == all.len(),
                removed == id_views(res_ids@),
                remaining(all, removed, 0) == id_views(kept@) + remaining(
                    all,
                    removed,
                    it.index(),
                ),
        {
            let ghost k = it.index();
            let ghost now = id_views(kept@);
            assert(id@ == all[k]);
            if !contains_id(&res_ids, id.as_str()) {
                kept.push(id);
                assert(id_views(kept@) =~= now.push(all[k]));
                assert(now.push(all[k]) + remaining(all, removed, k + 1) =~= now + (seq![all[k]]
                    + remaining(all, removed, k + 1)));
            }
        }
        assert(id_views(kept@) + Seq::<Seq<char>>::empty() =~= id_views(kept@));
        self.res_ids = kept;
        self.on_change();
        self.res_ids.len()
    }

    /// Takes the resource of that name away. The result is the number of
    /// resources left.
    pub fn remove_resource_id(&mut self, res_id: String) -> (n: usize)
        ensures
            final(self).resource_ids() == remaining(old(self).resource_ids(), seq![res_id@], 0),
            n == final(self).resource_ids().len(),
            final(self).cached() is None,
            final(self).sync_mode() == old(self).sync_mode(),
    {
        let mut one: Vec<String> = Vec::new();
        one.push(res_id);
        assert(id_views(one@) =~= seq![res_id@]);
        self.remove_resource_ids(one)
    }

    /// From now on the bundles come with waiting.
    pub fn set_async(&mut self)
        ensures
            !final(self).sync_mode(),
            final(self).resource_ids() == old(self).resource_ids(),
            final(self).cached() == if old(self).sync_mode() {
                None
            } else {
                old(self).cached()
            },
    {
        if self.sync {
            self.bundles = None;
            self.sync = false;
        }
    }
}

impl<R: BorrowResource, F, T> Localization<Vec<FluentBundleResult<R, F, T>>> where
    F: Fn(&[FluentValue<String>], &FluentArgs<String>) -> FluentValue<String>,
    T: Fn(&str) -> String,
 {
    /// The bundles are there and each can be asked.
    pub closed spec fn ready(&self) -> bool {
        self.bundles matches Some(b) && askable(b@)
    }

    /// The value of the message of that name along the bundles. A
    /// localization whose bundles come with waiting refuses.
    pub fn format_value_sync<'s, A: Slice>(
        &'s self,
        id: &str,
        args: Option<&'s FluentArgs<A>>,
        errors: &mut Vec<LocalizationError>,
    ) -> (r: Result<Option<String>, LocalizationError>)
        requires
            self.sync_mode() ==> self.ready(),
        ensures
            match r {
                Ok(v) => self.sync_mode() && exists|f: Formatting|
                    {
                        let m = #[trigger] value_walk(
                            self.cached().unwrap()@,
                            0,
                            id@,
                            args_view(args),
                            false,
                            f,
                        );
                        m.decided && optional_view(v) == m.value && localization_error_views(
                            final(errors)@,
                        ) == localization_error_views(old(errors)@) + m.errors
                    },
                Err(e) => !self.sync_mode() && e.view()
                    == LocalizationErrorView::SyncRequestInAsyncMode && final(errors)@ == old(
                    errors,
                )@,
            },
    {
        if !self.sync {
            return Err(LocalizationError::SyncRequestInAsyncMode);
        }
        match &self.bundles {
            Some(bundles) => Ok(format_value_sync(bundles, id, args, errors)),
            None => Ok(None),
        }
    }

    /// The values of the keys along the bundles. A localization whose
    /// bundles come with waiting refuses.
    pub fn format_values_sync<'s, A: Slice>(
        &'s self,
        keys: &'s Vec<L10nKey<A>>,
        errors: &mut Vec<LocalizationError>,
    ) -> (r: Result<Vec<Option<String>>, LocalizationError>)
        requires
            self.sync_mode() ==> self.ready(),
        ensures
            match r {
                Ok(v) => self.sync_mode() && exists|made: Seq<Seq<Formatting>>|
                    {
                        let m = #[trigger] values_of(
                            self.cached().unwrap()@,
                            key_views(keys@),
                            localization_error_views(old(errors)@),
                            made,
                        );
                        m.decided && optional_views(v@) == m.values && localization_error_views(
                            final(errors)@,
                        ) == m.errors
                    },
                Err(e) => !self.sync_mode() && e.view()
                    == LocalizationErrorView::SyncRequestInAsyncMode && final(errors)@ == old(
                    errors,
                )@,
            },
    {
        if !self.sync {
            return Err(LocalizationError::SyncRequestInAsyncMode);
        }
        match &self.bundles {
            Some(bundles) => Ok(format_values_sync(bundles, keys, errors)),
            None => Ok(Vec::new()),
        }
    }

    /// The messages of the keys along the bundles. A localization whose
    /// bundles come with waiting refuses.
    pub fn format_messages_sync<'s, A: Slice>(
        &'s self,
        keys: &'s Vec<L10nKey<A>>,
        errors: &mut Vec<LocalizationError>,
    ) -> (r: Result<Vec<Option<L10nMessage>>, LocalizationError>)
        requires
            self.sync_mode() ==> self.ready(),
        ensures
            match r {
                Ok(v) => self.sync_mode() && exists|made: Seq<Seq<Seq<Formatting>>>|
                    {
                        let m = #[trigger] messages_of(
                            self.cached().unwrap()@,
                            key_views(keys@),
                            localization_error_views(old(errors)@),
                            made,
                        );
                        m.decided && message_views(v@) == m.cells && localization_error_views(
                            final(errors)@,
                        ) == m.errors
                    },
                Err(e) => !self.sync_mode() && e.view()
                    == LocalizationErrorView::SyncRequestInAsyncMode && final(errors)@ == old(
                    errors,
                )@,
            },
    {
        if !self.sync {
            return Err(LocalizationError::SyncRequestInAsyncMode);
        }
        match &self.bundles {
            Some(bundles) => Ok(format_messages_sync(bundles, keys, errors)),
            None => Ok(Vec::new()),
        }
    }
}

} // verus!
