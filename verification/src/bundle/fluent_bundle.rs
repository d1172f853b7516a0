use crate::bundle::errors::{fluent_error_views, FluentError, FluentErrorView};
use crate::bundle::message::{FluentAttribute, FluentMessage};
use crate::bundle::rendering::{
    ArgsView, Env, find_message, find_term, has_function, message_in, named_message, named_term,
    term_in,
};
use crate::bundle::resource::FluentResource;
use crate::syntax::ast::{
    Entry, entry_views, Message, ResourceEntry, ResourceEntryView, ResourceView, Term,
};
use crate::syntax::slice::str_eq;
use std::rc::Rc;
use vstd::prelude::*;
use vstd::string::*;

verus! {

/// What can lend a resource to a bundle: the resource itself, a reference to
/// it or a counted handle.
pub trait BorrowResource {
    spec fn resource(&self) -> FluentResource;

    fn borrow_resource(&self) -> (r: &FluentResource)
        ensures
            *r == self.resource(),
    ;
}

impl BorrowResource for FluentResource {
    open spec fn resource(&self) -> FluentResource {
        *self
    }

    fn borrow_resource(&self) -> (r: &FluentResource) {
        self
    }
}

impl<'a> BorrowResource for &'a FluentResource {
    open spec fn resource(&self) -> FluentResource {
        **self
    }

    fn borrow_resource(&self) -> (r: &FluentResource) {
        *self
    }
}

impl BorrowResource for Rc<FluentResource> {
    open spec fn resource(&self) -> FluentResource {
        **self
    }

    fn borrow_resource(&self) -> (r: &FluentResource) {
        &**self
    }
}

/// The resources of one locale with the functions that their messages can
/// call.
pub struct FluentBundle<R, F, T> {
    pub locales: Vec<String>,
    pub resources: Vec<R>,
    pub functions: Vec<(String, F)>,
    pub use_isolating: bool,
    pub transform: Option<T>,
}

/// The first message of that name among the entries of `body`.
pub fn message_of<'a>(body: &'a Vec<ResourceEntry<String>>, id: &str) -> (r: Option<
    &'a Message<String>,
>)
    ensures
        match (r, message_in(entry_views(body@), id@, 0)) {
            (Some(m), Some(v)) => m.view() == v,
            (None, None) => true,
            _ => false,
        },
{
    let ghost views = entry_views(body@);
    let mut i: usize = 0;
    while i < body.len()
        invariant
            i <= body@.len(),
            views == entry_views(body@),
            message_in(views, id@, 0) == message_in(views, id@, i as int),
        decreases body.len() - i,
    {
        match &body[i] {
            ResourceEntry::Entry(Entry::Message(m)) => {
                if str_eq(m.id.name.as_str(), id) {
                    assert(named_message(views[i as int], id@) == Some(m.view()));
                    return Some(m);
                }
            },
            _ => {},
        }
        assert(named_message(views[i as int], id@) is None);
        i += 1;
    }
    None
}

/// The first term of that name among the entries of `body`.
pub fn term_of<'a>(body: &'a Vec<ResourceEntry<String>>, id: &str) -> (r: Option<
    &'a Term<String>,
>)
    ensures
        match (r, term_in(entry_views(body@), id@, 0)) {
            (Some(m), Some(v)) => m.view() == v,
            (None, None) => true,
            _ => false,
        },
{
    let ghost views = entry_views(body@);
    let mut i: usize = 0;
    while i < body.len()
        invariant
            i <= body@.len(),
            views == entry_views(body@),
            term_in(views, id@, 0) == term_in(views, id@, i as int),
        decreases body.len() - i,
    {
        match &body[i] {
            ResourceEntry::Entry(Entry::Term(t)) => {
                if str_eq(t.id.name.as_str(), id) {
                    assert(named_term(views[i as int], id@) == Some(t.view()));
                    return Some(t);
                }
            },
            _ => {},
        }
        assert(named_term(views[i as int], id@) is None);
        i += 1;
    }
    None
}

/// The collisions of the entries of `body`, from `i` on, with the messages
/// and terms that `resources` hold or that stand earlier in `body`: one error
/// for each message whose name a message has, and for each term whose name a
/// term has.
pub open spec fn overrides(resources: Seq<ResourceView>, body: Seq<ResourceEntryView>,
    i: int) -> Seq<
    FluentErrorView,
>
    decreases body.len() - i,
{
    if !(0 <= i < body.len()) {
        Seq::empty()
    } else {
        let rest = overrides(resources, body, i + 1);
        match body[i] {
            ResourceEntryView::Entry(crate::syntax::ast::EntryView::Message(m)) => {
                if find_message(resources, m.id, 0) is Some || message_in(
                    body.subrange(0, i),
                    m.id,
                    0,
                ) is Some {
                    seq![FluentErrorView::Overriding { kind: "message"@, id: m.id }] + rest
                } else {
                    rest
                }
            },
            ResourceEntryView::Entry(crate::syntax::ast::EntryView::Term(t)) => {
                if find_term(resources, t.id, 0) is Some || term_in(body.subrange(0, i), t.id, 0)
                    is Some {
                    seq![FluentErrorView::Overriding { kind: "term"@, id: t.id }] + rest
                } else {
                    rest
                }
            },
            _ => rest,
        }
    }
}

impl<R: BorrowResource, F, T> FluentBundle<R, F, T> {
    /// The resources of the bundle in the order in which they were added.
    pub open spec fn resource_views(&self) -> Seq<ResourceView> {
        Seq::new(self.resources@.len(), |i: int| self.resources@[i].resource().view())
    }

    /// The names of the functions of the bundle.
    pub open spec fn function_names(&self) -> Seq<Seq<char>> {
        Seq::new(self.functions@.len(), |i: int| self.functions@[i].0@)
    }

    /// The locale whose plural rules the bundle goes by: the first of its
    /// locales.
    pub open spec fn locale_text(&self) -> Seq<char> {
        if self.locales@.len() > 0 {
            self.locales@[0]@
        } else {
            Seq::empty()
        }
    }

    /// What the resolver reads of the bundle in a call with those arguments
    /// that makes no call into the code of the caller.
    pub open spec fn env(&self, args: Option<ArgsView>) -> Env {
        Env {
            resources: self.resource_views(),
            functions: self.function_names(),
            use_isolating: self.use_isolating,
            has_transform: self.transform is Some,
            locale: self.locale_text(),
            args,
            calls: Seq::empty(),
        }
    }

    /// An empty bundle for those locales, the first of them first. It
    /// isolates placeables.
    pub fn new(locales: Vec<String>) -> (r: Self)
        ensures
            r.locales == locales,
            r.resources@.len() == 0,
            r.functions@.len() == 0,
            r.use_isolating,
            r.transform is None,
    {
        FluentBundle {
            locales,
            resources: Vec::new(),
            functions: Vec::new(),
            use_isolating: true,
            transform: None,
        }
    }

    /// Whether placeables are set between isolation marks.
    pub fn set_use_isolating(&mut self, value: bool)
        ensures
            final(self).use_isolating == value,
            final(self).locales == old(self).locales,
            final(self).resources == old(self).resources,
            final(self).functions == old(self).functions,
            final(self).transform == old(self).transform,
    {
        self.use_isolating = value;
    }

    /// Sets the function through which every run of text passes.
    pub fn set_transform(&mut self, transform: Option<T>)
        ensures
            final(self).transform == transform,
            final(self).locales == old(self).locales,
            final(self).resources == old(self).resources,
            final(self).functions == old(self).functions,
            final(self).use_isolating == old(self).use_isolating,
    {
        self.transform = transform;
    }

    /// The locale whose plural rules the bundle goes by.
    pub fn locale(&self) -> (r: &str)
        ensures
            r@ == self.locale_text(),
    {
        if self.locales.len() > 0 {
            self.locales[0].as_str()
        } else {
            proof {
                reveal_strlit("");
                assert(""@ =~= Seq::<char>::empty());
            }
            ""
        }
    }

    /// The message of that name in the first resource that has one.
    pub fn get_entry_message(&self, id: &str) -> (r: Option<&Message<String>>)
        ensures
            match (r, find_message(self.resource_views(), id@, 0)) {
                (Some(m), Some(v)) => m.view() == v,
                (None, None) => true,
                _ => false,
            },
    {
        let mut i: usize = 0;
        while i < self.resources.len()
            invariant
                i <= self.resources@.len(),
                find_message(self.resource_views(), id@, 0) == find_message(
                    self.resource_views(),
                    id@,
                    i as int,
                ),
            decreases self.resources.len() - i,
        {
            let res = self.resources[i].borrow_resource().ast();
            match message_of(&res.body, id) {
                Some(m) => {
                    return Some(m);
                },
                None => {},
            }
            i += 1;
        }
        None
    }

    /// The term of that name in the first resource that has one.
    pub fn get_entry_term(&self, id: &str) -> (r: Option<&Term<String>>)
        ensures
            match (r, find_term(self.resource_views(), id@, 0)) {
                (Some(m), Some(v)) => m.view() == v,
                (None, None) => true,
                _ => false,
            },
    {
        let mut i: usize = 0;
        while i < self.resources.len()
            invariant
                i <= self.resources@.len(),
                find_term(self.resource_views(), id@, 0) == find_term(
                    self.resource_views(),
                    id@,
                    i as int,
                ),
            decreases self.resources.len() - i,
        {
            let res = self.resources[i].borrow_resource().ast();
            match term_of(&res.body, id) {
                Some(t) => {
                    return Some(t);
                },
                None => {},
            }
            i += 1;
        }
        None
    }

    /// The index of the function of that name.
    pub fn get_entry_function(&self, id: &str) -> (r: Option<usize>)
        ensures
            r is Some == has_function(self.function_names(), id@),
            r matches Some(i) ==> i < self.functions@.len() && self.functions@[i as int].0@ == id@,
    {
        let mut i: usize = 0;
        while i < self.functions.len()
            invariant
                i <= self.functions@.len(),
                forall|j: int| 0 <= j < i ==> self.function_names()[j] != id@,
            decreases self.functions.len() - i,
        {
            if str_eq(self.functions[i].0.as_str(), id) {
                assert(self.function_names()[i as int] == id@);
                return Some(i);
            }
            i += 1;
        }
        None
    }

    /// Adds a function under that name, unless the bundle has one of that
    /// name already.
    pub fn add_function(&mut self, id: &str, func: F) -> (res: Result<(), FluentError>)
        ensures
            final(self).locales == old(self).locales,
            final(self).resources == old(self).resources,
            final(self).use_isolating == old(self).use_isolating,
            final(self).transform == old(self).transform,
            match res {
                Ok(_) => !has_function(old(self).function_names(), id@)
                    && final(self).functions@.len() == old(self).functions@.len() + 1
                        && final(self).functions@.subrange(0, old(self).functions@.len() as int)
                            == old(
                    self,
                ).functions@ && final(self).functions@.last().0@ == id@
                    && final(self).functions@.last().1 == func,
                Err(e) => has_function(old(self).function_names(), id@) && final(self).functions
                    == old(self).functions && e.view() == (FluentErrorView::Overriding {
                    kind: "function"@,
                    id: id@,
                }),
            },
    {
        if self.get_entry_function(id).is_some() {
            return Err(FluentError::Overriding { kind: "function", id: String::from_str(id) });
        }
        self.functions.push((String::from_str(id), func));
        assert(self.functions@.subrange(0, old(self).functions@.len() as int) =~= old(
            self,
        ).functions@);
        Ok(())
    }

    /// Whether the bundle has a message of that name.
    pub fn has_message(&self, id: &str) -> (r: bool)
        ensures
            r == find_message(self.resource_views(), id@, 0) is Some,
    {
        self.get_entry_message(id).is_some()
    }

    /// The message of that name in the first resource that has one: its
    /// value and its attributes.
    pub fn get_message(&self, id: &str) -> (r: Option<FluentMessage<'_, String>>)
        ensures
            match (r, find_message(self.resource_views(), id@, 0)) {
                (Some(m), Some(v)) => {
                    &&& match (m.value, v.value) {
                        (Some(p), Some(q)) => p.view() == q,
                        (None, None) => true,
                        _ => false,
                    }
                    &&& m.attributes@.len() == v.attributes.len()
                    &&& forall|i: int|
                        0 <= i < m.attributes@.len() ==> (#[trigger] m.attributes@[i]).id@
                            == v.attributes[i].id && m.attributes@[i].value.view()
                            == v.attributes[i].value
                },
                (None, None) => true,
                _ => false,
            },
    {
        match self.get_entry_message(id) {
            Some(msg) => {
                let mut attributes: Vec<FluentAttribute<'_, String>> = Vec::new();
                let mut i: usize = 0;
                while i < msg.attributes.len()
                    invariant
                        i <= msg.attributes@.len(),
                        attributes@.len() == i,
                        forall|j: int|
                            0 <= j < i ==> (#[trigger] attributes@[j]).id@
                                == msg.attributes@[j].id.view() && attributes@[j].value.view()
                                == msg.attributes@[j].value.view(),
                    decreases msg.attributes.len() - i,
                {
                    let a = &msg.attributes[i];
                    attributes.push(FluentAttribute { id: a.id.name.as_str(), value: &a.value });
                    i += 1;
                }
                Some(
                    FluentMessage {
                        value: match &msg.value {
                            Some(p) => Some(p),
                            None => None,
                        },
                        attributes,
                    },
                )
            },
            None => None,
        }
    }

    /// Adds a resource behind those that are there. Where a message or a term
    /// of the resource has the name of one that the bundle holds already, the
    /// one held stays the one that is found, and the result lists each such
    /// name.
    pub fn add_resource(&mut self, r: R) -> (res: Result<(), Vec<FluentError>>)
        ensures
            final(self).resources@ == old(self).resources@.push(r),
            final(self).locales == old(self).locales,
            final(self).functions == old(self).functions,
            final(self).use_isolating == old(self).use_isolating,
            final(self).transform == old(self).transform,
            match res {
                Ok(_) => overrides(old(self).resource_views(), r.resource().view().body, 0).len()
                    == 0,
                Err(e) => e@.len() > 0 && fluent_error_views(e@) == overrides(
                    old(self).resource_views(),
                    r.resource().view().body,
                    0,
                ),
            },
    {
        let mut errors: Vec<FluentError> = Vec::new();
        {
            let body = &r.borrow_resource().ast().body;
            let ghost views = entry_views(body@);
            let ghost held = self.resource_views();
            let mut i: usize = 0;
            assert(fluent_error_views(errors@) =~= Seq::empty());
            assert(Seq::<FluentErrorView>::empty() + overrides(held, views, 0) =~= overrides(
                held,
                views,
                0,
            ));
            while i < body.len()
                invariant
                    i <= body@.len(),
                    views == entry_views(body@),
                    held == self.resource_views(),
                    overrides(held, views, 0) == fluent_error_views(errors@) + overrides(
                        held,
                        views,
                        i as int,
                    ),
                decreases body.len() - i,
            {
                let ghost before = fluent_error_views(errors@);
                let ghost rest = overrides(held, views, i + 1);
                match &body[i] {
                    ResourceEntry::Entry(Entry::Message(m)) => {
                        let id = m.id.name.as_str();
                        if self.get_entry_message(id).is_some() || seen_message(body, i, id) {
                            let e = FluentError::Overriding {
                                kind: "message",
                                id: String::from_str(id),
                            };
                            errors.push(e);
                            assert(fluent_error_views(errors@) =~= before.push(e.view()));
                            assert(before.push(e.view()) + rest =~= before + (seq![e.view()]
                                + rest));
                        }
                    },
                    ResourceEntry::Entry(Entry::Term(t)) => {
                        let id = t.id.name.as_str();
                        if self.get_entry_term(id).is_some() || seen_term(body, i, id) {
                            let e = FluentError::Overriding {
                                kind: "term",
                                id: String::from_str(id),
                            };
                            errors.push(e);
                            assert(fluent_error_views(errors@) =~= before.push(e.view()));
                            assert(before.push(e.view()) + rest =~= before + (seq![e.view()]
                                + rest));
                        }
                    },
                    _ => {},
                }
                i += 1;
            }
            assert(fluent_error_views(errors@) + Seq::<FluentErrorView>::empty()
                =~= fluent_error_views(errors@));
        }
        self.resources.push(r);
        if errors.len() == 0 {
            Ok(())
        } else {
            Err(errors)
        }
    }
}

/// Whether a message of that name stands among the first `end` entries.
fn seen_message(body: &Vec<ResourceEntry<String>>, end: usize, id: &str) -> (r: bool)
    requires
        end <= body@.len(),
    ensures
        r == message_in(entry_views(body@).subrange(0, end as int), id@, 0)
            is Some,
{
    let ghost views = entry_views(body@).subrange(0, end as int);
    let mut i: usize = 0;
    while i < end
        invariant
            i <= end <= body@.len(),
            views == entry_views(body@).subrange(0, end as int),
            message_in(views, id@, 0) == message_in(views, id@, i as int),
        decreases end - i,
    {
        match &body[i] {
            ResourceEntry::Entry(Entry::Message(m)) => {
                if str_eq(m.id.name.as_str(), id) {
                    assert(named_message(views[i as int], id@) == Some(m.view()));
                    return true;
                }
            },
            _ => {},
        }
        assert(named_message(views[i as int], id@) is None);
        i += 1;
    }
    false
}

/// Whether a term of that name stands among the first `end` entries.
fn seen_term(body: &Vec<ResourceEntry<String>>, end: usize, id: &str) -> (r: bool)
    requires
        end <= body@.len(),
    ensures
        r == term_in(entry_views(body@).subrange(0, end as int), id@, 0)
            is Some,
{
    let ghost views = entry_views(body@).subrange(0, end as int);
    let mut i: usize = 0;
    while i < end
        invariant
            i <= end <= body@.len(),
            views == entry_views(body@).subrange(0, end as int),
            term_in(views, id@, 0) == term_in(views, id@, i as int),
        decreases end - i,
    {
        match &body[i] {
            ResourceEntry::Entry(Entry::Term(t)) => {
                if str_eq(t.id.name.as_str(), id) {
                    assert(named_term(views[i as int], id@) == Some(t.view()));
                    return true;
                }
            },
            _ => {},
        }
        assert(named_term(views[i as int], id@) is None);
        i += 1;
    }
    false
}

} // verus!
