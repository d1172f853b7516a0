use crate::bundle::args::FluentArgs;
use crate::bundle::errors::{fluent_error_views, FluentError, FluentErrorView};
use crate::bundle::fluent_bundle::{BorrowResource, FluentBundle};
use crate::bundle::rendering::{ArgsView, CallView, find_message};
use crate::bundle::resolver::{args_view, callable, formats, honest, tail};
use crate::bundle::types::FluentValue;
use crate::fallback::errors::{
    as_bundle_errors, extend_with, localization_error_views, LocalizationError,
    LocalizationErrorView, push_error,
};
use crate::syntax::ast::PatternView;
use crate::syntax::slice::Slice;
use vstd::prelude::*;
use vstd::string::*;

verus! {

/// A bundle as its generator hands it out: whole, or with the errors met
/// while it was put together.
pub type FluentBundleResult<R, F, T> = Result<
    FluentBundle<R, F, T>,
    (FluentBundle<R, F, T>, Vec<FluentError>),
>;

/// The bundle of a result.
pub open spec fn bundle_of<R, F, T>(r: FluentBundleResult<R, F, T>) -> FluentBundle<R, F, T> {
    match r {
        Ok(b) => b,
        Err((b, _)) => b,
    }
}

/// The errors that came with a bundle.
pub open spec fn errors_of<R, F, T>(r: FluentBundleResult<R, F, T>) -> Seq<FluentErrorView> {
    match r {
        Ok(_) => Seq::empty(),
        Err((_, e)) => fluent_error_views(e@),
    }
}

/// Every bundle can be asked: it names its locale, and its functions and its
/// transform can be called on every input.
pub open spec fn askable<R, F, T>(bundles: Seq<FluentBundleResult<R, F, T>>) -> bool where
    F: Fn(&[FluentValue<String>], &FluentArgs<String>) -> FluentValue<String>,
    T: Fn(&str) -> String,
 {
    forall|i: int|
        0 <= i < bundles.len() ==> (#[trigger] bundle_of(bundles[i])).locales@.len() > 0
            && callable(&bundle_of(bundles[i]))
}

/// What one call of the resolver has written and the errors that it met.
pub ghost struct Formatting {
    pub out: Seq<char>,
    pub errors: Seq<FluentErrorView>,
}

/// The bundle has made that of the pattern in one call of its resolver: its
/// functions and its transform have returned what makes the resolver write
/// that and meet those errors.
pub open spec fn made_by<R: BorrowResource, F, T>(
    b: FluentBundle<R, F, T>,
    p: PatternView,
    args: Option<ArgsView>,
    f: Formatting,
) -> bool where
    F: Fn(&[FluentValue<String>], &FluentArgs<String>) -> FluentValue<String>,
    T: Fn(&str) -> String,
 {
    exists|calls: Seq<CallView>| #[trigger]
        honest(&b, calls) && formats(&b, p, args, calls, f.out, f.errors)
}

/// The sequence `all` begins with `made`.
pub open spec fn starts<X>(all: Seq<X>, made: Seq<X>) -> bool {
    made.len() <= all.len() && forall|i: int| 0 <= i < made.len() ==> #[trigger] all[i] == made[i]
}

/// What begins with a sequence and one more begins with the sequence, and
/// has that one behind it.
pub proof fn lemma_starts_push<X>(made: Seq<X>, x: X)
    ensures
        starts(made, made),
        forall|all: Seq<X>| #[trigger]
            starts(all, made.push(x)) ==> starts(all, made) && all[made.len() as int] == x,
{
    assert forall|all: Seq<X>| #[trigger] starts(all, made.push(x)) implies starts(all, made)
        && all[made.len() as int] == x by {
        assert(all[made.len() as int] == made.push(x)[made.len() as int]);
        assert forall|i: int| 0 <= i < made.len() implies #[trigger] all[i] == made[i] by {
            assert(all[i] == made.push(x)[i]);
        }
    }
}

/// Any formatting at all.
pub open spec fn any_formatting(f: Formatting) -> bool {
    true
}

/// What a walk along the bundles comes to. It is decided where the bundle
/// that gave the value has made it so.
pub ghost struct ValueWalk {
    pub value: Option<Seq<char>>,
    pub errors: Seq<LocalizationErrorView>,
    pub decided: bool,
}

/// The error of the resolver, where it met any.
pub open spec fn resolver_errors(id: Seq<char>, locale: Seq<char>,
    errors: Seq<FluentErrorView>) -> Seq<
    LocalizationErrorView,
> {
    if errors.len() > 0 {
        seq![LocalizationErrorView::Resolver { id, locale, errors }]
    } else {
        Seq::empty()
    }
}

/// The walk with `errors` met before it.
pub open spec fn after(errors: Seq<LocalizationErrorView>, w: ValueWalk) -> ValueWalk {
    ValueWalk { value: w.value, errors: errors + w.errors, decided: w.decided }
}

/// The value of the message of that name along the bundles from `i` on: that
/// of the first bundle in which the message has a value, `f` being what that
/// bundle makes of it. Each bundle before it leaves an error that says what
/// it lacks, and where none has a value the last error says whether any had
/// the message.
pub open spec fn value_walk<R: BorrowResource, F, T>(
    bundles: Seq<FluentBundleResult<R, F, T>>,
    i: int,
    id: Seq<char>,
    args: Option<ArgsView>,
    found: bool,
    f: Formatting,
) -> ValueWalk where
    F: Fn(&[FluentValue<String>], &FluentArgs<String>) -> FluentValue<String>,
    T: Fn(&str) -> String,

    decreases bundles.len() - i,
{
    if !(0 <= i < bundles.len()) {
        ValueWalk {
            value: None,
            errors: seq![
                if found {
                    LocalizationErrorView::MissingValue { id, locale: None }
                } else {
                    LocalizationErrorView::MissingMessage { id, locale: None }
                },
            ],
            decided: true,
        }
    } else {
        let b = bundle_of(bundles[i]);
        let locale = b.locales@[0]@;
        let came = as_bundle_errors(errors_of(bundles[i]));
        match find_message(b.resource_views(), id, 0) {
            Some(m) => match m.value {
                Some(p) => ValueWalk {
                    value: Some(f.out),
                    errors: came + resolver_errors(id, locale, f.errors),
                    decided: made_by(b, p, args, f),
                },
                None => after(
                    came.push(LocalizationErrorView::MissingValue { id, locale: Some(locale) }),
                    value_walk(bundles, i + 1, id, args, true, f),
                ),
            },
            None => after(
                came.push(LocalizationErrorView::MissingMessage { id, locale: Some(locale) }),
                value_walk(bundles, i + 1, id, args, found, f),
            ),
        }
    }
}

/// The bundle of a result, with the errors that came with it noted.
pub fn open_bundle<'a, R, F, T>(
    result: &'a FluentBundleResult<R, F, T>,
    errors: &mut Vec<LocalizationError>,
) -> (r: &'a FluentBundle<R, F, T>)
    ensures
        *r == bundle_of(*result),
        localization_error_views(final(errors)@) == localization_error_views(old(errors)@)
            + as_bundle_errors(errors_of(*result)),
{
    match result {
        Ok(bundle) => {
            assert(localization_error_views(errors@) + Seq::<LocalizationErrorView>::empty()
                =~= localization_error_views(errors@));
            assert(as_bundle_errors(Seq::empty()) =~= Seq::empty());
            bundle
        },
        Err((bundle, err)) => {
            extend_with(errors, err);
            bundle
        },
    }
}

/// What one bundle says of the message of that name.
pub enum Visit {
    /// The value, resolved.
    Value(String),
    /// The bundle has the message, without a value.
    MissingValue,
    /// The bundle has no such message.
    MissingMessage,
}

/// Asks one bundle for the value of the message of that name.
pub fn visit_value<'s, R: BorrowResource, F, T, A: Slice>(
    bundle: &'s FluentBundle<R, F, T>,
    id: &str,
    args: Option<&'s FluentArgs<A>>,
    errors: &mut Vec<LocalizationError>,
) -> (r: Visit) where
    F: Fn(&[FluentValue<String>], &FluentArgs<String>) -> FluentValue<String>,
    T: Fn(&str) -> String,

    requires
        callable(bundle),
        bundle.locales@.len() > 0,
    ensures
        match find_message(bundle.resource_views(), id@, 0) {
            Some(m) => match m.value {
                Some(p) => r is Value && exists|f: Formatting| #[trigger]
                    made_by(*bundle, p, args_view(args), f) && r->Value_0@ == f.out
                        && localization_error_views(final(errors)@) == localization_error_views(
                        old(errors)@,
                    ) + resolver_errors(id@, bundle.locales@[0]@, f.errors),
                None => r is MissingValue && localization_error_views(final(errors)@)
                    == localization_error_views(old(errors)@).push(
                    LocalizationErrorView::MissingValue {
                        id: id@,
                        locale: Some(bundle.locales@[0]@),
                    },
                ),
            },
            None => r is MissingMessage && localization_error_views(final(errors)@)
                == localization_error_views(old(errors)@).push(
                LocalizationErrorView::MissingMessage {
                    id: id@,
                    locale: Some(bundle.locales@[0]@),
                },
            ),
        },
{
    match bundle.get_entry_message(id) {
        Some(msg) => match &msg.value {
            Some(value) => {
                let mut format_errors: Vec<FluentError> = Vec::new();
                let mut result = String::new();
                assert(fluent_error_views(format_errors@) =~= Seq::empty());
                bundle.format_pattern(&mut result, value, args, &mut format_errors);
                let ghost f = Formatting {
                    out: result@,
                    errors: fluent_error_views(format_errors@),
                };
                proof {
                    assert(tail(Seq::<char>::empty(), result@) =~= result@);
                    assert(fluent_error_views(format_errors@).skip(0) =~= fluent_error_views(
                        format_errors@,
                    ));
                    assert(made_by(*bundle, value.view(), args_view(args), f));
                    assert(localization_error_views(errors@) + Seq::<
                        LocalizationErrorView,
                    >::empty() =~= localization_error_views(errors@));
                }
                let ghost before = localization_error_views(errors@);
                if format_errors.len() > 0 {
                    let e = LocalizationError::Resolver {
                        id: String::from_str(id),
                        locale: bundle.locales[0].clone(),
                        errors: format_errors,
                    };
                    push_error(errors, e);
                    assert(before.push(e.view()) =~= before + seq![e.view()]);
                }
                proof {
                    let p = find_message(bundle.resource_views(), id@, 0).unwrap().value.unwrap();
                    assert(p == value.view());
                    assert(before + Seq::<LocalizationErrorView>::empty() =~= before);
                    assert(made_by(*bundle, p, args_view(args), f) && result@ == f.out
                        && localization_error_views(errors@) == before + resolver_errors(
                        id@,
                        bundle.locales@[0]@,
                        f.errors,
                    ));
                }
                Visit::Value(result)
            },
            None => {
                push_error(
                    errors,
                    LocalizationError::MissingValue {
                        id: String::from_str(id),
                        locale: Some(bundle.locales[0].clone()),
                    },
                );
                Visit::MissingValue
            },
        },
        None => {
            push_error(
                errors,
                LocalizationError::MissingMessage {
                    id: String::from_str(id),
                    locale: Some(bundle.locales[0].clone()),
                },
            );
            Visit::MissingMessage
        },
    }
}

/// Notes how a walk has ended that found no value: with a message that has
/// none, or without the message.
pub fn finish_value(id: &str, found_message: bool, errors: &mut Vec<LocalizationError>)
    ensures
        localization_error_views(final(errors)@) == localization_error_views(old(errors)@).push(
            if found_message {
                LocalizationErrorView::MissingValue { id: id@, locale: None }
            } else {
                LocalizationErrorView::MissingMessage { id: id@, locale: None }
            },
        ),
{
    let last = if found_message {
        LocalizationError::MissingValue { id: String::from_str(id), locale: None }
    } else {
        LocalizationError::MissingMessage { id: String::from_str(id), locale: None }
    };
    push_error(errors, last);
}

/// The value of the message of that name: that of the first bundle in which
/// the message has a value. The errors met on the way are appended to
/// `errors`.
pub fn format_value_sync<'s, R: BorrowResource, F, T, A: Slice>(
    bundles: &'s Vec<FluentBundleResult<R, F, T>>,
    id: &str,
    args: Option<&'s FluentArgs<A>>,
    errors: &mut Vec<LocalizationError>,
) -> (r: Option<String>) where
    F: Fn(&[FluentValue<String>], &FluentArgs<String>) -> FluentValue<String>,
    T: Fn(&str) -> String,

    requires
        askable(bundles@),
    ensures
        exists|f: Formatting|
            {
                let m = #[trigger] value_walk(bundles@, 0, id@, args_view(args), false, f);
                m.decided && optional_view(r) == m.value && localization_error_views(
                    final(errors)@,
                ) == localization_error_views(old(errors)@) + m.errors
            },
{
    let mut found_message = false;
    let ghost e0 = localization_error_views(errors@);
    let ghost mut met = Seq::<LocalizationErrorView>::empty();
    let mut i: usize = 0;
    proof {
        assert(e0 + met =~= e0);
        assert forall|f: Formatting| #[trigger] any_formatting(f) implies value_walk(
            bundles@,
            0,
            id@,
            args_view(args),
            false,
            f,
        ) == after(met, value_walk(bundles@, 0, id@, args_view(args), found_message, f)) by {
            let m = value_walk(bundles@, 0, id@, args_view(args), false, f);
            assert(met + m.errors =~= m.errors);
        }
    }
    while i < bundles.len()
        invariant
            i <= bundles@.len(),
            askable(bundles@),
            e0 == localization_error_views(old(errors)@),
            localization_error_views(errors@) == e0 + met,
            forall|f: Formatting| #[trigger]
                any_formatting(f) ==> value_walk(bundles@, 0, id@, args_view(args), false, f)
                    == after(
                    met,
                    value_walk(bundles@, i as int, id@, args_view(args), found_message, f),
                ),
        decreases bundles.len() - i,
    {
        let ghost before = localization_error_views(errors@);
        let ghost came = as_bundle_errors(errors_of(bundles@[i as int]));
        let bundle = open_bundle(&bundles[i], errors);
        assert(*bundle == bundle_of(bundles@[i as int]));
        let ghost locale = bundle.locales@[0]@;
        let ghost opened = localization_error_views(errors@);
        assert(opened == before + came);
        match visit_value(bundle, id, args, errors) {
            Visit::Value(result) => {
                proof {
                    let found = find_message(bundle.resource_views(), id@, 0).unwrap();
                    let p = found.value.unwrap();
                    let f = choose|f: Formatting| #[trigger]
                        made_by(*bundle, p, args_view(args), f) && result@ == f.out
                            && localization_error_views(errors@) == opened + resolver_errors(
                            id@,
                            locale,
                            f.errors,
                        );
                    assert(any_formatting(f));
                    let here = value_walk(
                        bundles@,
                        i as int,
                        id@,
                        args_view(args),
                        found_message,
                        f,
                    );
                    let res = resolver_errors(id@, locale, f.errors);
                    assert(here.errors == came + res);
                    assert((e0 + met) + came + res =~= e0 + (met + (came + res)));
                    let m = value_walk(bundles@, 0, id@, args_view(args), false, f);
                    assert(m.decided && m.value == Some(result@));
                }
                return Some(result);
            },
            Visit::MissingValue => {
                found_message = true;
                proof {
                    let e = LocalizationErrorView::MissingValue { id: id@, locale: Some(locale) };
                    assert(localization_error_views(errors@) =~= e0 + (met + came.push(e)));
                    assert forall|f: Formatting| #[trigger] any_formatting(f) implies value_walk(
                        bundles@,
                        0,
                        id@,
                        args_view(args),
                        false,
                        f,
                    ) == after(
                        met + came.push(e),
                        value_walk(bundles@, i + 1, id@, args_view(args), true, f),
                    ) by {
                        let next = value_walk(bundles@, i + 1, id@, args_view(args), true, f);
                        let here = value_walk(bundles@, i as int, id@, args_view(args), false, f);
                        let here2 = value_walk(bundles@, i as int, id@, args_view(args), true, f);
                        assert(met + (came.push(e) + next.errors) =~= (met + came.push(e))
                            + next.errors);
                    }
                    met = met + came.push(e);
                }
            },
            Visit::MissingMessage => {
                proof {
                    let e = LocalizationErrorView::MissingMessage {
                        id: id@,
                        locale: Some(locale),
                    };
                    assert(localization_error_views(errors@) =~= e0 + (met + came.push(e)));
                    assert forall|f: Formatting| #[trigger] any_formatting(f) implies value_walk(
                        bundles@,
                        0,
                        id@,
                        args_view(args),
                        false,
                        f,
                    ) == after(
                        met + came.push(e),
                        value_walk(bundles@, i + 1, id@, args_view(args), found_message, f),
                    ) by {
                        let next = value_walk(
                            bundles@,
                            i + 1,
                            id@,
                            args_view(args),
                            found_message,
                            f,
                        );
                        let here = value_walk(
                            bundles@,
                            i as int,
                            id@,
                            args_view(args),
                            found_message,
                            f,
                        );
                        assert(met + (came.push(e) + next.errors) =~= (met + came.push(e))
                            + next.errors);
                    }
                    met = met + came.push(e);
                }
            },
        }
        i += 1;
    }
    let ghost walked = localization_error_views(errors@);
    finish_value(id, found_message, errors);
    proof {
        let last = localization_error_views(errors@)[walked.len() as int];
        assert(localization_error_views(errors@) =~= e0 + (met + seq![last]));
        let f = Formatting { out: Seq::empty(), errors: Seq::empty() };
        assert(any_formatting(f));
        let end = value_walk(bundles@, i as int, id@, args_view(args), found_message, f);
        let m = value_walk(bundles@, 0, id@, args_view(args), false, f);
        assert(m == after(met, end));
    }
    None
}

/// The text of an optional string.
pub open spec fn optional_view(s: Option<String>) -> Option<Seq<char>> {
    match s {
        Some(t) => Some(t@),
        None => None,
    }
}

/// Adding bundles of lower priority changes neither the value nor the errors
/// of a message that the bundles before them resolve, whatever the bundle
/// that resolves it makes of it.
pub proof fn law_fallback_monotone<R: BorrowResource, F, T>(
    bundles: Seq<FluentBundleResult<R, F, T>>,
    more: Seq<FluentBundleResult<R, F, T>>,
    i: int,
    id: Seq<char>,
    args: Option<ArgsView>,
    found: bool,
    f: Formatting,
) where
    F: Fn(&[FluentValue<String>], &FluentArgs<String>) -> FluentValue<String>,
    T: Fn(&str) -> String,

    requires
        0 <= i <= bundles.len(),
        value_walk(bundles, i, id, args, found, f).value is Some,
    ensures
        value_walk(bundles + more, i, id, args, found, f) == value_walk(
            bundles,
            i,
            id,
            args,
            found,
            f,
        ),
    decreases bundles.len() - i,
{
    if i < bundles.len() {
        assert((bundles + more)[i] == bundles[i]);
        let b = bundle_of(bundles[i]);
        match find_message(b.resource_views(), id, 0) {
            Some(m) => match m.value {
                Some(p) => {},
                None => {
                    law_fallback_monotone(bundles, more, i + 1, id, args, true, f);
                },
            },
            None => {
                law_fallback_monotone(bundles, more, i + 1, id, args, found, f);
            },
        }
    }
}

} // verus!
