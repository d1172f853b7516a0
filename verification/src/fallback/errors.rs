use crate::bundle::errors::{fluent_error_views, FluentError, FluentErrorView};
use vstd::prelude::*;

verus! {

/// What went wrong while a message was looked for along the chain of
/// locales.
#[allow(inconsistent_fields)]
#[derive(Debug, PartialEq)]
pub enum LocalizationError {
    /// An error that came with a bundle.
    Bundle { error: FluentError },
    /// The errors met while a message of that locale was resolved.
    Resolver { id: String, locale: String, errors: Vec<FluentError> },
    /// No message of that name: in the bundle of that locale, or in none.
    MissingMessage { id: String, locale: Option<String> },
    /// The message of that name has no value: in the bundle of that locale,
    /// or in none.
    MissingValue { id: String, locale: Option<String> },
    /// A call that does not wait was made while the bundles come with waiting.
    SyncRequestInAsyncMode,
}

pub ghost enum LocalizationErrorView {
    Bundle { error: FluentErrorView },
    Resolver { id: Seq<char>, locale: Seq<char>, errors: Seq<FluentErrorView> },
    MissingMessage { id: Seq<char>, locale: Option<Seq<char>> },
    MissingValue { id: Seq<char>, locale: Option<Seq<char>> },
    SyncRequestInAsyncMode,
}

/// The text of an optional string.
pub open spec fn optional_text(s: Option<String>) -> Option<Seq<char>> {
    match s {
        Some(t) => Some(t@),
        None => None,
    }
}

impl LocalizationError {
    pub open spec fn view(&self) -> LocalizationErrorView {
        match self {
            LocalizationError::Bundle { error } => LocalizationErrorView::Bundle {
                error: error.view(),
            },
            LocalizationError::Resolver { id, locale, errors } => LocalizationErrorView::Resolver {
                id: id@,
                locale: locale@,
                errors: fluent_error_views(errors@),
            },
            LocalizationError::MissingMessage { id, locale } => {
                LocalizationErrorView::MissingMessage { id: id@, locale: optional_text(*locale) }
            },
            LocalizationError::MissingValue { id, locale } => LocalizationErrorView::MissingValue {
                id: id@,
                locale: optional_text(*locale),
            },
            LocalizationError::SyncRequestInAsyncMode => {
                LocalizationErrorView::SyncRequestInAsyncMode
            },
        }
    }
}

/// The views of a vector of errors.
pub open spec fn localization_error_views(v: Seq<LocalizationError>) -> Seq<
    LocalizationErrorView,
> {
    Seq::new(v.len(), |i: int| v[i].view())
}

/// The errors that came with a bundle as errors of the chain.
pub open spec fn as_bundle_errors(v: Seq<FluentErrorView>) -> Seq<LocalizationErrorView> {
    Seq::new(v.len(), |i: int| LocalizationErrorView::Bundle { error: v[i] })
}

/// Appends one error.
pub fn push_error(errors: &mut Vec<LocalizationError>, e: LocalizationError)
    ensures
        localization_error_views(final(errors)@) == localization_error_views(old(errors)@).push(
            e.view(),
        ),
{
    let ghost before = localization_error_views(errors@);
    errors.push(e);
    assert(localization_error_views(errors@) =~= before.push(e.view()));
}

/// Appends copies of the errors that came with a bundle.
pub fn extend_with(errors: &mut Vec<LocalizationError>, found: &Vec<FluentError>)
    ensures
        localization_error_views(final(errors)@) == localization_error_views(old(errors)@)
            + as_bundle_errors(fluent_error_views(found@)),
{
    let ghost before = localization_error_views(errors@);
    let ghost all = fluent_error_views(found@);
    let mut i: usize = 0;
    assert(before + as_bundle_errors(all.subrange(0, 0)) =~= before);
    while i < found.len()
        invariant
            i <= found@.len(),
            all == fluent_error_views(found@),
            localization_error_views(errors@) == before + as_bundle_errors(
                all.subrange(0, i as int),
            ),
        decreases found.len() - i,
    {
        let e = LocalizationError::Bundle { error: found[i].duplicate() };
        let ghost views = localization_error_views(errors@);
        push_error(errors, e);
        assert(before + as_bundle_errors(all.subrange(0, i + 1)) =~= (before + as_bundle_errors(
            all.subrange(0, i as int),
        )).push(e.view()));
        i += 1;
    }
    assert(all.subrange(0, all.len() as int) =~= all);
}

} // verus!
