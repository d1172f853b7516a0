use crate::bundle::rendering::{category_named, plural_category, PluralCategory};
use crate::syntax::slice::str_eq;
use vstd::prelude::*;

verus! {

/// `unic_langid::LanguageIdentifier::from_str` reads the locale,
/// `intl_pluralrules::PluralRules::create` finds its cardinal rules and
/// `PluralRules::select` applies them to the number: the result is the
/// category that those rules give, and none where the locale cannot be read or
/// has no rules, or the number cannot be read. It depends on the two
/// arguments alone.
#[verifier::external_body]
fn select_category(locale: &str, number: &str) -> (r: Option<PluralCategory>)
    ensures
        r == plural_category(locale@, number@),
{
    let lang: unic_langid::LanguageIdentifier = locale.parse().ok()?;
    let kind = intl_pluralrules::PluralRuleType::CARDINAL;
    match intl_pluralrules::PluralRules::create(lang, kind).ok()?.select(number).ok()? {
        intl_pluralrules::PluralCategory::ZERO => Some(PluralCategory::Zero),
        intl_pluralrules::PluralCategory::ONE => Some(PluralCategory::One),
        intl_pluralrules::PluralCategory::TWO => Some(PluralCategory::Two),
        intl_pluralrules::PluralCategory::FEW => Some(PluralCategory::Few),
        intl_pluralrules::PluralCategory::MANY => Some(PluralCategory::Many),
        intl_pluralrules::PluralCategory::OTHER => Some(PluralCategory::Other),
    }
}

/// The category that `name` stands for: one of `zero`, `one`, `two`, `few`,
/// `many`, `other`.
pub fn category_from_name(name: &str) -> (r: Option<PluralCategory>)
    ensures
        r == category_named(name@),
{
    if str_eq(name, "zero") {
        Some(PluralCategory::Zero)
    } else if str_eq(name, "one") {
        Some(PluralCategory::One)
    } else if str_eq(name, "two") {
        Some(PluralCategory::Two)
    } else if str_eq(name, "few") {
        Some(PluralCategory::Few)
    } else if str_eq(name, "many") {
        Some(PluralCategory::Many)
    } else if str_eq(name, "other") {
        Some(PluralCategory::Other)
    } else {
        None
    }
}

/// Whether the rules of `locale` give `number` the category that `name`
/// stands for.
pub fn is_category(locale: &str, name: &str, number: &str) -> (r: bool)
    ensures
        r == (category_named(name@) is Some && plural_category(locale@, number@)
            == category_named(name@)),
{
    match category_from_name(name) {
        Some(expected) => match select_category(locale, number) {
            Some(found) => found == expected,
            None => false,
        },
        None => false,
    }
}

} // verus!
