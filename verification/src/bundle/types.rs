use crate::bundle::number::FluentNumber;
use crate::bundle::plural::is_category;
use crate::bundle::rendering::{number_or_text, value_matches, value_text, ValueView};
use crate::syntax::slice::{Slice, str_eq};
use vstd::prelude::*;
use vstd::string::*;

verus! {

/// A value that can write itself.
pub trait FluentType {
    /// The text that the value writes.
    spec fn written(&self) -> Seq<char>;

    /// Appends the value to `w`.
    fn write(&self, w: &mut String)
        ensures
            final(w)@ == old(w)@ + self.written(),
    ;
}

impl FluentType for FluentNumber {
    open spec fn written(&self) -> Seq<char> {
        self.view()
    }

    fn write(&self, w: &mut String) {
        w.append(self.as_str());
    }
}

/// A value at run time: text, a number, or the mark of an error.
#[derive(Debug)]
pub enum FluentValue<S> {
    String(S),
    Number(FluentNumber),
    Error,
}

impl<S: Slice> FluentValue<S> {
    pub open spec fn view(&self) -> ValueView {
        match self {
            FluentValue::String(s) => ValueView::String(s.text()),
            FluentValue::Number(n) => ValueView::Number(n.view()),
            FluentValue::Error => ValueView::Error,
        }
    }

    /// Appends the value to `w`: text as it is, a number as it was written,
    /// an error as nothing.
    pub fn write(&self, w: &mut String)
        ensures
            final(w)@ == old(w)@ + value_text(self.view()),
    {
        match self {
            FluentValue::String(s) => {
                s.write(w);
            },
            FluentValue::Number(num) => {
                num.write(w);
            },
            FluentValue::Error => {
                assert(w@ =~= w@ + Seq::<char>::empty());
            },
        }
    }

    /// The same value over the borrowed text.
    pub fn borrowed(&self) -> (r: FluentValue<&str>)
        ensures
            r.view() == self.view(),
    {
        match self {
            FluentValue::String(s) => FluentValue::String(s.as_str()),
            FluentValue::Number(n) => FluentValue::Number(n.duplicate()),
            FluentValue::Error => FluentValue::Error,
        }
    }

    /// The same value over owned text.
    pub fn to_owned(&self) -> (r: FluentValue<String>)
        ensures
            r.view() == self.view(),
    {
        match self {
            FluentValue::String(s) => FluentValue::String(String::from_str(s.as_str())),
            FluentValue::Number(n) => FluentValue::Number(n.duplicate()),
            FluentValue::Error => FluentValue::Error,
        }
    }

    /// The number that `v` is, where it is a number literal, else the text
    /// `v`.
    pub fn try_number(v: S) -> (r: Self)
        ensures
            r.view() == number_or_text(v.text()),
    {
        match FluentNumber::from_str(v.as_str()) {
            Some(num) => FluentValue::Number(num),
            None => FluentValue::String(v),
        }
    }

    /// Whether this value, the key of a variant, matches the selector `other`
    /// under the plural rules of `locale`.
    pub fn matches_in<V: Slice>(&self, other: &FluentValue<V>, locale: &str) -> (r: bool)
        ensures
            r == value_matches(self.view(), other.view(), locale@),
    {
        match self {
            FluentValue::String(a) => match other {
                FluentValue::String(b) => str_eq(a.as_str(), b.as_str()),
                FluentValue::Number(b) => is_category(locale, a.as_str(), b.as_str()),
                FluentValue::Error => false,
            },
            FluentValue::Number(a) => match other {
                FluentValue::Number(b) => a.same(b),
                _ => false,
            },
            FluentValue::Error => false,
        }
    }
}

} // verus!
