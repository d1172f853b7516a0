use crate::bundle::args::FluentArgs;
use crate::bundle::errors::{fluent_error_views, FluentError, FluentErrorView};
use crate::bundle::fluent_bundle::{BorrowResource, FluentBundle};
use crate::bundle::rendering::{ArgsView, find_message};
use crate::bundle::resolver::{args_view, callable, tail};
use crate::bundle::types::FluentValue;
use crate::fallback::errors::{
    as_bundle_errors, localization_error_views, LocalizationError, LocalizationErrorView,
    optional_text, push_error,
};
use crate::fallback::types::{
    key_views, L10nAttribute, L10nKey, L10nKeyView, L10nMessage, L10nMessageView,
};
use crate::fallback::value::{
    askable, bundle_of, errors_of, FluentBundleResult, Formatting, lemma_starts_push, made_by,
    open_bundle, resolver_errors, starts,
};
use crate::syntax::ast::{attribute_views, AttributeView, PatternView};
use crate::syntax::slice::Slice;
use vstd::prelude::*;
use vstd::string::*;

verus! {

/// A message as one bundle resolves it, with the errors met. It is decided
/// where the bundle has made each of its parts so.
pub ghost struct Formed {
    pub message: L10nMessageView,
    pub errors: Seq<FluentErrorView>,
    pub decided: bool,
}

/// The message with the attributes from `j` on resolved behind what `acc`
/// holds, `parts[j + 1]` being what the bundle makes of the `j`-th attribute.
pub open spec fn attributes_formed<R: BorrowResource, F, T>(
    b: FluentBundle<R, F, T>,
    args: Option<ArgsView>,
    attributes: Seq<AttributeView>,
    j: int,
    acc: Formed,
    parts: Seq<Formatting>,
) -> Formed where
    F: Fn(&[FluentValue<String>], &FluentArgs<String>) -> FluentValue<String>,
    T: Fn(&str) -> String,

    decreases attributes.len() - j,
{
    if !(0 <= j < attributes.len()) || !acc.decided {
        acc
    } else if j + 1 >= parts.len() {
        Formed { message: acc.message, errors: acc.errors, decided: false }
    } else {
        attributes_formed(
            b,
            args,
            attributes,
            j + 1,
            Formed {
                message: L10nMessageView {
                    value: acc.message.value,
                    attributes: acc.message.attributes.push((attributes[j].id, parts[j + 1].out)),
                },
                errors: acc.errors + parts[j + 1].errors,
                decided: made_by(b, attributes[j].value, args, parts[j + 1]),
            },
            parts,
        )
    }
}

/// The value of a message as the bundle resolves it, `parts[0]` being what
/// the bundle makes of it.
pub open spec fn value_formed<R: BorrowResource, F, T>(
    b: FluentBundle<R, F, T>,
    args: Option<ArgsView>,
    value: Option<PatternView>,
    parts: Seq<Formatting>,
) -> Formed where
    F: Fn(&[FluentValue<String>], &FluentArgs<String>) -> FluentValue<String>,
    T: Fn(&str) -> String,
 {
    match value {
        Some(p) => Formed {
            message: L10nMessageView {
                value: Some(
                    if parts.len() > 0 {
                        parts[0].out
                    } else {
                        Seq::empty()
                    },
                ),
                attributes: Seq::empty(),
            },
            errors: if parts.len() > 0 {
                parts[0].errors
            } else {
                Seq::empty()
            },
            decided: parts.len() > 0 && made_by(b, p, args, parts[0]),
        },
        None => Formed {
            message: L10nMessageView { value: None, attributes: Seq::empty() },
            errors: Seq::empty(),
            decided: true,
        },
    }
}

/// The message of that key as the bundle resolves it: its value, if it has
/// one, then its attributes in their order. `parts` holds what the bundle
/// makes of the value and, behind it, of each attribute.
pub open spec fn message_formed<R: BorrowResource, F, T>(
    b: FluentBundle<R, F, T>,
    key: L10nKeyView,
    parts: Seq<Formatting>,
) -> Option<Formed> where
    F: Fn(&[FluentValue<String>], &FluentArgs<String>) -> FluentValue<String>,
    T: Fn(&str) -> String,
 {
    match find_message(b.resource_views(), key.id, 0) {
        Some(m) => Some(
            attributes_formed(
                b,
                key.args,
                m.attributes,
                0,
                value_formed(b, key.args, m.value, parts),
                parts,
            ),
        ),
        None => None,
    }
}

/// What a walk knows of its keys.
pub ghost struct MessagePass {
    pub cells: Seq<Option<L10nMessageView>>,
    pub errors: Seq<LocalizationErrorView>,
    pub has_missing: bool,
    pub decided: bool,
}

/// What is known after one bundle was asked for the keys from `k` on that
/// have no message yet, `made[j]` holding what the bundle makes of the parts
/// of the message of the `j`-th key.
pub open spec fn messages_pass<R: BorrowResource, F, T>(
    b: FluentBundle<R, F, T>,
    keys: Seq<L10nKeyView>,
    k: int,
    st: MessagePass,
    made: Seq<Seq<Formatting>>,
) -> MessagePass where
    F: Fn(&[FluentValue<String>], &FluentArgs<String>) -> FluentValue<String>,
    T: Fn(&str) -> String,

    decreases keys.len() - k,
{
    if !(0 <= k < keys.len()) || k >= st.cells.len() || !st.decided {
        st
    } else if st.cells[k] is Some {
        messages_pass(b, keys, k + 1, st, made)
    } else {
        let id = keys[k].id;
        let locale = b.locales@[0]@;
        match message_formed(
            b,
            keys[k],
            if k < made.len() {
                made[k]
            } else {
                Seq::empty()
            },
        ) {
            Some(f) => messages_pass(
                b,
                keys,
                k + 1,
                MessagePass {
                    cells: st.cells.update(k, Some(f.message)),
                    errors: st.errors + resolver_errors(id, locale, f.errors),
                    has_missing: st.has_missing,
                    decided: f.decided,
                },
                made,
            ),
            None => messages_pass(
                b,
                keys,
                k + 1,
                MessagePass {
                    cells: st.cells,
                    errors: st.errors.push(
                        LocalizationErrorView::MissingMessage { id, locale: Some(locale) },
                    ),
                    has_missing: true,
                    decided: true,
                },
                made,
            ),
        }
    }
}

/// What is known after the bundles from `i` on were asked, each for the keys
/// that have no message yet, up to the first bundle that leaves none
/// missing. `has_missing` says whether the walk ended without such a bundle.
/// `made[i]` holds what the `i`-th bundle makes.
pub open spec fn messages_walk<R: BorrowResource, F, T>(
    bundles: Seq<FluentBundleResult<R, F, T>>,
    i: int,
    keys: Seq<L10nKeyView>,
    st: MessagePass,
    made: Seq<Seq<Seq<Formatting>>>,
) -> MessagePass where
    F: Fn(&[FluentValue<String>], &FluentArgs<String>) -> FluentValue<String>,
    T: Fn(&str) -> String,

    decreases bundles.len() - i,
{
    if !(0 <= i < bundles.len()) || !st.decided {
        MessagePass { cells: st.cells, errors: st.errors, has_missing: true, decided: st.decided }
    } else {
        let after = messages_pass(
            bundle_of(bundles[i]),
            keys,
            0,
            MessagePass {
                cells: st.cells,
                errors: st.errors + as_bundle_errors(errors_of(bundles[i])),
                has_missing: false,
                decided: true,
            },
            if i < made.len() {
                made[i]
            } else {
                Seq::empty()
            },
        );
        if !after.has_missing {
            after
        } else {
            messages_walk(bundles, i + 1, keys, after, made)
        }
    }
}

/// The errors with one more, from `k` on, for each key that has no message.
pub open spec fn missing_messages(
    keys: Seq<L10nKeyView>,
    cells: Seq<Option<L10nMessageView>>,
    k: int,
    errors: Seq<LocalizationErrorView>,
) -> Seq<LocalizationErrorView>
    decreases keys.len() - k,
{
    if !(0 <= k < keys.len()) || k >= cells.len() {
        errors
    } else {
        missing_messages(
            keys,
            cells,
            k + 1,
            if cells[k] is None {
                errors.push(LocalizationErrorView::MissingMessage { id: keys[k].id, locale: None })
            } else {
                errors
            },
        )
    }
}

/// The messages of the keys along the bundles, and the errors behind those
/// in `errors`: each key has the message of the first bundle that has it.
/// `made[i]` holds what the `i`-th bundle makes.
pub open spec fn messages_of<R: BorrowResource, F, T>(
    bundles: Seq<FluentBundleResult<R, F, T>>,
    keys: Seq<L10nKeyView>,
    errors: Seq<LocalizationErrorView>,
    made: Seq<Seq<Seq<Formatting>>>,
) -> MessagePass where
    F: Fn(&[FluentValue<String>], &FluentArgs<String>) -> FluentValue<String>,
    T: Fn(&str) -> String,
 {
    let st = messages_walk(
        bundles,
        0,
        keys,
        MessagePass {
            cells: Seq::new(keys.len(), |i: int| None),
            errors,
            has_missing: false,
            decided: true,
        },
        made,
    );
    MessagePass {
        cells: st.cells,
        errors: if st.has_missing {
            missing_messages(keys, st.cells, 0, st.errors)
        } else {
            st.errors
        },
        has_missing: st.has_missing,
        decided: st.decided,
    }
}

/// The views of a vector of optional messages.
pub open spec fn message_views(v: Seq<Option<L10nMessage>>) -> Seq<Option<L10nMessageView>> {
    Seq::new(
        v.len(),
        |i: int|
            match v[i] {
                Some(m) => Some(m.view()),
                None => None,
            },
    )
}

/// The names and values of a vector of attributes.
pub open spec fn attribute_pairs(v: Seq<L10nAttribute>) -> Seq<(Seq<char>, Seq<char>)> {
    Seq::new(v.len(), |i: int| (v[i].name@, v[i].value@))
}

/// The message of that key as one bundle resolves it: its value, if it has
/// one, and its attributes. The errors met are appended to `format_errors`.
pub fn format_message_from_bundle<'s, R: BorrowResource, F, T, A: Slice>(
    bundle: &'s FluentBundle<R, F, T>,
    key: &'s L10nKey<A>,
    format_errors: &mut Vec<FluentError>,
) -> (r: Option<L10nMessage>) where
    F: Fn(&[FluentValue<String>], &FluentArgs<String>) -> FluentValue<String>,
    T: Fn(&str) -> String,

    requires
        callable(bundle),
    ensures
        match find_message(bundle.resource_views(), key.view().id, 0) {
            Some(_) => r is Some && exists|parts: Seq<Formatting>|
                {
                    let f = (#[trigger] message_formed(*bundle, key.view(), parts)).unwrap();
                    f.decided && r.unwrap().view() == f.message && fluent_error_views(
                        final(format_errors)@,
                    ) == fluent_error_views(old(format_errors)@) + f.errors
                },
            None => r is None,
        },
{
    let args = match &key.args {
        Some(a) => Some(a),
        None => None,
    };
    let ghost kargs = key.view().args;
    let ghost e0 = fluent_error_views(format_errors@);
    match bundle.get_entry_message(key.id.as_str()) {
        Some(msg) => {
            let ghost views = attribute_views(msg.attributes@);
            let ghost mut got = Seq::<Formatting>::empty();
            let value = match &msg.value {
                Some(pattern) => {
                    let mut text = String::new();
                    bundle.format_pattern(&mut text, pattern, args, format_errors);
                    proof {
                        let f = Formatting {
                            out: text@,
                            errors: fluent_error_views(format_errors@).skip(e0.len() as int),
                        };
                        assert(tail(Seq::<char>::empty(), text@) =~= text@);
                        assert(made_by(*bundle, pattern.view(), kargs, f));
                        assert(fluent_error_views(format_errors@) =~= e0 + f.errors);
                        got = seq![f];
                    }
                    Some(text)
                },
                None => {
                    proof {
                        assert(e0 + Seq::<FluentErrorView>::empty() =~= e0);
                        got = seq![Formatting { out: Seq::empty(), errors: Seq::empty() }];
                    }
                    None
                },
            };
            let ghost start = value_formed(*bundle, kargs, msg.view().value, got);
            let ghost mut met = start.errors;
            let mut attributes: Vec<L10nAttribute> = Vec::new();
            let mut j: usize = 0;
            proof {
                assert(attribute_pairs(attributes@) =~= Seq::empty());
                lemma_starts_push(got, got[0]);
                assert forall|parts: Seq<Formatting>| #[trigger]
                    starts(parts, got) implies value_formed(*bundle, kargs, msg.view().value, parts)
                    == start by {
                    assert(parts[0] == got[0]);
                }
            }
            while j < msg.attributes.len()
                invariant
                    j <= msg.attributes@.len(),
                    got.len() == j + 1,
                    views == attribute_views(msg.attributes@),
                    args_view(args) == kargs,
                    callable(bundle),
                    fluent_error_views(format_errors@) == e0 + met,
                    forall|parts: Seq<Formatting>| #[trigger]
                        starts(parts, got) ==> attributes_formed(
                            *bundle,
                            kargs,
                            views,
                            0,
                            value_formed(*bundle, kargs, msg.view().value, parts),
                            parts,
                        ) == attributes_formed(
                            *bundle,
                            kargs,
                            views,
                            j as int,
                            Formed {
                                message: L10nMessageView {
                                    value: optional_text(value),
                                    attributes: attribute_pairs(attributes@),
                                },
                                errors: met,
                                decided: true,
                            },
                            parts,
                        ),
                decreases msg.attributes.len() - j,
            {
                let attr = &msg.attributes[j];
                let ghost before = fluent_error_views(format_errors@);
                let ghost names = attribute_pairs(attributes@);
                let mut text = String::new();
                bundle.format_pattern(&mut text, &attr.value, args, format_errors);
                attributes.push(
                    L10nAttribute { name: String::from_str(attr.id.name.as_str()), value: text },
                );
                proof {
                    let f = Formatting {
                        out: text@,
                        errors: fluent_error_views(format_errors@).skip(before.len() as int),
                    };
                    assert(tail(Seq::<char>::empty(), text@) =~= text@);
                    assert(made_by(*bundle, views[j as int].value, kargs, f));
                    assert(fluent_error_views(format_errors@) =~= before + f.errors);
                    assert(attribute_pairs(attributes@) =~= names.push((views[j as int].id, f.out)));
                    assert(fluent_error_views(format_errors@) =~= e0 + (met + f.errors));
                    lemma_starts_push(got, f);
                    got = got.push(f);
                    met = met + f.errors;
                }
                j += 1;
            }
            proof {
                lemma_starts_push(got, got[0]);
                let f = message_formed(*bundle, key.view(), got).unwrap();
                assert(f.decided);
            }
            let r = L10nMessage { value, attributes };
            Some(r)
        },
        None => None,
    }
}

/// Asks one bundle for each key that has no message yet. The result says
/// whether the bundle left any of them missing.
pub fn visit_messages<'s, R: BorrowResource, F, T, A: Slice>(
    bundle: &'s FluentBundle<R, F, T>,
    keys: &'s Vec<L10nKey<A>>,
    cells: &mut Vec<Option<L10nMessage>>,
    errors: &mut Vec<LocalizationError>,
) -> (has_missing: bool) where
    F: Fn(&[FluentValue<String>], &FluentArgs<String>) -> FluentValue<String>,
    T: Fn(&str) -> String,

    requires
        callable(bundle),
        bundle.locales@.len() > 0,
        old(cells)@.len() == keys@.len(),
    ensures
        final(cells)@.len() == keys@.len(),
        exists|made: Seq<Seq<Formatting>>|
            {
                let m = #[trigger] messages_pass(
                    *bundle,
                    key_views(keys@),
                    0,
                    MessagePass {
                        cells: message_views(old(cells)@),
                        errors: localization_error_views(old(errors)@),
                        has_missing: false,
                        decided: true,
                    },
                    made,
                );
                m.decided && message_views(final(cells)@) == m.cells && localization_error_views(
                    final(errors)@,
                ) == m.errors && has_missing == m.has_missing
            },
{
    let mut has_missing = false;
    let ghost kv = key_views(keys@);
    let ghost start = MessagePass {
        cells: message_views(cells@),
        errors: localization_error_views(errors@),
        has_missing: false,
        decided: true,
    };
    let ghost mut got = Seq::<Seq<Formatting>>::empty();
    let mut k: usize = 0;
    while k < keys.len()
        invariant
            k <= keys@.len(),
            got.len() == k,
            cells@.len() == keys@.len(),
            kv == key_views(keys@),
            callable(bundle),
            bundle.locales@.len() > 0,
            forall|made: Seq<Seq<Formatting>>| #[trigger]
                starts(made, got) ==> messages_pass(*bundle, kv, 0, start, made) == messages_pass(
                    *bundle,
                    kv,
                    k as int,
                    MessagePass {
                        cells: message_views(cells@),
                        errors: localization_error_views(errors@),
                        has_missing,
                        decided: true,
                    },
                    made,
                ),
        decreases keys.len() - k,
    {
        let ghost mut here = Seq::<Formatting>::empty();
        if cells[k].is_none() {
            let ghost before_cells = message_views(cells@);
            let ghost before_errors = localization_error_views(errors@);
            let key = &keys[k];
            let mut format_errors: Vec<FluentError> = Vec::new();
            assert(fluent_error_views(format_errors@) =~= Seq::empty());
            let msg = format_message_from_bundle(bundle, key, &mut format_errors);
            match msg {
                None => {
                    has_missing = true;
                    push_error(
                        errors,
                        LocalizationError::MissingMessage {
                            id: key.id.clone(),
                            locale: Some(bundle.locales[0].clone()),
                        },
                    );
                    assert(message_views(cells@) =~= before_cells);
                },
                Some(message) => {
                    proof {
                        here = choose|parts: Seq<Formatting>|
                            {
                                let f = (#[trigger] message_formed(
                                    *bundle,
                                    kv[k as int],
                                    parts,
                                )).unwrap();
                                f.decided && message.view() == f.message && fluent_error_views(
                                    format_errors@,
                                ) == Seq::<FluentErrorView>::empty() + f.errors
                            };
                        let f = message_formed(*bundle, kv[k as int], here).unwrap();
                        assert(Seq::<FluentErrorView>::empty() + f.errors =~= f.errors);
                        assert(before_errors + Seq::<LocalizationErrorView>::empty()
                            =~= before_errors);
                    }
                    if format_errors.len() > 0 {
                        let e = LocalizationError::Resolver {
                            id: key.id.clone(),
                            locale: bundle.locales[0].clone(),
                            errors: format_errors,
                        };
                        push_error(errors, e);
                        assert(before_errors.push(e.view()) =~= before_errors + seq![e.view()]);
                    }
                    cells.set(k, Some(message));
                    assert(message_views(cells@) =~= before_cells.update(
                        k as int,
                        Some(message.view()),
                    ));
                },
            }
        }
        proof {
            lemma_starts_push(got, here);
            got = got.push(here);
        }
        k += 1;
    }
    proof {
        lemma_starts_push(got, Seq::empty());
    }
    has_missing
}

/// What is known of the keys before any bundle is asked: nothing.
pub fn start_messages<A: Slice>(keys: &Vec<L10nKey<A>>) -> (cells: Vec<Option<L10nMessage>>)
    ensures
        cells@.len() == keys@.len(),
        message_views(cells@) == Seq::new(keys@.len(), |i: int| None::<L10nMessageView>),
{
    let mut result: Vec<Option<L10nMessage>> = Vec::new();
    let mut n: usize = 0;
    while n < keys.len()
        invariant
            n <= keys@.len(),
            result@.len() == n,
            forall|j: int| 0 <= j < n ==> result@[j] is None,
        decreases keys.len() - n,
    {
        result.push(None);
        n += 1;
    }
    assert(message_views(result@) =~= Seq::new(keys@.len(), |i: int| None::<L10nMessageView>));
    result
}

/// Appends a last error for each key that no bundle had a message for.
pub fn report_missing_messages<A: Slice>(
    keys: &Vec<L10nKey<A>>,
    cells: &Vec<Option<L10nMessage>>,
    errors: &mut Vec<LocalizationError>,
)
    requires
        cells@.len() == keys@.len(),
    ensures
        localization_error_views(final(errors)@) == missing_messages(
            key_views(keys@),
            message_views(cells@),
            0,
            localization_error_views(old(errors)@),
        ),
{
    let ghost kv = key_views(keys@);
    let ghost cv = message_views(cells@);
    let ghost e0 = localization_error_views(errors@);
    let mut k: usize = 0;
    while k < keys.len()
        invariant
            k <= keys@.len(),
            cells@.len() == keys@.len(),
            kv == key_views(keys@),
            cv == message_views(cells@),
            missing_messages(kv, cv, 0, e0) == missing_messages(
                kv,
                cv,
                k as int,
                localization_error_views(errors@),
            ),
        decreases keys.len() - k,
    {
        if cells[k].is_none() {
            push_error(
                errors,
                LocalizationError::MissingMessage { id: keys[k].id.clone(), locale: None },
            );
        }
        k += 1;
    }
}

/// The messages of the keys: each is that of the first bundle that has it.
/// The walk ends with the first bundle that leaves no key missing. The errors
/// met on the way are appended to `errors`.
pub fn format_messages_sync<'s, R: BorrowResource, F, T, A: Slice>(
    bundles: &'s Vec<FluentBundleResult<R, F, T>>,
    keys: &'s Vec<L10nKey<A>>,
    errors: &mut Vec<LocalizationError>,
) -> (r: Vec<Option<L10nMessage>>) where
    F: Fn(&[FluentValue<String>], &FluentArgs<String>) -> FluentValue<String>,
    T: Fn(&str) -> String,

    requires
        askable(bundles@),
    ensures
        r@.len() == keys@.len(),
        exists|made: Seq<Seq<Seq<Formatting>>>|
            {
                let m = #[trigger] messages_of(
                    bundles@,
                    key_views(keys@),
                    localization_error_views(old(errors)@),
                    made,
                );
                m.decided && message_views(r@) == m.cells && localization_error_views(
                    final(errors)@,
                ) == m.errors
            },
{
    let ghost kv = key_views(keys@);
    let mut result = start_messages(keys);
    let ghost start = MessagePass {
        cells: message_views(result@),
        errors: localization_error_views(errors@),
        has_missing: false,
        decided: true,
    };
    let ghost mut got = Seq::<Seq<Seq<Formatting>>>::empty();
    let mut is_complete = false;
    let mut i: usize = 0;
    while i < bundles.len()
        invariant_except_break
            got.len() == i,
            forall|made: Seq<Seq<Seq<Formatting>>>| #[trigger]
                starts(made, got) ==> messages_walk(bundles@, 0, kv, start, made) == messages_walk(
                    bundles@,
                    i as int,
                    kv,
                    MessagePass {
                        cells: message_views(result@),
                        errors: localization_error_views(errors@),
                        has_missing: true,
                        decided: true,
                    },
                    made,
                ),
            !is_complete,
        invariant
            i <= bundles@.len(),
            got.len() == i || got.len() == i + 1,
            result@.len() == keys@.len(),
            kv == key_views(keys@),
            askable(bundles@),
        ensures
            result@.len() == keys@.len(),
            forall|made: Seq<Seq<Seq<Formatting>>>| #[trigger]
                starts(made, got) ==> ({
                    let w = messages_walk(bundles@, 0, kv, start, made);
                    w.decided && w.cells == message_views(result@) && w.errors
                        == localization_error_views(errors@) && w.has_missing == !is_complete
                }),
        decreases bundles.len() - i,
    {
        let bundle = open_bundle(&bundles[i], errors);
        assert(*bundle == bundle_of(bundles@[i as int]));
        let ghost opened = MessagePass {
            cells: message_views(result@),
            errors: localization_error_views(errors@),
            has_missing: false,
            decided: true,
        };
        let has_missing = visit_messages(bundle, keys, &mut result, errors);
        proof {
            let pass = choose|made: Seq<Seq<Formatting>>|
                {
                    let m = #[trigger] messages_pass(*bundle, kv, 0, opened, made);
                    m.decided && message_views(result@) == m.cells && localization_error_views(
                        errors@,
                    ) == m.errors && has_missing == m.has_missing
                };
            lemma_starts_push(got, pass);
            got = got.push(pass);
        }
        if !has_missing {
            is_complete = true;
            break ;
        }
        i += 1;
    }
    let ghost walked = localization_error_views(errors@);
    if !is_complete {
        report_missing_messages(keys, &result, errors);
    }
    proof {
        lemma_starts_push(got, Seq::empty());
        assert(starts(got, got));
        let w = messages_walk(bundles@, 0, kv, start, got);
        assert(w.decided && w.cells == message_views(result@) && w.errors == walked
            && w.has_missing == !is_complete);
        let m = messages_of(bundles@, kv, start.errors, got);
        assert(m.decided && message_views(result@) == m.cells && localization_error_views(errors@)
            == m.errors);
    }
    result
}

} // verus!
