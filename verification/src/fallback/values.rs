use crate::bundle::args::FluentArgs;
use crate::bundle::fluent_bundle::{BorrowResource, FluentBundle};
use crate::bundle::rendering::find_message;
use crate::bundle::resolver::{args_view, callable};
use crate::bundle::types::FluentValue;
use crate::fallback::errors::{
    as_bundle_errors, localization_error_views, LocalizationError, LocalizationErrorView,
    push_error,
};
use crate::fallback::types::{key_views, L10nKey, L10nKeyView};
use crate::fallback::value::{
    askable, bundle_of, errors_of, FluentBundleResult, Formatting, lemma_starts_push, made_by,
    open_bundle, resolver_errors, starts, Visit, visit_value,
};
use crate::syntax::slice::Slice;
use vstd::prelude::*;
use vstd::string::*;

verus! {

/// What is known of one key in the middle of a walk: its value, that a bundle
/// has its message without a value, or nothing.
pub enum Cell {
    Value(String),
    MissingValue,
    Unknown,
}

pub ghost enum CellView {
    Value(Seq<char>),
    MissingValue,
    Unknown,
}

impl Cell {
    pub open spec fn view(&self) -> CellView {
        match self {
            Cell::Value(s) => CellView::Value(s@),
            Cell::MissingValue => CellView::MissingValue,
            Cell::Unknown => CellView::Unknown,
        }
    }
}

/// The views of a vector of cells.
pub open spec fn cell_views(v: Seq<Cell>) -> Seq<CellView> {
    Seq::new(v.len(), |i: int| v[i].view())
}

/// What a walk knows of its keys. It is decided where each bundle that gave
/// a value has made it so.
pub ghost struct Pass {
    pub cells: Seq<CellView>,
    pub errors: Seq<LocalizationErrorView>,
    pub has_missing: bool,
    pub decided: bool,
}

/// What is known after one bundle was asked for the keys from `k` on that
/// have no value yet, `made[j]` being what the bundle makes of the message of
/// the `j`-th key.
pub open spec fn values_pass<R: BorrowResource, F, T>(
    b: FluentBundle<R, F, T>,
    keys: Seq<L10nKeyView>,
    k: int,
    st: Pass,
    made: Seq<Formatting>,
) -> Pass where
    F: Fn(&[FluentValue<String>], &FluentArgs<String>) -> FluentValue<String>,
    T: Fn(&str) -> String,

    decreases keys.len() - k,
{
    if !(0 <= k < keys.len()) || k >= st.cells.len() || !st.decided {
        st
    } else if st.cells[k] is Value {
        values_pass(b, keys, k + 1, st, made)
    } else {
        let id = keys[k].id;
        let locale = b.locales@[0]@;
        match find_message(b.resource_views(), id, 0) {
            Some(m) => match m.value {
                Some(p) => if k < made.len() {
                    values_pass(
                        b,
                        keys,
                        k + 1,
                        Pass {
                            cells: st.cells.update(k, CellView::Value(made[k].out)),
                            errors: st.errors + resolver_errors(id, locale, made[k].errors),
                            has_missing: st.has_missing,
                            decided: made_by(b, p, keys[k].args, made[k]),
                        },
                        made,
                    )
                } else {
                    Pass {
                        cells: st.cells,
                        errors: st.errors,
                        has_missing: st.has_missing,
                        decided: false,
                    }
                },
                None => values_pass(
                    b,
                    keys,
                    k + 1,
                    Pass {
                        cells: st.cells.update(k, CellView::MissingValue),
                        errors: st.errors.push(
                            LocalizationErrorView::MissingValue { id, locale: Some(locale) },
                        ),
                        has_missing: true,
                        decided: true,
                    },
                    made,
                ),
            },
            None => values_pass(
                b,
                keys,
                k + 1,
                Pass {
                    cells: st.cells,
                    errors: st.errors.push(
                        LocalizationErrorView::MissingMessage { id, locale: Some(locale) },
                    ),
                    has_missing: true,
                    decided: true,
                },
                made,
            ),
        }
    }
}

/// What is known after the bundles from `i` on were asked, each for the keys
/// that have no value yet, up to the first bundle that leaves none missing,
/// `made[i][j]` being what the `i`-th bundle makes of the message of the
/// `j`-th key.
pub open spec fn values_walk<R: BorrowResource, F, T>(
    bundles: Seq<FluentBundleResult<R, F, T>>,
    i: int,
    keys: Seq<L10nKeyView>,
    st: Pass,
    made: Seq<Seq<Formatting>>,
) -> Pass where
    F: Fn(&[FluentValue<String>], &FluentArgs<String>) -> FluentValue<String>,
    T: Fn(&str) -> String,

    decreases bundles.len() - i,
{
    if !(0 <= i < bundles.len()) || !st.decided {
        st
    } else {
        let after = values_pass(
            bundle_of(bundles[i]),
            keys,
            0,
            Pass {
                cells: st.cells,
                errors: st.errors + as_bundle_errors(errors_of(bundles[i])),
                has_missing: false,
                decided: true,
            },
            if i < made.len() {
                made[i]
            } else {
                Seq::empty()
            },
        );
        if !after.has_missing {
            after
        } else {
            values_walk(bundles, i + 1, keys, after, made)
        }
    }
}

/// What the walk comes to.
pub ghost struct Values {
    pub values: Seq<Option<Seq<char>>>,
    pub errors: Seq<LocalizationErrorView>,
    pub decided: bool,
}

/// The values of the keys from `k` on, after those in `acc`, with a last
/// error for each key without one: it says whether any bundle had the
/// message.
pub open spec fn values_finish(
    keys: Seq<L10nKeyView>,
    cells: Seq<CellView>,
    k: int,
    acc: Values,
) -> Values
    decreases keys.len() - k,
{
    if !(0 <= k < keys.len()) || k >= cells.len() {
        acc
    } else {
        values_finish(
            keys,
            cells,
            k + 1,
            match cells[k] {
                CellView::Value(v) => Values {
                    values: acc.values.push(Some(v)),
                    errors: acc.errors,
                    decided: acc.decided,
                },
                CellView::MissingValue => Values {
                    values: acc.values.push(None),
                    errors: acc.errors.push(
                        LocalizationErrorView::MissingValue { id: keys[k].id, locale: None },
                    ),
                    decided: acc.decided,
                },
                CellView::Unknown => Values {
                    values: acc.values.push(None),
                    errors: acc.errors.push(
                        LocalizationErrorView::MissingMessage { id: keys[k].id, locale: None },
                    ),
                    decided: acc.decided,
                },
            },
        )
    }
}

/// The values of the keys along the bundles, and the errors behind those in
/// `errors`: each key has the value of the first bundle in which its message
/// has one, `made[i][j]` being what the `i`-th bundle makes of the message of
/// the `j`-th key.
pub open spec fn values_of<R: BorrowResource, F, T>(
    bundles: Seq<FluentBundleResult<R, F, T>>,
    keys: Seq<L10nKeyView>,
    errors: Seq<LocalizationErrorView>,
    made: Seq<Seq<Formatting>>,
) -> Values where
    F: Fn(&[FluentValue<String>], &FluentArgs<String>) -> FluentValue<String>,
    T: Fn(&str) -> String,
 {
    let st = values_walk(
        bundles,
        0,
        keys,
        Pass {
            cells: Seq::new(keys.len(), |i: int| CellView::Unknown),
            errors,
            has_missing: false,
            decided: true,
        },
        made,
    );
    values_finish(
        keys,
        st.cells,
        0,
        Values { values: Seq::empty(), errors: st.errors, decided: st.decided },
    )
}

/// The texts of a vector of optional strings.
pub open spec fn optional_views(v: Seq<Option<String>>) -> Seq<Option<Seq<char>>> {
    Seq::new(
        v.len(),
        |i: int|
            match v[i] {
                Some(s) => Some(s@),
                None => None,
            },
    )
}

/// Asks one bundle for each key that has no value yet. The result says
/// whether the bundle left any of them missing.
pub fn visit_values<'s, R: BorrowResource, F, T, A: Slice>(
    bundle: &'s FluentBundle<R, F, T>,
    keys: &'s Vec<L10nKey<A>>,
    cells: &mut Vec<Cell>,
    errors: &mut Vec<LocalizationError>,
) -> (has_missing: bool) where
    F: Fn(&[FluentValue<String>], &FluentArgs<String>) -> FluentValue<String>,
    T: Fn(&str) -> String,

    requires
        callable(bundle),
        bundle.locales@.len() > 0,
        old(cells)@.len() == keys@.len(),
    ensures
        final(cells)@.len() == keys@.len(),
        exists|made: Seq<Formatting>|
            {
                let m = #[trigger] values_pass(
                    *bundle,
                    key_views(keys@),
                    0,
                    Pass {
                        cells: cell_views(old(cells)@),
                        errors: localization_error_views(old(errors)@),
                        has_missing: false,
                        decided: true,
                    },
                    made,
                );
                m.decided && cell_views(final(cells)@) == m.cells && localization_error_views(
                    final(errors)@,
                ) == m.errors && has_missing == m.has_missing
            },
{
    let mut has_missing = false;
    let ghost kv = key_views(keys@);
    let ghost start = Pass {
        cells: cell_views(cells@),
        errors: localization_error_views(errors@),
        has_missing: false,
        decided: true,
    };
    let ghost mut got = Seq::<Formatting>::empty();
    let mut k: usize = 0;
    while k < keys.len()
        invariant
            k <= keys@.len(),
            got.len() == k,
            cells@.len() == keys@.len(),
            kv == key_views(keys@),
            callable(bundle),
            bundle.locales@.len() > 0,
            forall|made: Seq<Formatting>| #[trigger]
                starts(made, got) ==> values_pass(*bundle, kv, 0, start, made) == values_pass(
                    *bundle,
                    kv,
                    k as int,
                    Pass {
                        cells: cell_views(cells@),
                        errors: localization_error_views(errors@),
                        has_missing,
                        decided: true,
                    },
                    made,
                ),
        decreases keys.len() - k,
    {
        let resolved = match &cells[k] {
            Cell::Value(_) => true,
            _ => false,
        };
        let ghost mut here = Formatting { out: Seq::empty(), errors: Seq::empty() };
        if !resolved {
            let ghost before_cells = cell_views(cells@);
            let ghost before_errors = localization_error_views(errors@);
            let ghost found = find_message(bundle.resource_views(), kv[k as int].id, 0);
            let key = &keys[k];
            let args = match &key.args {
                Some(a) => Some(a),
                None => None,
            };
            assert(args_view(args) == kv[k as int].args);
            match visit_value(bundle, key.id.as_str(), args, errors) {
                Visit::Value(value) => {
                    proof {
                        here = choose|f: Formatting| #[trigger]
                            made_by(*bundle, found.unwrap().value.unwrap(), args_view(args), f)
                                && value@ == f.out && localization_error_views(errors@)
                                == before_errors + resolver_errors(
                                kv[k as int].id,
                                bundle.locales@[0]@,
                                f.errors,
                            );
                    }
                    cells.set(k, Cell::Value(value));
                    assert(cell_views(cells@) =~= before_cells.update(
                        k as int,
                        CellView::Value(here.out),
                    ));
                },
                Visit::MissingValue => {
                    cells.set(k, Cell::MissingValue);
                    has_missing = true;
                    assert(cell_views(cells@) =~= before_cells.update(
                        k as int,
                        CellView::MissingValue,
                    ));
                },
                Visit::MissingMessage => {
                    has_missing = true;
                    assert(cell_views(cells@) =~= before_cells);
                },
            }
        }
        proof {
            lemma_starts_push(got, here);
            got = got.push(here);
        }
        k += 1;
    }
    proof {
        lemma_starts_push(got, Formatting { out: Seq::empty(), errors: Seq::empty() });
    }
    has_missing
}

/// What is known of the keys before any bundle is asked: nothing.
pub fn start_values<A: Slice>(keys: &Vec<L10nKey<A>>) -> (cells: Vec<Cell>)
    ensures
        cells@.len() == keys@.len(),
        cell_views(cells@) == Seq::new(keys@.len(), |i: int| CellView::Unknown),
{
    let mut cells: Vec<Cell> = Vec::new();
    let mut n: usize = 0;
    while n < keys.len()
        invariant
            n <= keys@.len(),
            cells@.len() == n,
            forall|j: int| 0 <= j < n ==> cells@[j].view() == CellView::Unknown,
        decreases keys.len() - n,
    {
        cells.push(Cell::Unknown);
        n += 1;
    }
    assert(cell_views(cells@) =~= Seq::new(keys@.len(), |i: int| CellView::Unknown));
    cells
}

/// The values of the keys once the walk has ended, with a last error for each
/// key without one: it says whether any bundle had the message.
pub fn finish_values<A: Slice>(
    keys: &Vec<L10nKey<A>>,
    cells: Vec<Cell>,
    errors: &mut Vec<LocalizationError>,
) -> (r: Vec<Option<String>>)
    requires
        cells@.len() == keys@.len(),
    ensures
        r@.len() == keys@.len(),
        ({
            let m = values_finish(
                key_views(keys@),
                cell_views(cells@),
                0,
                Values {
                    values: Seq::empty(),
                    errors: localization_error_views(old(errors)@),
                    decided: true,
                },
            );
            optional_views(r@) == m.values && localization_error_views(final(errors)@) == m.errors
        }),
{
    let ghost kv = key_views(keys@);
    let mut result: Vec<Option<String>> = Vec::new();
    let ghost cv = cell_views(cells@);
    let ghost f0 = values_finish(
        kv,
        cv,
        0,
        Values {
            values: Seq::empty(),
            errors: localization_error_views(errors@),
            decided: true,
        },
    );
    assert(optional_views(result@) =~= Seq::empty());
    let mut k: usize = 0;
    for cell in it: cells
        invariant
            k == it.index(),
            it.seq().len() == keys@.len(),
            cell_views(it.seq()) == cv,
            kv == key_views(keys@),
            result@.len() == k,
            f0 == values_finish(
                kv,
                cv,
                k as int,
                Values {
                    values: optional_views(result@),
                    errors: localization_error_views(errors@),
                    decided: true,
                },
            ),
    {
        let ghost before = optional_views(result@);
        assert(cell.view() == cv[k as int]);
        if k < keys.len() {
            match cell {
                Cell::Value(value) => {
                    result.push(Some(value));
                    assert(optional_views(result@) =~= before.push(Some(value@)));
                },
                Cell::MissingValue => {
                    push_error(
                        errors,
                        LocalizationError::MissingValue { id: keys[k].id.clone(), locale: None },
                    );
                    result.push(None);
                    assert(optional_views(result@) =~= before.push(None));
                },
                Cell::Unknown => {
                    push_error(
                        errors,
                        LocalizationError::MissingMessage { id: keys[k].id.clone(), locale: None },
                    );
                    result.push(None);
                    assert(optional_views(result@) =~= before.push(None));
                },
            }
            k += 1;
        }
    }
    result
}

/// The values of the keys: each has the value of the first bundle in which
/// its message has one. The walk ends with the first bundle that leaves no
/// key missing. The errors met on the way are appended to `errors`.
pub fn format_values_sync<'s, R: BorrowResource, F, T, A: Slice>(
    bundles: &'s Vec<FluentBundleResult<R, F, T>>,
    keys: &'s Vec<L10nKey<A>>,
    errors: &mut Vec<LocalizationError>,
) -> (r: Vec<Option<String>>) where
    F: Fn(&[FluentValue<String>], &FluentArgs<String>) -> FluentValue<String>,
    T: Fn(&str) -> String,

    requires
        askable(bundles@),
    ensures
        r@.len() == keys@.len(),
        exists|made: Seq<Seq<Formatting>>|
            {
                let m = #[trigger] values_of(
                    bundles@,
                    key_views(keys@),
                    localization_error_views(old(errors)@),
                    made,
                );
                m.decided && optional_views(r@) == m.values && localization_error_views(
                    final(errors)@,
                ) == m.errors
            },
{
    let ghost kv = key_views(keys@);
    let mut cells = start_values(keys);
    let ghost start = Pass {
        cells: cell_views(cells@),
        errors: localization_error_views(errors@),
        has_missing: false,
        decided: true,
    };
    let ghost mut got = Seq::<Seq<Formatting>>::empty();
    let mut has_missing = false;
    let mut i: usize = 0;
    while i < bundles.len()
        invariant_except_break
            got.len() == i,
            forall|made: Seq<Seq<Formatting>>| #[trigger]
                starts(made, got) ==> values_walk(bundles@, 0, kv, start, made) == values_walk(
                    bundles@,
                    i as int,
                    kv,
                    Pass {
                        cells: cell_views(cells@),
                        errors: localization_error_views(errors@),
                        has_missing,
                        decided: true,
                    },
                    made,
                ),
        invariant
            i <= bundles@.len(),
            got.len() == i || got.len() == i + 1,
            cells@.len() == keys@.len(),
            kv == key_views(keys@),
            askable(bundles@),
        ensures
            cells@.len() == keys@.len(),
            forall|made: Seq<Seq<Formatting>>| #[trigger]
                starts(made, got) ==> ({
                    let w = values_walk(bundles@, 0, kv, start, made);
                    w.decided && w.cells == cell_views(cells@) && w.errors
                        == localization_error_views(errors@)
                }),
        decreases bundles.len() - i,
    {
        let bundle = open_bundle(&bundles[i], errors);
        assert(*bundle == bundle_of(bundles@[i as int]));
        let ghost opened = Pass {
            cells: cell_views(cells@),
            errors: localization_error_views(errors@),
            has_missing: false,
            decided: true,
        };
        has_missing = visit_values(bundle, keys, &mut cells, errors);
        proof {
            let pass = choose|made: Seq<Formatting>|
                {
                    let m = #[trigger] values_pass(*bundle, kv, 0, opened, made);
                    m.decided && cell_views(cells@) == m.cells && localization_error_views(errors@)
                        == m.errors && has_missing == m.has_missing
                };
            lemma_starts_push(got, pass);
            got = got.push(pass);
        }
        if !has_missing {
            break ;
        }
        i += 1;
    }
    let ghost walked = localization_error_views(errors@);
    let ghost known = cell_views(cells@);
    let r = finish_values(keys, cells, errors);
    proof {
        lemma_starts_push(got, Seq::empty());
        assert(starts(got, got));
        let w = values_walk(bundles@, 0, kv, start, got);
        assert(w.decided && w.cells == known && w.errors == walked);
        let m = values_of(bundles@, kv, start.errors, got);
        assert(m == values_finish(
            kv,
            known,
            0,
            Values { values: Seq::empty(), errors: walked, decided: true },
        ));
        lemma_finish_decided(
            kv,
            known,
            0,
            Values { values: Seq::empty(), errors: walked, decided: true },
        );
        assert(m.decided && optional_views(r@) == m.values && localization_error_views(errors@)
            == m.errors);
    }
    r
}

/// The last step of a walk leaves it decided.
pub proof fn lemma_finish_decided(
    keys: Seq<L10nKeyView>,
    cells: Seq<CellView>,
    k: int,
    acc: Values,
)
    requires
        acc.decided,
    ensures
        values_finish(keys, cells, k, acc).decided,
    decreases keys.len() - k,
{
    if 0 <= k < keys.len() && k < cells.len() {
        lemma_finish_decided(
            keys,
            cells,
            k + 1,
            match cells[k] {
                CellView::Value(v) => Values {
                    values: acc.values.push(Some(v)),
                    errors: acc.errors,
                    decided: acc.decided,
                },
                CellView::MissingValue => Values {
                    values: acc.values.push(None),
                    errors: acc.errors.push(
                        LocalizationErrorView::MissingValue { id: keys[k].id, locale: None },
                    ),
                    decided: acc.decided,
                },
                CellView::Unknown => Values {
                    values: acc.values.push(None),
                    errors: acc.errors.push(
                        LocalizationErrorView::MissingMessage { id: keys[k].id, locale: None },
                    ),
                    decided: acc.decided,
                },
            },
        );
    }
}

} // verus!
