//! The index page: the category filter, which items it shows, and the choice
//! of a number for a new item.

use vstd::prelude::*;

use crate::form::FormFields;
use crate::order::{
    chars_less, descending_order, lemma_ascending_unique, goes_before, is_descending_order, key_views, lemma_chars_order,
    lemma_descending_order_is_permutation, lists_index, pair_less, PairKey,
};
use crate::text::{chars_of, same_text};

verus! {

/// The filter that picks the items linked to no category.
pub const NO_CATEGORY_TEXT: &'static str = "{no category}";

/// The names that the filter offers: every category, then the entry for items
/// without a category.
pub open spec fn filter_rows(all: Seq<String>) -> Seq<Seq<char>> {
    all.map_values(|s: String| s@).push(NO_CATEGORY_TEXT@)
}

/// The view of an optional form.
pub open spec fn form_view(form: Option<&FormFields>) -> Option<Map<Seq<char>, Seq<char>>> {
    match form {
        Some(f) => Some(f@),
        None => None,
    }
}

/// The submitted form ticks the filter entry `name`: its field has the value `on`.
pub open spec fn is_ticked(form: Option<Map<Seq<char>, Seq<char>>>, name: Seq<char>) -> bool {
    match form {
        Some(m) => m.contains_key(name) && m[name] == "on"@,
        None => false,
    }
}

/// The submitted form has a field for the filter entry `name`, whatever its value.
pub open spec fn is_submitted(form: Option<Map<Seq<char>, Seq<char>>>, name: Seq<char>) -> bool {
    match form {
        Some(m) => m.contains_key(name),
        None => false,
    }
}

/// The entries of `rows`, in order, that the form has a field for.
pub open spec fn submitted_rows(rows: Seq<Seq<char>>, form: Option<Map<Seq<char>, Seq<char>>>) -> Seq<Seq<char>>
    decreases rows.len(),
{
    if rows.len() == 0 {
        Seq::empty()
    } else {
        let rest = submitted_rows(rows.drop_last(), form);
        if is_submitted(form, rows.last()) {
            rest.push(rows.last())
        } else {
            rest
        }
    }
}

/// Some choice of `choices` is named `name`.
pub open spec fn offers(choices: Seq<(String, bool)>, name: Seq<char>) -> bool {
    exists|i: int| 0 <= i < choices.len() && (#[trigger] choices[i]).0@ == name
}

/// The views of a list of texts.
pub open spec fn text_views(s: Seq<String>) -> Seq<Seq<char>> {
    s.map_values(|t: String| t@)
}

/// The views of a list of filter choices: each name with whether it is ticked.
pub open spec fn choice_views(c: Seq<(String, bool)>) -> Seq<(Seq<char>, bool)> {
    c.map_values(|x: (String, bool)| (x.0@, x.1))
}

/// Some choice of `choices` is named `name`.
pub open spec fn offers_name(choices: Seq<(Seq<char>, bool)>, name: Seq<char>) -> bool {
    exists|i: int| 0 <= i < choices.len() && (#[trigger] choices[i]).0 == name
}

/// `choices` and `enabled` are the category filter for the filter entries
/// `rows` and the submitted form: each entry once, in the order of texts,
/// ticked where the form gives it the value `on`; enabled, the entries the form
/// has a field for, in the order of `rows`.
pub open spec fn describes_filter(
    rows: Seq<Seq<char>>,
    form: Option<Map<Seq<char>, Seq<char>>>,
    choices: Seq<(Seq<char>, bool)>,
    enabled: Seq<Seq<char>>,
) -> bool {
    &&& forall|i: int, j: int|
        0 <= i < j < choices.len() ==> chars_less((#[trigger] choices[i]).0, (#[trigger] choices[j]).0)
    &&& forall|name: Seq<char>| #[trigger] offers_name(choices, name) <==> rows.contains(name)
    &&& forall|i: int| 0 <= i < choices.len() ==> (#[trigger] choices[i]).1 == is_ticked(form, choices[i].0)
    &&& enabled == submitted_rows(rows, form)
}

/// The state of the category filter on the index page.
pub struct CategoryFilter {
    /// Each entry once, in the order of texts, with whether it is ticked.
    pub choices: Vec<(String, bool)>,
    /// The entries that the form has a field for, in the order of the filter.
    pub enabled: Vec<String>,
}

fn ticked(form: Option<&FormFields>, name: &str) -> (r: bool)
    ensures
        r == is_ticked(form_view(form), name@),
{
    proof {
        reveal_strlit("on");
    }
    match form {
        Some(f) => match f.get(name) {
            Some(v) => same_text(v.as_str(), "on"),
            None => false,
        },
        None => false,
    }
}

/// The category filter of the index page, from the names of all categories
/// and the submitted form, if any. The choices list each entry of the filter
/// once, in the order of texts, ticked where the form gives it the value `on`;
/// the enabled entries are those the form has a field for, in filter order.
pub fn category_filter(all: &Vec<String>, form: Option<&FormFields>) -> (r: CategoryFilter)
    ensures
        describes_filter(filter_rows(all@), form_view(form), choice_views(r.choices@), text_views(r.enabled@)),
{
    let ghost rows_v = filter_rows(all@);
    let mut rows: Vec<String> = Vec::new();
    let mut i: usize = 0;
    while i < all.len()
        invariant
            i <= all.len(),
            rows@.len() == i,
            forall|k: int| 0 <= k < i ==> (#[trigger] rows@[k])@ == all@[k]@,
        decreases all.len() - i,
    {
        rows.push(all[i].clone());
        i = i + 1;
    }
    rows.push(String::from_str(NO_CATEGORY_TEXT));
    assert(rows@.map_values(|s: String| s@) =~= rows_v);

    let mut enabled: Vec<String> = Vec::new();
    let mut i: usize = 0;
    while i < rows.len()
        invariant
            rows@.map_values(|s: String| s@) == rows_v,
            i <= rows.len(),
            enabled@.map_values(|s: String| s@) == submitted_rows(rows_v.take(i as int), form_view(form)),
        decreases rows.len() - i,
    {
        assert(rows_v.take(i + 1).drop_last() =~= rows_v.take(i as int));
        assert(rows_v[i as int] == rows@[i as int]@);
        let present = match form {
            Some(f) => f.get(rows[i].as_str()).is_some(),
            None => false,
        };
        if present {
            enabled.push(rows[i].clone());
        }
        assert(enabled@.map_values(|s: String| s@) =~= submitted_rows(rows_v.take(i + 1), form_view(form)));
        i = i + 1;
    }
    assert(rows_v.take(rows.len() as int) =~= rows_v);

    let mut keys: Vec<PairKey> = Vec::new();
    let mut i: usize = 0;
    while i < rows.len()
        invariant
            i <= rows.len(),
            keys.len() == i,
            forall|k: int| 0 <= k < i ==> #[trigger] keys@[k]@ == (rows@[k]@, Seq::<char>::empty()),
        decreases rows.len() - i,
    {
        keys.push(PairKey { first: chars_of(rows[i].as_str()), second: Vec::new() });
        i = i + 1;
    }
    let ghost kv = key_views(keys@);
    let p = descending_order(&keys);
    proof {
        lemma_descending_order_is_permutation(kv, p@);
    }
    let mut choices: Vec<(String, bool)> = Vec::new();
    let mut k: usize = p.len();
    while k > 0
        invariant
            kv == key_views(keys@),
            kv.len() == rows.len(),
            forall|j: int| 0 <= j < rows.len() ==> #[trigger] kv[j] == (rows@[j]@, Seq::<char>::empty()),
            rows@.map_values(|s: String| s@) == rows_v,
            is_descending_order(kv, p@),
            k <= p.len(),
            forall|a: int, b: int|
                0 <= a < b < choices@.len() ==> chars_less(
                    (#[trigger] choices@[a]).0@,
                    (#[trigger] choices@[b]).0@,
                ),
            forall|a: int|
                0 <= a < choices@.len() ==> (#[trigger] choices@[a]).1 == is_ticked(
                    form_view(form),
                    choices@[a].0@,
                ),
            forall|a: int| 0 <= a < choices@.len() ==> rows_v.contains((#[trigger] choices@[a]).0@),
            forall|j: int| k <= j < p.len() ==> offers(choices@, rows@[#[trigger] p@[j] as int]@),
            k < p.len() ==> choices@.len() > 0 && choices@.last().0@ == rows@[p@[k as int] as int]@,
            k == p.len() ==> choices@.len() == 0,
        decreases k,
    {
        let idx = p[k - 1];
        let name = &rows[idx];
        let fresh = if choices.len() == 0 {
            true
        } else {
            !same_text(choices[choices.len() - 1].0.as_str(), name.as_str())
        };
        proof {
            if k < p.len() {
                let prev = p@[k as int] as int;
                assert(goes_before(kv, idx as int, prev));
                lemma_chars_order(rows@[idx as int]@, rows@[prev]@, rows@[prev]@);
                lemma_chars_order(Seq::<char>::empty(), Seq::<char>::empty(), Seq::<char>::empty());
                assert(!pair_less(kv[idx as int], kv[prev]));
            }
            assert(rows_v[idx as int] == rows@[idx as int]@);
        }
        let ghost old_choices = choices@;
        if fresh {
            let flag = ticked(form, name.as_str());
            choices.push((name.clone(), flag));
            proof {
                assert forall|a: int, b: int| 0 <= a < b < choices@.len() implies chars_less(
                    (#[trigger] choices@[a]).0@,
                    (#[trigger] choices@[b]).0@,
                ) by {
                    if b == choices@.len() - 1 && a < b {
                        let last = old_choices.last().0@;
                        lemma_chars_order(last, rows@[idx as int]@, last);
                        if a < old_choices.len() - 1 {
                            assert(chars_less(old_choices[a].0@, last));
                            lemma_chars_order(old_choices[a].0@, last, rows@[idx as int]@);
                        }
                    } else {
                        assert(choices@[a] == old_choices[a] && choices@[b] == old_choices[b]);
                    }
                }
            }
        }
        proof {
            assert forall|j: int| k - 1 <= j < p.len() implies offers(choices@, rows@[#[trigger] p@[j] as int]@) by {
                if j == k - 1 {
                    assert(choices@.last().0@ == rows@[idx as int]@);
                    assert(choices@[choices@.len() - 1] == choices@.last());
                } else {
                    let c = choose|c: int| 0 <= c < old_choices.len() && (#[trigger] old_choices[c]).0@ == rows@[p@[j] as int]@;
                    assert(choices@[c] == old_choices[c]);
                }
            }
        }
        k = k - 1;
    }
    proof {
        assert forall|name: Seq<char>| #[trigger] offers(choices@, name) <==> rows_v.contains(name) by {
            if offers(choices@, name) {
                let c = choose|c: int| 0 <= c < choices@.len() && (#[trigger] choices@[c]).0@ == name;
                assert(rows_v.contains(choices@[c].0@));
            }
            if rows_v.contains(name) {
                let j = choose|j: int| 0 <= j < rows_v.len() && rows_v[j] == name;
                assert(lists_index(p@, j));
                let a = choose|a: int| 0 <= a < p@.len() && #[trigger] p@[a] as int == j;
                assert(offers(choices@, rows@[p@[a] as int]@));
            }
        }
        let cv = choice_views(choices@);
        assert forall|a: int, b: int| 0 <= a < b < cv.len() implies chars_less(
            (#[trigger] cv[a]).0,
            (#[trigger] cv[b]).0,
        ) by {
            assert(chars_less(choices@[a].0@, choices@[b].0@));
        }
        assert forall|name: Seq<char>| #[trigger] offers_name(cv, name) <==> rows_v.contains(name) by {
            if offers_name(cv, name) {
                let c = choose|c: int| 0 <= c < cv.len() && (#[trigger] cv[c]).0 == name;
                assert(choices@[c].0@ == name);
                assert(offers(choices@, name));
            }
            if offers(choices@, name) {
                let c = choose|c: int| 0 <= c < choices@.len() && (#[trigger] choices@[c]).0@ == name;
                assert(cv[c].0 == name);
            }
        }
        assert forall|a: int| 0 <= a < cv.len() implies (#[trigger] cv[a]).1 == is_ticked(form_view(form), cv[a].0) by {
            assert(choices@[a].1 == is_ticked(form_view(form), choices@[a].0@));
        }
    }
    CategoryFilter { choices, enabled }
}

proof fn lemma_submitted_rows_contains(
    rows: Seq<Seq<char>>,
    form: Option<Map<Seq<char>, Seq<char>>>,
    x: Seq<char>,
)
    ensures
        submitted_rows(rows, form).contains(x) <==> (rows.contains(x) && is_submitted(form, x)),
    decreases rows.len(),
{
    if rows.len() > 0 {
        let init = rows.drop_last();
        lemma_submitted_rows_contains(init, form, x);
        let rest = submitted_rows(init, form);
        let all = submitted_rows(rows, form);
        if all.contains(x) && !rest.contains(x) {
            let i = choose|i: int| 0 <= i < all.len() && all[i] == x;
            assert(i == rest.len());
            assert(rows[rows.len() - 1] == x);
        }
        if rest.contains(x) {
            let i = choose|i: int| 0 <= i < rest.len() && rest[i] == x;
            assert(all[i] == x);
            let j = choose|j: int| 0 <= j < init.len() && init[j] == x;
            assert(rows[j] == x);
        }
        if rows.contains(x) && is_submitted(form, x) {
            let j = choose|j: int| 0 <= j < rows.len() && rows[j] == x;
            if j == rows.len() - 1 {
                assert(all[rest.len() as int] == x);
            } else {
                assert(init[j] == x);
            }
        }
    }
}

/// A submitted form that has a field for none of the filter's entries gives
/// the same category filter as no form: nothing ticked and nothing enabled.
pub proof fn lemma_form_without_filter_names(
    rows: Seq<Seq<char>>,
    form: Map<Seq<char>, Seq<char>>,
    with_form: (Seq<(Seq<char>, bool)>, Seq<Seq<char>>),
    without_form: (Seq<(Seq<char>, bool)>, Seq<Seq<char>>),
)
    requires
        forall|name: Seq<char>| rows.contains(name) ==> !form.contains_key(name),
        describes_filter(rows, Some(form), with_form.0, with_form.1),
        describes_filter(rows, None, without_form.0, without_form.1),
    ensures
        with_form == without_form,
        with_form.1.len() == 0,
{
    let a = with_form.0;
    let b = without_form.0;
    let na = a.map_values(|c: (Seq<char>, bool)| c.0);
    let nb = b.map_values(|c: (Seq<char>, bool)| c.0);
    assert forall|i: int, j: int| 0 <= i < j < na.len() implies chars_less(#[trigger] na[i], #[trigger] na[j]) by {
        assert(chars_less(a[i].0, a[j].0));
    }
    assert forall|i: int, j: int| 0 <= i < j < nb.len() implies chars_less(#[trigger] nb[i], #[trigger] nb[j]) by {
        assert(chars_less(b[i].0, b[j].0));
    }
    assert forall|x: Seq<char>| na.contains(x) <==> nb.contains(x) by {
        if na.contains(x) {
            let i = choose|i: int| 0 <= i < na.len() && na[i] == x;
            assert(offers_name(a, x));
            assert(offers_name(b, x));
            let j = choose|j: int| 0 <= j < b.len() && (#[trigger] b[j]).0 == x;
            assert(nb[j] == x);
        }
        if nb.contains(x) {
            let i = choose|i: int| 0 <= i < nb.len() && nb[i] == x;
            assert(offers_name(b, x));
            assert(offers_name(a, x));
            let j = choose|j: int| 0 <= j < a.len() && (#[trigger] a[j]).0 == x;
            assert(na[j] == x);
        }
    }
    lemma_ascending_unique(na, nb);
    assert forall|i: int| 0 <= i < a.len() implies a[i] == b[i] by {
        assert(na[i] == nb[i]);
        assert(offers_name(a, a[i].0));
        assert(rows.contains(a[i].0));
        assert(!is_ticked(Some(form), a[i].0));
    }
    assert(a =~= b);
    let e = with_form.1;
    if e.len() > 0 {
        assert(e.contains(e[0]));
        lemma_submitted_rows_contains(rows, Some(form), e[0]);
    }
    assert(submitted_rows(rows, None).len() == 0) by {
        if submitted_rows(rows, None).len() > 0 {
            let x = submitted_rows(rows, None)[0];
            assert(submitted_rows(rows, None).contains(x));
            lemma_submitted_rows_contains(rows, None, x);
        }
    }
    assert(e =~= without_form.1);
}

/// The answers that an item gives to the questions of the entries `enabled`,
/// where `matches` tells whether it matches an entry.
pub open spec fn truthful_answers(enabled: Seq<Seq<char>>, matches: spec_fn(Seq<char>) -> bool) -> Seq<bool> {
    enabled.map_values(|e: Seq<char>| matches(e))
}

/// Ticking more filter entries never hides an item: where the form `more` has
/// a field for every entry that the form `fewer` has one for, and `fewer`
/// enables some entry, an item that `fewer` shows (answering truthfully) is
/// shown under `more` too.
pub proof fn lemma_more_ticks_never_hide(
    rows: Seq<Seq<char>>,
    fewer: Option<Map<Seq<char>, Seq<char>>>,
    more: Option<Map<Seq<char>, Seq<char>>>,
    matches: spec_fn(Seq<char>) -> bool,
)
    requires
        forall|name: Seq<char>| is_submitted(fewer, name) ==> is_submitted(more, name),
        submitted_rows(rows, fewer).len() > 0,
        visibility(
            submitted_rows(rows, fewer).len() as int,
            truthful_answers(submitted_rows(rows, fewer), matches),
        ) == Some(true),
    ensures
        visibility(
            submitted_rows(rows, more).len() as int,
            truthful_answers(submitted_rows(rows, more), matches),
        ) == Some(true),
{
    let e1 = submitted_rows(rows, fewer);
    let e2 = submitted_rows(rows, more);
    let t1 = truthful_answers(e1, matches);
    let t2 = truthful_answers(e2, matches);
    assert(some_yes(t1, e1.len() as int));
    let i = choose|i: int| 0 <= i < t1.len() && i < e1.len() && #[trigger] t1[i];
    assert(e1.contains(e1[i]));
    lemma_submitted_rows_contains(rows, fewer, e1[i]);
    lemma_submitted_rows_contains(rows, more, e1[i]);
    assert(e2.contains(e1[i]));
    let j = choose|j: int| 0 <= j < e2.len() && e2[j] == e1[i];
    assert(t2[j]);
    assert(some_yes(t2, e2.len() as int));
}

/// What the catalogue asks about an item for one enabled filter entry.
#[derive(Debug)]
pub enum CategoryQuery {
    /// Whether the item is linked to no category.
    NoCategoryAssigned,
    /// Whether the item is linked to the category of this name.
    InCategory(String),
}

/// The question that filter entry `name` asks about an item: the entry for
/// items without a category asks whether it has none, any other entry asks
/// whether it is in the category of that name.
pub fn category_query(name: &str) -> (q: CategoryQuery)
    ensures
        name@ == NO_CATEGORY_TEXT@ ==> q is NoCategoryAssigned,
        name@ != NO_CATEGORY_TEXT@ ==> (q matches CategoryQuery::InCategory(c) && c@ == name@),
{
    if same_text(name, NO_CATEGORY_TEXT) {
        CategoryQuery::NoCategoryAssigned
    } else {
        CategoryQuery::InCategory(String::from_str(name))
    }
}

/// Some of the first `n` answers is yes.
pub open spec fn some_yes(answers: Seq<bool>, n: int) -> bool {
    exists|i: int| 0 <= i < answers.len() && i < n && #[trigger] answers[i]
}

/// What the index page knows of whether to show an item, with `n` enabled
/// filter entries and the answers to the questions of the first entries:
/// shown when no entry is enabled or some answer is yes, hidden when every
/// entry was answered no, and otherwise not known yet.
pub open spec fn visibility(n: int, answers: Seq<bool>) -> Option<bool> {
    if n == 0 {
        Some(true)
    } else if some_yes(answers, n) {
        Some(true)
    } else if answers.len() >= n {
        Some(false)
    } else {
        None
    }
}

/// Whether the index page shows an item, given the enabled filter entries and
/// the answers so far to their questions, in order; `None` asks for the answer
/// about entry `enabled[answers.len()]`.
pub fn item_visibility(enabled: &Vec<String>, answers: &Vec<bool>) -> (r: Option<bool>)
    ensures
        r == visibility(enabled@.len() as int, answers@),
{
    if enabled.len() == 0 {
        return Some(true);
    }
    let mut i: usize = 0;
    while i < answers.len() && i < enabled.len()
        invariant
            i <= answers.len(),
            forall|j: int| 0 <= j < i ==> !answers@[j],
        decreases answers.len() - i,
    {
        if answers[i] {
            return Some(true);
        }
        i = i + 1;
    }
    if answers.len() >= enabled.len() {
        Some(false)
    } else {
        None
    }
}

/// Answering the questions truthfully, in order, the index page always comes
/// to a decision, and any decision it comes to is whether no entry is enabled
/// or the item matches some enabled entry.
pub proof fn lemma_visibility_decides(truth: Seq<bool>)
    ensures
        visibility(truth.len() as int, truth) is Some,
        forall|k: int|
            0 <= k <= truth.len() && #[trigger] visibility(truth.len() as int, truth.take(k)) is Some
                ==> visibility(truth.len() as int, truth.take(k)) == Some(
                truth.len() == 0 || some_yes(truth, truth.len() as int),
            ),
{
    let n = truth.len() as int;
    assert forall|k: int|
        0 <= k <= n && #[trigger] visibility(n, truth.take(k)) is Some implies visibility(n, truth.take(k))
        == Some(n == 0 || some_yes(truth, n)) by {
        if n != 0 {
            if some_yes(truth.take(k), n) {
                let i = choose|i: int| 0 <= i < truth.take(k).len() && i < n && #[trigger] truth.take(k)[i];
                assert(truth[i]);
            } else {
                assert(truth.take(k).len() >= n);
                assert(truth.take(k) =~= truth);
            }
        }
    }
    if n != 0 && !some_yes(truth, n) {
        assert(truth.len() >= n);
    }
}

/// The first free number for an item entered by hand, counting down from 999
/// to 800.
pub open spec fn is_first_free(existing: Seq<u32>, id: u32) -> bool {
    &&& 800 <= id < 1000
    &&& !existing.contains(id)
    &&& forall|j: u32| id < j < 1000 ==> existing.contains(j)
}

fn holds(existing: &Vec<u32>, id: u32) -> (r: bool)
    ensures
        r == existing@.contains(id),
{
    let mut i: usize = 0;
    while i < existing.len()
        invariant
            i <= existing.len(),
            forall|j: int| 0 <= j < i ==> existing@[j] != id,
        decreases existing.len() - i,
    {
        if existing[i] == id {
            return true;
        }
        i = i + 1;
    }
    false
}

/// The greatest number from 800 to 999 that no item has, if any.
pub fn free_manual_item_id(existing: &Vec<u32>) -> (r: Option<u32>)
    ensures
        match r {
            Some(id) => is_first_free(existing@, id),
            None => forall|j: u32| 800 <= j < 1000 ==> existing@.contains(j),
        },
{
    let mut id: u32 = 1000;
    while id > 800
        invariant
            800 <= id <= 1000,
            forall|j: u32| id <= j < 1000 ==> existing@.contains(j),
        decreases id,
    {
        if !holds(existing, id - 1) {
            return Some(id - 1);
        }
        id = id - 1;
    }
    None
}

} // verus!
