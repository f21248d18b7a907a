//! The category tables: what each read of them gives, and which rows a change
//! of an item's categories writes.
//!
//! The tables are `category (id, name)`, with unique ids and unique names, and
//! `item_category (item_id, cat_id)`, which links items to categories.

use vstd::prelude::*;

use crate::form::lists_text;
use crate::text::same_text;

verus! {

/// A row of the table of categories.
pub struct CategoryRow {
    pub id: i64,
    pub name: String,
}

/// A row of the table that links items to categories.
#[derive(PartialEq, Eq, Structural, Clone, Copy, Debug)]
pub struct LinkRow {
    pub item_id: i64,
    pub cat_id: i64,
}

/// No id occurs twice in the table of categories (its primary key).
pub open spec fn unique_ids(cats: Seq<CategoryRow>) -> bool {
    forall|i: int, j: int| 0 <= i < j < cats.len() ==> (#[trigger] cats[i]).id != (#[trigger] cats[j]).id
}

/// Item `item_id` is linked to category `cat_id`.
pub open spec fn has_link(links: Seq<LinkRow>, item_id: int, cat_id: int) -> bool {
    links.contains(LinkRow { item_id: item_id as i64, cat_id: cat_id as i64 })
}

/// Item `item_id` is linked to some category.
pub open spec fn has_any_link(links: Seq<LinkRow>, item_id: int) -> bool {
    exists|i: int| 0 <= i < links.len() && (#[trigger] links[i]).item_id == item_id
}

/// An item has some category exactly when some row of the table, at any
/// position, names it, and exactly when it is linked to some category id.
pub proof fn lemma_has_any_link_is_some_row(links: Seq<LinkRow>, item_id: i64)
    ensures
        !has_any_link(links, item_id as int) <==> forall|i: int|
            0 <= i < links.len() ==> (#[trigger] links[i]).item_id != item_id,
        has_any_link(links, item_id as int) <==> exists|c: i64| #[trigger] has_link(links, item_id as int, c as int),
{
    if has_any_link(links, item_id as int) {
        let i = choose|i: int| 0 <= i < links.len() && (#[trigger] links[i]).item_id == item_id as int;
        let c = links[i].cat_id;
        assert(links[i] == (LinkRow { item_id, cat_id: c }));
        assert(has_link(links, item_id as int, c as int));
    }
    if exists|c: i64| #[trigger] has_link(links, item_id as int, c as int) {
        let c = choose|c: i64| #[trigger] has_link(links, item_id as int, c as int);
        let i = choose|i: int| 0 <= i < links.len() && links[i] == (LinkRow { item_id, cat_id: c });
        assert(links[i].item_id == item_id);
    }
}

/// Item `item_id` is linked to the category named `name`.
pub open spec fn linked_to_name(
    cats: Seq<CategoryRow>,
    links: Seq<LinkRow>,
    item_id: int,
    name: Seq<char>,
) -> bool {
    exists|c: int|
        0 <= c < cats.len() && (#[trigger] cats[c]).name@ == name && has_link(links, item_id, cats[c].id as int)
}

fn link_exists(links: &Vec<LinkRow>, item_id: i64, cat_id: i64) -> (r: bool)
    ensures
        r == has_link(links@, item_id as int, cat_id as int),
{
    let mut i: usize = 0;
    while i < links.len()
        invariant
            i <= links.len(),
            forall|j: int| 0 <= j < i ==> links@[j] != (LinkRow { item_id, cat_id }),
        decreases links.len() - i,
    {
        if links[i].item_id == item_id && links[i].cat_id == cat_id {
            assert(links@[i as int] == (LinkRow { item_id, cat_id }));
            return true;
        }
        i = i + 1;
    }
    false
}

/// Every category, in table order, with whether item `item_id` is in it.
pub fn get_item_categories(cats: &Vec<CategoryRow>, links: &Vec<LinkRow>, item_id: u32) -> (r: Vec<(bool, String)>)
    ensures
        r@.len() == cats@.len(),
        forall|i: int|
            0 <= i < r@.len() ==> (#[trigger] r@[i]).1@ == cats@[i].name@ && r@[i].0 == has_link(
                links@,
                item_id as int,
                cats@[i].id as int,
            ),
{
    let mut r: Vec<(bool, String)> = Vec::new();
    let mut i: usize = 0;
    while i < cats.len()
        invariant
            i <= cats.len(),
            r@.len() == i,
            forall|k: int|
                0 <= k < i ==> (#[trigger] r@[k]).1@ == cats@[k].name@ && r@[k].0 == has_link(
                    links@,
                    item_id as int,
                    cats@[k].id as int,
                ),
        decreases cats.len() - i,
    {
        let selected = link_exists(links, item_id as i64, cats[i].id);
        r.push((selected, cats[i].name.clone()));
        i = i + 1;
    }
    r
}

/// The names of all categories, in table order.
pub fn get_all_categories(cats: &Vec<CategoryRow>) -> (r: Vec<String>)
    ensures
        r@.len() == cats@.len(),
        forall|i: int| 0 <= i < r@.len() ==> (#[trigger] r@[i])@ == cats@[i].name@,
{
    let mut r: Vec<String> = Vec::new();
    let mut i: usize = 0;
    while i < cats.len()
        invariant
            i <= cats.len(),
            r@.len() == i,
            forall|k: int| 0 <= k < i ==> (#[trigger] r@[k])@ == cats@[k].name@,
        decreases cats.len() - i,
    {
        r.push(cats[i].name.clone());
        i = i + 1;
    }
    r
}

/// Whether item `item_id` is linked to no category.
pub fn has_no_category_assigned(links: &Vec<LinkRow>, item_id: u32) -> (r: bool)
    ensures
        r == !has_any_link(links@, item_id as int),
{
    let mut i: usize = 0;
    while i < links.len()
        invariant
            i <= links.len(),
            forall|j: int| 0 <= j < i ==> (#[trigger] links@[j]).item_id != item_id,
        decreases links.len() - i,
    {
        if links[i].item_id == item_id as i64 {
            return false;
        }
        i = i + 1;
    }
    true
}

/// Whether item `item_id` is linked to the category named `cat`.
pub fn is_item_in_category(cats: &Vec<CategoryRow>, links: &Vec<LinkRow>, item_id: u32, cat: &str) -> (r: bool)
    ensures
        r == linked_to_name(cats@, links@, item_id as int, cat@),
{
    let mut i: usize = 0;
    while i < cats.len()
        invariant
            i <= cats.len(),
            forall|c: int|
                0 <= c < i ==> !((#[trigger] cats@[c]).name@ == cat@ && has_link(
                    links@,
                    item_id as int,
                    cats@[c].id as int,
                )),
        decreases cats.len() - i,
    {
        if same_text(cats[i].name.as_str(), cat) && link_exists(links, item_id as i64, cats[i].id) {
            return true;
        }
        i = i + 1;
    }
    false
}

/// The names of the categories, in table order, that `wanted` holds.
pub open spec fn assigned_names(cats: Seq<CategoryRow>, wanted: Seq<String>) -> Seq<Seq<char>>
    decreases cats.len(),
{
    if cats.len() == 0 {
        Seq::empty()
    } else {
        let rest = assigned_names(cats.drop_last(), wanted);
        if lists_text(wanted, cats.last().name@) {
            rest.push(cats.last().name@)
        } else {
            rest
        }
    }
}

/// The names of the categories that item's new set of categories `wanted`
/// links it to, in table order: names of `wanted` that no category has are
/// left out.
pub fn set_categories(cats: &Vec<CategoryRow>, wanted: &Vec<String>) -> (r: Vec<String>)
    ensures
        r@.map_values(|s: String| s@) == assigned_names(cats@, wanted@),
{
    let mut r: Vec<String> = Vec::new();
    let mut i: usize = 0;
    while i < cats.len()
        invariant
            i <= cats.len(),
            r@.map_values(|s: String| s@) == assigned_names(cats@.take(i as int), wanted@),
        decreases cats.len() - i,
    {
        assert(cats@.take(i + 1).drop_last() =~= cats@.take(i as int));
        let mut found = false;
        let mut j: usize = 0;
        while j < wanted.len()
            invariant
                j <= wanted.len(),
                i < cats.len(),
                found == exists|k: int| 0 <= k < j && #[trigger] wanted@[k]@ == cats@[i as int].name@,
            decreases wanted.len() - j,
        {
            if !found && same_text(wanted[j].as_str(), cats[i].name.as_str()) {
                found = true;
            }
            j = j + 1;
        }
        assert(found == lists_text(wanted@, cats@[i as int].name@));
        if found {
            r.push(cats[i].name.clone());
        }
        assert(r@.map_values(|s: String| s@) =~= assigned_names(cats@.take(i + 1), wanted@));
        i = i + 1;
    }
    assert(cats@.take(cats.len() as int) =~= cats@);
    r
}

/// The rows of `links` that link items other than `item_id`: what is left
/// after deleting the item's rows.
pub open spec fn links_of_others(links: Seq<LinkRow>, item_id: int) -> Seq<LinkRow>
    decreases links.len(),
{
    if links.len() == 0 {
        Seq::empty()
    } else {
        let rest = links_of_others(links.drop_last(), item_id);
        if links.last().item_id != item_id {
            rest.push(links.last())
        } else {
            rest
        }
    }
}

/// The rows that link item `item_id` to each category, in table order, whose
/// name `wanted` holds.
pub open spec fn new_links(cats: Seq<CategoryRow>, wanted: Seq<String>, item_id: int) -> Seq<LinkRow>
    decreases cats.len(),
{
    if cats.len() == 0 {
        Seq::empty()
    } else {
        let rest = new_links(cats.drop_last(), wanted, item_id);
        if lists_text(wanted, cats.last().name@) {
            rest.push(LinkRow { item_id: item_id as i64, cat_id: cats.last().id })
        } else {
            rest
        }
    }
}

/// The links after item `item_id`'s categories were set to `wanted`: its
/// old rows deleted, then a row for each category that `set_categories`
/// names.
pub open spec fn links_after_set(
    links: Seq<LinkRow>,
    cats: Seq<CategoryRow>,
    wanted: Seq<String>,
    item_id: int,
) -> Seq<LinkRow> {
    links_of_others(links, item_id) + new_links(cats, wanted, item_id)
}

proof fn lemma_links_of_others_contains(links: Seq<LinkRow>, item_id: int, l: LinkRow)
    ensures
        links_of_others(links, item_id).contains(l) <==> (links.contains(l) && l.item_id != item_id),
    decreases links.len(),
{
    if links.len() > 0 {
        let init = links.drop_last();
        lemma_links_of_others_contains(init, item_id, l);
        let rest = links_of_others(init, item_id);
        let all = links_of_others(links, item_id);
        if all.contains(l) && !rest.contains(l) {
            let i = choose|i: int| 0 <= i < all.len() && all[i] == l;
            assert(i == rest.len());
            assert(links[links.len() - 1] == l);
        }
        if rest.contains(l) {
            let i = choose|i: int| 0 <= i < rest.len() && rest[i] == l;
            assert(all[i] == l);
            let j = choose|j: int| 0 <= j < init.len() && init[j] == l;
            assert(links[j] == l);
        }
        if links.contains(l) && l.item_id != item_id {
            let j = choose|j: int| 0 <= j < links.len() && links[j] == l;
            if j == links.len() - 1 {
                assert(all[rest.len() as int] == l);
            } else {
                assert(init[j] == l);
            }
        }
    }
}

proof fn lemma_new_links_contains(cats: Seq<CategoryRow>, wanted: Seq<String>, item_id: int, l: LinkRow)
    requires
        i64::MIN <= item_id <= i64::MAX,
    ensures
        new_links(cats, wanted, item_id).contains(l) <==> (l.item_id == item_id && exists|c: int|
            0 <= c < cats.len() && (#[trigger] cats[c]).id == l.cat_id && lists_text(wanted, cats[c].name@)),
    decreases cats.len(),
{
    if cats.len() > 0 {
        let init = cats.drop_last();
        lemma_new_links_contains(init, wanted, item_id, l);
        let rest = new_links(init, wanted, item_id);
        if new_links(cats, wanted, item_id).contains(l) && !rest.contains(l) {
            let i = choose|i: int| 0 <= i < new_links(cats, wanted, item_id).len() && new_links(cats, wanted, item_id)[i] == l;
            assert(i == rest.len());
            assert(cats[cats.len() - 1] == cats.last());
        }
        if exists|c: int| 0 <= c < cats.len() && (#[trigger] cats[c]).id == l.cat_id && lists_text(wanted, cats[c].name@) {
            let c = choose|c: int| 0 <= c < cats.len() && (#[trigger] cats[c]).id == l.cat_id && lists_text(wanted, cats[c].name@);
            if c < cats.len() - 1 {
                assert(init[c] == cats[c]);
            } else if l.item_id == item_id {
                assert(new_links(cats, wanted, item_id) == rest.push(l));
                assert(new_links(cats, wanted, item_id)[rest.len() as int] == l);
            }
        }
        if rest.contains(l) {
            let i = choose|i: int| 0 <= i < rest.len() && rest[i] == l;
            assert(new_links(cats, wanted, item_id)[i] == l);
            let c = choose|c: int| 0 <= c < init.len() && (#[trigger] init[c]).id == l.cat_id && lists_text(wanted, init[c].name@);
            assert(cats[c] == init[c]);
        }
    }
}

/// `row` links item `item_id` to the category named `name`.
pub open spec fn links_to_named(cats: Seq<CategoryRow>, item_id: int, name: Seq<char>, row: LinkRow) -> bool {
    exists|c: int|
        0 <= c < cats.len() && (#[trigger] cats[c]).name@ == name && row == (LinkRow {
            item_id: item_id as i64,
            cat_id: cats[c].id,
        })
}

/// The rows of the change are those that inserting, for each name that
/// `set_categories` gives, the category of that name writes: one row per name,
/// in the same order.
pub proof fn lemma_new_links_follow_assigned_names(cats: Seq<CategoryRow>, wanted: Seq<String>, item_id: int)
    ensures
        new_links(cats, wanted, item_id).len() == assigned_names(cats, wanted).len(),
        forall|k: int|
            0 <= k < assigned_names(cats, wanted).len() ==> links_to_named(
                cats,
                item_id,
                #[trigger] assigned_names(cats, wanted)[k],
                new_links(cats, wanted, item_id)[k],
            ),
    decreases cats.len(),
{
    if cats.len() > 0 {
        let init = cats.drop_last();
        lemma_new_links_follow_assigned_names(init, wanted, item_id);
        let names = assigned_names(cats, wanted);
        let rows = new_links(cats, wanted, item_id);
        assert forall|k: int| 0 <= k < names.len() implies links_to_named(
            cats,
            item_id,
            #[trigger] names[k],
            rows[k],
        ) by {
            if k < assigned_names(init, wanted).len() {
                assert(links_to_named(init, item_id, assigned_names(init, wanted)[k], new_links(init, wanted, item_id)[k]));
                let c = choose|c: int|
                    0 <= c < init.len() && (#[trigger] init[c]).name@ == assigned_names(init, wanted)[k]
                        && new_links(init, wanted, item_id)[k] == (LinkRow {
                        item_id: item_id as i64,
                        cat_id: init[c].id,
                    });
                assert(cats[c] == init[c]);
            } else {
                let c = cats.len() - 1;
                assert(cats[c] == cats.last());
                assert(names[k] == cats[c].name@);
            }
        }
    }
}

/// Reading an item's categories after setting them to `wanted` marks exactly
/// the categories whose names `wanted` holds.
pub proof fn lemma_set_then_get_item_categories(
    links: Seq<LinkRow>,
    cats: Seq<CategoryRow>,
    wanted: Seq<String>,
    item_id: u32,
)
    requires
        unique_ids(cats),
    ensures
        forall|i: int|
            0 <= i < cats.len() ==> has_link(
                links_after_set(links, cats, wanted, item_id as int),
                item_id as int,
                #[trigger] cats[i].id as int,
            ) == lists_text(wanted, cats[i].name@),
{
    assert forall|i: int| 0 <= i < cats.len() implies has_link(
        links_after_set(links, cats, wanted, item_id as int),
        item_id as int,
        #[trigger] cats[i].id as int,
    ) == lists_text(wanted, cats[i].name@) by {
        let l = LinkRow { item_id: item_id as i64, cat_id: cats[i].id };
        lemma_link_after_set(links, cats, wanted, item_id as int, l);
        if exists|c: int| 0 <= c < cats.len() && (#[trigger] cats[c]).id == l.cat_id && lists_text(wanted, cats[c].name@) {
            let c = choose|c: int| 0 <= c < cats.len() && (#[trigger] cats[c]).id == l.cat_id && lists_text(wanted, cats[c].name@);
            if c != i {
                if c < i {
                    assert(cats[c].id != cats[i].id);
                } else {
                    assert(cats[i].id != cats[c].id);
                }
            }
        }
    }
}

/// A row is among the links after a change of item `item_id`'s categories
/// exactly when it links another item and was there before, or it links the
/// item to a category whose name `wanted` holds.
pub proof fn lemma_link_after_set(
    links: Seq<LinkRow>,
    cats: Seq<CategoryRow>,
    wanted: Seq<String>,
    item_id: int,
    l: LinkRow,
)
    requires
        i64::MIN <= item_id <= i64::MAX,
    ensures
        links_after_set(links, cats, wanted, item_id).contains(l) <==> ((links.contains(l)
            && l.item_id != item_id) || (l.item_id == item_id && exists|c: int|
            0 <= c < cats.len() && (#[trigger] cats[c]).id == l.cat_id && lists_text(wanted, cats[c].name@))),
{
    let a = links_of_others(links, item_id);
    let b = new_links(cats, wanted, item_id);
    lemma_links_of_others_contains(links, item_id, l);
    lemma_new_links_contains(cats, wanted, item_id, l);
    if (a + b).contains(l) {
        let i = choose|i: int| 0 <= i < (a + b).len() && (a + b)[i] == l;
        if i < a.len() {
            assert(a[i] == l);
        } else {
            assert(b[i - a.len()] == l);
        }
    }
    if a.contains(l) {
        let i = choose|i: int| 0 <= i < a.len() && a[i] == l;
        assert((a + b)[i] == l);
    }
    if b.contains(l) {
        let i = choose|i: int| 0 <= i < b.len() && b[i] == l;
        assert((a + b)[a.len() + i] == l);
    }
}

/// After setting an item's categories to `wanted`, the item has no category
/// exactly when no category's name is in `wanted`.
pub proof fn lemma_set_then_has_no_category(
    links: Seq<LinkRow>,
    cats: Seq<CategoryRow>,
    wanted: Seq<String>,
    item_id: u32,
)
    ensures
        !has_any_link(links_after_set(links, cats, wanted, item_id as int), item_id as int) <==> !exists|c: int|
            0 <= c < cats.len() && lists_text(wanted, (#[trigger] cats[c]).name@),
{
    let after = links_after_set(links, cats, wanted, item_id as int);
    if has_any_link(after, item_id as int) {
        let i = choose|i: int| 0 <= i < after.len() && (#[trigger] after[i]).item_id == item_id as int;
        lemma_link_after_set(links, cats, wanted, item_id as int, after[i]);
        assert(after.contains(after[i]));
    }
    if exists|c: int| 0 <= c < cats.len() && lists_text(wanted, (#[trigger] cats[c]).name@) {
        let c = choose|c: int| 0 <= c < cats.len() && lists_text(wanted, (#[trigger] cats[c]).name@);
        let l = LinkRow { item_id: item_id as i64, cat_id: cats[c].id };
        lemma_link_after_set(links, cats, wanted, item_id as int, l);
        let i = choose|i: int| 0 <= i < after.len() && after[i] == l;
        assert(after[i].item_id == item_id as int);
    }
}

/// After setting an item's categories to `wanted`, the item is in the category
/// named `name` exactly when some category has that name and `wanted` holds it.
pub proof fn lemma_set_then_is_in_category(
    links: Seq<LinkRow>,
    cats: Seq<CategoryRow>,
    wanted: Seq<String>,
    item_id: u32,
    name: Seq<char>,
)
    requires
        unique_ids(cats),
    ensures
        linked_to_name(cats, links_after_set(links, cats, wanted, item_id as int), item_id as int, name) <==> (
        lists_text(wanted, name) && exists|c: int| 0 <= c < cats.len() && (#[trigger] cats[c]).name@ == name),
{
    lemma_set_then_get_item_categories(links, cats, wanted, item_id);
    let after = links_after_set(links, cats, wanted, item_id as int);
    if exists|c: int| 0 <= c < cats.len() && (#[trigger] cats[c]).name@ == name {
        let c = choose|c: int| 0 <= c < cats.len() && (#[trigger] cats[c]).name@ == name;
        assert(has_link(after, item_id as int, cats[c].id as int) == lists_text(wanted, cats[c].name@));
    }
    if linked_to_name(cats, after, item_id as int, name) {
        let c = choose|c: int|
            0 <= c < cats.len() && (#[trigger] cats[c]).name@ == name && has_link(after, item_id as int, cats[c].id as int);
        assert(has_link(after, item_id as int, cats[c].id as int) == lists_text(wanted, cats[c].name@));
    }
}

/// Setting one item's categories changes no other item's links.
pub proof fn lemma_set_keeps_other_items(
    links: Seq<LinkRow>,
    cats: Seq<CategoryRow>,
    wanted: Seq<String>,
    item_id: u32,
    other: u32,
    cat_id: i64,
)
    requires
        other != item_id,
    ensures
        has_link(links_after_set(links, cats, wanted, item_id as int), other as int, cat_id as int)
            == has_link(links, other as int, cat_id as int),
{
    let l = LinkRow { item_id: other as i64, cat_id };
    lemma_link_after_set(links, cats, wanted, item_id as int, l);
}

} // verus!
