//! What the index page and an item's page list, and in which order.

use vstd::prelude::*;

use crate::order::{
    arranged, descending_order, is_descending_order, key_views, PairKey, TextPair,
};
use crate::text::{chars_of, has_prefix, has_suffix};

verus! {

/// One image of an item on the index page.
pub struct IndexItemEntry {
    pub img_link: String,
    pub item_link: String,
    pub filename: String,
}

/// The key by which the index page orders its images: the file name.
pub open spec fn index_entry_key(e: IndexItemEntry) -> TextPair {
    (e.filename@, Seq::empty())
}

/// The keys of a list of index images.
pub open spec fn index_entry_keys(entries: Seq<IndexItemEntry>) -> Seq<TextPair> {
    entries.map_values(|e: IndexItemEntry| index_entry_key(e))
}

/// Orders the images of the index page by file name, from the greatest to the
/// least; images with the same file name stand in the reverse of the order in
/// which they came.
pub fn arrange_index_entries(entries: Vec<IndexItemEntry>) -> (r: Vec<IndexItemEntry>)
    ensures
        arranged(entries@, index_entry_keys(entries@), r@),
{
    let mut keys: Vec<PairKey> = Vec::new();
    let mut i: usize = 0;
    while i < entries.len()
        invariant
            i <= entries.len(),
            keys.len() == i,
            forall|k: int| 0 <= k < i ==> #[trigger] keys@[k]@ == index_entry_key(entries@[k]),
        decreases entries.len() - i,
    {
        keys.push(PairKey { first: chars_of(&entries[i].filename), second: Vec::new() });
        i = i + 1;
    }
    assert(key_views(keys@) =~= index_entry_keys(entries@));
    let p = descending_order(&keys);
    let mut r: Vec<IndexItemEntry> = Vec::new();
    let mut k: usize = 0;
    while k < p.len()
        invariant
            is_descending_order(index_entry_keys(entries@), p@),
            entries.len() == index_entry_keys(entries@).len(),
            k <= p.len(),
            r.len() == k,
            forall|j: int| 0 <= j < k ==> #[trigger] r@[j] == entries@[p@[j] as int],
        decreases p.len() - k,
    {
        let e = &entries[p[k]];
        r.push(
            IndexItemEntry {
                img_link: e.img_link.clone(),
                item_link: e.item_link.clone(),
                filename: e.filename.clone(),
            },
        );
        k = k + 1;
    }
    r
}

/// What a file in an item's folder is, by the start of its name.
#[derive(PartialEq, Eq, Structural, Clone, Copy, Debug)]
pub enum ItemFileKind {
    Content,
    Package,
    LocationLink,
    Location,
    Removed,
    Other,
}

/// The kind of the file named `name`: the first of `content`, `package`,
/// `location_link`, `location`, `removed` that its name starts with.
pub open spec fn file_kind(name: Seq<char>) -> ItemFileKind {
    if "content"@.is_prefix_of(name) {
        ItemFileKind::Content
    } else if "package"@.is_prefix_of(name) {
        ItemFileKind::Package
    } else if "location_link"@.is_prefix_of(name) {
        ItemFileKind::LocationLink
    } else if "location"@.is_prefix_of(name) {
        ItemFileKind::Location
    } else if "removed"@.is_prefix_of(name) {
        ItemFileKind::Removed
    } else {
        ItemFileKind::Other
    }
}

proof fn lemma_prefix_of_extended(p: Seq<char>, a: Seq<char>, t: Seq<char>)
    requires
        p.len() <= a.len(),
    ensures
        p.is_prefix_of(a + t) <==> p.is_prefix_of(a),
{
    assert((a + t).subrange(0, p.len() as int) =~= a.subrange(0, p.len() as int));
}

/// The kind of a file follows from the start of its name: a name that starts
/// with `removed` and with none of `content`, `package`, `location` is a hidden
/// file, whatever follows; one that starts with `location_link` is a location
/// link; one that starts with `location` but not `location_link` is a location
/// picture; `content` and `package` name pictures of their own kind.
pub proof fn lemma_file_kind_by_start(name: Seq<char>)
    ensures
        "content"@.is_prefix_of(name) ==> file_kind(name) == ItemFileKind::Content,
        !"content"@.is_prefix_of(name) && "package"@.is_prefix_of(name) ==> file_kind(name)
            == ItemFileKind::Package,
        !"content"@.is_prefix_of(name) && !"package"@.is_prefix_of(name)
            && "location_link"@.is_prefix_of(name) ==> file_kind(name) == ItemFileKind::LocationLink,
        !"content"@.is_prefix_of(name) && !"package"@.is_prefix_of(name) && "location"@.is_prefix_of(
            name,
        ) && !"location_link"@.is_prefix_of(name) ==> file_kind(name) == ItemFileKind::Location,
        "removed"@.is_prefix_of(name) && !"content"@.is_prefix_of(name) && !"package"@.is_prefix_of(
            name,
        ) && !"location"@.is_prefix_of(name) ==> file_kind(name) == ItemFileKind::Removed,
        !"content"@.is_prefix_of(name) && !"package"@.is_prefix_of(name) && !"location"@.is_prefix_of(
            name,
        ) && !"removed"@.is_prefix_of(name) ==> file_kind(name) == ItemFileKind::Other,
{
    reveal_strlit("location");
    reveal_strlit("location_link");
    if "location_link"@.is_prefix_of(name) {
        assert("location"@ =~= "location_link"@.subrange(0, 8));
        assert("location"@.is_prefix_of(name)) by {
            assert(name.subrange(0, 8) =~= "location_link"@.subrange(0, 8));
        }
    }
}

/// What follows the first 13 characters of a name never changes the kind of
/// the file: no suffix turns a hidden file back into a live one.
pub proof fn lemma_file_kind_ignores_end(a: Seq<char>, t: Seq<char>)
    requires
        a.len() >= 13,
    ensures
        file_kind(a + t) == file_kind(a),
{
    reveal_strlit("content");
    reveal_strlit("package");
    reveal_strlit("location_link");
    reveal_strlit("location");
    reveal_strlit("removed");
    lemma_prefix_of_extended("content"@, a, t);
    lemma_prefix_of_extended("package"@, a, t);
    lemma_prefix_of_extended("location_link"@, a, t);
    lemma_prefix_of_extended("location"@, a, t);
    lemma_prefix_of_extended("removed"@, a, t);
}

/// Tells what the file named `name` is.
pub fn item_file_kind(name: &str) -> (k: ItemFileKind)
    ensures
        k == file_kind(name@),
{
    if has_prefix(name, "content") {
        ItemFileKind::Content
    } else if has_prefix(name, "package") {
        ItemFileKind::Package
    } else if has_prefix(name, "location_link") {
        ItemFileKind::LocationLink
    } else if has_prefix(name, "location") {
        ItemFileKind::Location
    } else if has_prefix(name, "removed") {
        ItemFileKind::Removed
    } else {
        ItemFileKind::Other
    }
}

/// Whether the file named `name` gets a thumbnail: its name ends in `.jpg`.
pub fn wants_thumbnail(name: &str) -> (r: bool)
    ensures
        r == ".jpg"@.is_suffix_of(name@),
{
    has_suffix(name, ".jpg")
}

/// A file of an item's folder, with what its line shows: for a location link
/// the link that the file holds, for any other file the path of its thumbnail
/// (empty where it has none).
pub struct ItemFile {
    pub name: String,
    pub detail: String,
}

/// The line that an item's page shows for file `f`: its name, then the link
/// it holds (a location link) or the address of its thumbnail.
pub open spec fn listed_pair(f: ItemFile) -> TextPair {
    if file_kind(f.name@) == ItemFileKind::LocationLink {
        (f.name@, f.detail@)
    } else {
        (f.name@, "../../"@ + f.detail@)
    }
}

/// The lines of the files of kind `kind`, in the order of `files`.
pub open spec fn pairs_of_kind(files: Seq<ItemFile>, kind: ItemFileKind) -> Seq<TextPair>
    decreases files.len(),
{
    if files.len() == 0 {
        Seq::empty()
    } else {
        let rest = pairs_of_kind(files.drop_last(), kind);
        if file_kind(files.last().name@) == kind {
            rest.push(listed_pair(files.last()))
        } else {
            rest
        }
    }
}

/// The view of a line of two texts.
pub open spec fn pair_view(p: (String, String)) -> TextPair {
    (p.0@, p.1@)
}

/// The views of a list of lines.
pub open spec fn pair_views(s: Seq<(String, String)>) -> Seq<TextPair> {
    s.map_values(|p: (String, String)| pair_view(p))
}

/// The five lists of an item's page.
pub struct CatalogItemLists {
    pub content: Vec<(String, String)>,
    pub package: Vec<(String, String)>,
    pub location: Vec<(String, String)>,
    pub removed: Vec<(String, String)>,
    pub location_links: Vec<(String, String)>,
}

fn arrange_pairs(v: &Vec<(String, String)>) -> (r: Vec<(String, String)>)
    ensures
        arranged(pair_views(v@), pair_views(v@), pair_views(r@)),
{
    let mut keys: Vec<PairKey> = Vec::new();
    let mut i: usize = 0;
    while i < v.len()
        invariant
            i <= v.len(),
            keys.len() == i,
            forall|k: int| 0 <= k < i ==> #[trigger] keys@[k]@ == pair_view(v@[k]),
        decreases v.len() - i,
    {
        keys.push(PairKey { first: chars_of(&v[i].0), second: chars_of(&v[i].1) });
        i = i + 1;
    }
    assert(key_views(keys@) =~= pair_views(v@));
    let p = descending_order(&keys);
    let mut r: Vec<(String, String)> = Vec::new();
    let mut k: usize = 0;
    while k < p.len()
        invariant
            is_descending_order(pair_views(v@), p@),
            v.len() == pair_views(v@).len(),
            k <= p.len(),
            r.len() == k,
            forall|j: int| 0 <= j < k ==> #[trigger] pair_view(r@[j]) == pair_view(v@[p@[j] as int]),
        decreases p.len() - k,
    {
        let e = &v[p[k]];
        r.push((e.0.clone(), e.1.clone()));
        k = k + 1;
    }
    assert(pair_views(r@).len() == p@.len());
    assert(forall|j: int|
        0 <= j < pair_views(r@).len() ==> #[trigger] pair_views(r@)[j] == pair_views(v@)[p@[j] as int]);
    r
}

fn listed_line(f: &ItemFile, kind: ItemFileKind) -> (r: (String, String))
    requires
        kind == file_kind(f.name@),
    ensures
        pair_view(r) == listed_pair(*f),
{
    if kind == ItemFileKind::LocationLink {
        (f.name.clone(), f.detail.clone())
    } else {
        proof {
            reveal_strlit("../../");
        }
        (f.name.clone(), String::from_str("../../").concat(f.detail.as_str()))
    }
}

/// The lists of an item's page: the files of each kind, each list ordered from
/// the greatest line to the least; files of no kind are left out.
pub fn arrange_catalog_item(files: &Vec<ItemFile>) -> (r: CatalogItemLists)
    ensures
        arranged(
            pairs_of_kind(files@, ItemFileKind::Content),
            pairs_of_kind(files@, ItemFileKind::Content),
            pair_views(r.content@),
        ),
        arranged(
            pairs_of_kind(files@, ItemFileKind::Package),
            pairs_of_kind(files@, ItemFileKind::Package),
            pair_views(r.package@),
        ),
        arranged(
            pairs_of_kind(files@, ItemFileKind::Location),
            pairs_of_kind(files@, ItemFileKind::Location),
            pair_views(r.location@),
        ),
        arranged(
            pairs_of_kind(files@, ItemFileKind::Removed),
            pairs_of_kind(files@, ItemFileKind::Removed),
            pair_views(r.removed@),
        ),
        arranged(
            pairs_of_kind(files@, ItemFileKind::LocationLink),
            pairs_of_kind(files@, ItemFileKind::LocationLink),
            pair_views(r.location_links@),
        ),
{
    let mut content: Vec<(String, String)> = Vec::new();
    let mut package: Vec<(String, String)> = Vec::new();
    let mut location: Vec<(String, String)> = Vec::new();
    let mut removed: Vec<(String, String)> = Vec::new();
    let mut links: Vec<(String, String)> = Vec::new();
    let mut i: usize = 0;
    while i < files.len()
        invariant
            i <= files.len(),
            pair_views(content@) == pairs_of_kind(files@.take(i as int), ItemFileKind::Content),
            pair_views(package@) == pairs_of_kind(files@.take(i as int), ItemFileKind::Package),
            pair_views(location@) == pairs_of_kind(files@.take(i as int), ItemFileKind::Location),
            pair_views(removed@) == pairs_of_kind(files@.take(i as int), ItemFileKind::Removed),
            pair_views(links@) == pairs_of_kind(
                files@.take(i as int),
                ItemFileKind::LocationLink,
            ),
        decreases files.len() - i,
    {
        let f = &files[i];
        let kind = item_file_kind(&f.name);
        assert(files@.take(i + 1).drop_last() =~= files@.take(i as int));
        assert(files@.take(i + 1).last() == files@[i as int]);
        match kind {
            ItemFileKind::Content => {
                let line = listed_line(f, kind);
                content.push(line);
            },
            ItemFileKind::Package => {
                let line = listed_line(f, kind);
                package.push(line);
            },
            ItemFileKind::Location => {
                let line = listed_line(f, kind);
                location.push(line);
            },
            ItemFileKind::Removed => {
                let line = listed_line(f, kind);
                removed.push(line);
            },
            ItemFileKind::LocationLink => {
                let line = listed_line(f, kind);
                links.push(line);
            },
            ItemFileKind::Other => {},
        }
        assert(pair_views(content@) =~= pairs_of_kind(files@.take(i + 1), ItemFileKind::Content));
        assert(pair_views(package@) =~= pairs_of_kind(files@.take(i + 1), ItemFileKind::Package));
        assert(pair_views(location@) =~= pairs_of_kind(
            files@.take(i + 1),
            ItemFileKind::Location,
        ));
        assert(pair_views(removed@) =~= pairs_of_kind(files@.take(i + 1), ItemFileKind::Removed));
        assert(pair_views(links@) =~= pairs_of_kind(
            files@.take(i + 1),
            ItemFileKind::LocationLink,
        ));
        i = i + 1;
    }
    assert(files@.take(files.len() as int) =~= files@);
    CatalogItemLists {
        content: arrange_pairs(&content),
        package: arrange_pairs(&package),
        location: arrange_pairs(&location),
        removed: arrange_pairs(&removed),
        location_links: arrange_pairs(&links),
    }
}

} // verus!
