# item_catalog

A small web catalogue of items: each item is a numbered folder of pictures and
link files under `data/`, and items can be put in categories kept in SQLite.

`src/` is the verified library (Verus):

- `text` — characters of a text, prefixes and suffixes, decimal numbers
  (writing and reading, as `str::parse::<u32>`).
- `order` — the order of texts and of pairs of texts, and a stable arrangement
  from the greatest key to the least, with its laws (a strict total order, a
  permutation, unique).
- `listing` — what the index page and an item's page list, and in which order.
- `form` — the fields of a submitted form as a map from names to values.
- `store` — what each read of the category tables gives and which rows a change
  of an item's categories writes, with the laws that relate reads to changes.
- `index` — the category filter, the decision whether an item is shown, and the
  number for a new item.
- `paths` — the files and addresses the catalogue uses, with the law that
  showing a hidden file again gives back its name.
- `thumbnail`, `assets` — thumbnails beside pictures, and replies for built-in
  files (through `std::path` and `mime_guess`).

`app/` is the web server (actix-web, sqlx, image, askama, rust-embed): it reads
folders and tables, asks the library what to do, and writes files and rows.
