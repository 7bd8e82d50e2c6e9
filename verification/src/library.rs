//! The library itself: the in-memory catalog, its query and mutation
//! operations, the ingestion pipeline, and the directory browser's state
//! machine. Every mutating operation leaves the catalog in the state its
//! contract describes; the surrounding application persists the catalog
//! through the codec after each successful mutation.

use vstd::prelude::*;
use vstd::string::StringExecFns;
use crate::file_picker::{detect_spec, FileSelection, SelectionView};
use crate::models::{
    ext_of_name, find_last_dot, format_of_ext, format_of_folded, is_ebook_name, last_dot_at,
    lemma_format_of_ext_folded, lemma_last_dot_unique, stem_of, BookFormat, BookMetadata,
    BookStorage, BookView, EntryView, FileEntry, StorageView,
};
use crate::storage::StorageManager;
use crate::text::{
    chars_eq, chars_le, chars_to_string, contains_chars, dec_rep, fold_chars, is_substring,
    lemma_lex_le_refl, lemma_lex_le_total, lemma_lex_le_trans, lex_le, lower_of, lower_seq,
    lowercase, push_dec, str_eq, str_to_chars, subvec,
};

verus! {

/// The ceiling on a payload's size: fifty mebibytes.
pub const MAX_BOOK_SIZE: u64 = 50 * 1024 * 1024;

/// The catalog state, the browser state, and the sticky last error.
pub struct Library {
    pub books: Vec<BookMetadata>,
    pub current_path: String,
    pub browsing_mode: bool,
    pub file_list: Vec<FileEntry>,
    pub err: Option<String>,
}

/// The mathematical catalog: the records' views, in order.
pub open spec fn catalog_of(books: Seq<BookMetadata>) -> Seq<BookView> {
    books.map_values(|b: BookMetadata| b@)
}

/// Some record of the catalog carries this id.
pub open spec fn id_taken(cat: Seq<BookView>, id: Seq<char>) -> bool {
    exists|i: int| 0 <= i < cat.len() && cat[i].id == id
}

/// Some record of the catalog carries this file name and size.
pub open spec fn name_size_taken(cat: Seq<BookView>, name: Seq<char>, size: u64) -> bool {
    exists|i: int| 0 <= i < cat.len() && cat[i].file_name == name && cat[i].size == size
}

/// The first record with the given id, if any.
pub open spec fn find_first(cat: Seq<BookView>, id: Seq<char>) -> Option<BookView>
    decreases cat.len(),
{
    if cat.len() == 0 {
        Option::None
    } else if cat[0].id == id {
        Option::Some(cat[0])
    } else {
        find_first(cat.skip(1), id)
    }
}

/// The index of the first record with the given id (meaningful only when one
/// exists).
pub open spec fn first_index(cat: Seq<BookView>, id: Seq<char>) -> int
    decreases cat.len(),
{
    if cat.len() == 0 {
        0
    } else if cat[0].id == id {
        0
    } else {
        1 + first_index(cat.skip(1), id)
    }
}

/// The catalog with every record of the given id removed.
pub open spec fn remove_id(cat: Seq<BookView>, id: Seq<char>) -> Seq<BookView>
    decreases cat.len(),
{
    if cat.len() == 0 {
        cat
    } else {
        let pre = remove_id(cat.drop_last(), id);
        if cat.last().id == id {
            pre
        } else {
            pre.push(cat.last())
        }
    }
}

/// A first hit determines `find_first` and `first_index`.
pub proof fn lemma_find_first_hit(cat: Seq<BookView>, id: Seq<char>, i: int)
    requires
        0 <= i < cat.len(),
        cat[i].id == id,
        forall|j: int| 0 <= j < i ==> cat[j].id != id,
    ensures
        find_first(cat, id) == Option::Some(cat[i]),
        first_index(cat, id) == i,
    decreases cat.len(),
{
    if i > 0 {
        lemma_find_first_hit(cat.skip(1), id, i - 1);
    }
}

/// Without a hit, `find_first` finds nothing.
pub proof fn lemma_find_first_absent(cat: Seq<BookView>, id: Seq<char>)
    requires
        forall|j: int| 0 <= j < cat.len() ==> cat[j].id != id,
    ensures
        find_first(cat, id) is None,
    decreases cat.len(),
{
    if cat.len() > 0 {
        assert(forall|j: int| 0 <= j < cat.skip(1).len() ==> cat.skip(1)[j].id != id);
        lemma_find_first_absent(cat.skip(1), id);
    }
}

/// No record of `remove_id(cat, id)` carries `id`.
pub proof fn lemma_remove_id_absent(cat: Seq<BookView>, id: Seq<char>)
    ensures
        forall|k: int|
            0 <= k < remove_id(cat, id).len() ==> #[trigger] remove_id(cat, id)[k].id != id,
    decreases cat.len(),
{
    if cat.len() > 0 {
        lemma_remove_id_absent(cat.drop_last(), id);
    }
}

/// Removing an id and then looking it up always yields not-found.
pub proof fn lemma_remove_then_find(cat: Seq<BookView>, id: Seq<char>)
    ensures
        find_first(remove_id(cat, id), id) is None,
        !id_taken(remove_id(cat, id), id),
{
    lemma_remove_id_absent(cat, id);
    lemma_find_first_absent(remove_id(cat, id), id);
}

/// Overwriting the reading position of the first record with a given id and
/// then fetching that id yields the overwritten record.
pub proof fn lemma_update_then_find(cat: Seq<BookView>, id: Seq<char>, p: usize)
    requires
        id_taken(cat, id),
    ensures
        ({
            let i = first_index(cat, id);
            let patched = BookView { last_read_position: p, ..cat[i] };
            find_first(cat.update(i, patched), id) == Option::Some(patched)
        }),
{
    let w = choose|w: int| 0 <= w < cat.len() && cat[w].id == id;
    let i = first_index_hit(cat, id, w);
    let patched = BookView { last_read_position: p, ..cat[i] };
    let cat2 = cat.update(i, patched);
    assert(forall|j: int| 0 <= j < i ==> cat2[j].id != id);
    lemma_find_first_hit(cat2, id, i);
}

/// The least index carrying `id`, as a proof-level witness.
proof fn first_index_hit(cat: Seq<BookView>, id: Seq<char>, w: int) -> (i: int)
    requires
        0 <= w < cat.len(),
        cat[w].id == id,
    ensures
        0 <= i < cat.len(),
        cat[i].id == id,
        forall|j: int| 0 <= j < i ==> cat[j].id != id,
        first_index(cat, id) == i,
    decreases w,
{
    if cat[0].id == id {
        lemma_find_first_hit(cat, id, 0);
        0
    } else {
        assert(cat.skip(1)[w - 1] == cat[w]);
        let i0 = first_index_hit(cat.skip(1), id, w - 1);
        assert(forall|j: int| 1 <= j < i0 + 1 ==> cat[j] == cat.skip(1)[j - 1]);
        lemma_find_first_hit(cat, id, i0 + 1);
        i0 + 1
    }
}

/// Relies on `uuid::Uuid::new_v4` and its display form: a random version-4
/// UUID rendered in the 36-character hyphenated encoding. The value is
/// random, so only its length is claimed.
#[verifier::external_body]
fn gen_uuid() -> (r: String)
    ensures
        r@.len() == 36,
{
    uuid::Uuid::new_v4().to_string()
}

/// Relies on `chrono::Utc::now` and `DateTime::to_rfc3339`: the current time
/// in RFC 3339 form. The value depends on the clock, so nothing is claimed.
#[verifier::external_body]
fn now_rfc3339() -> (r: String) {
    chrono::Utc::now().to_rfc3339()
}

/// Whether some record carries the given id.
fn books_contain_id(books: &Vec<BookMetadata>, book_id: &str) -> (r: bool)
    ensures
        r == id_taken(catalog_of(books@), book_id@),
{
    let mut i: usize = 0;
    while i < books.len()
        invariant
            i <= books.len(),
            forall|j: int| 0 <= j < i ==> catalog_of(books@)[j].id != book_id@,
        decreases books.len() - i,
    {
        if str_eq(books[i].id.as_str(), book_id) {
            assert(catalog_of(books@)[i as int].id == book_id@);
            return true;
        }
        i = i + 1;
    }
    false
}

/// The title a payload yields: the file name minus a trailing `.` and the
/// detected extension, compared after ASCII case folding; the whole name
/// when it does not end so.
pub open spec fn title_from(name: Seq<char>, ext: Seq<char>) -> Seq<char> {
    let suf = seq!['.'] + ext;
    if name.len() >= suf.len() && lower_seq(
        name.subrange(name.len() - suf.len(), name.len() as int),
    ) == lower_seq(suf) {
        name.subrange(0, name.len() - suf.len())
    } else {
        name
    }
}

/// The record a payload yields under a given id, extension, format and date.
pub open spec fn payload_record(
    file: SelectionView,
    id: Seq<char>,
    ext: Seq<char>,
    fmt: BookFormat,
    date: Seq<char>,
) -> BookView {
    BookView {
        id: id,
        title: title_from(file.name, ext),
        author: "Unknown Author"@,
        file_name: file.name,
        format: fmt,
        size: file.size,
        storage: StorageView::Inline(file.data),
        cover_image: Option::None,
        last_read_position: 0,
        total_pages: 0,
        added_date: date,
    }
}

/// The record carries the file name and size of one of the payloads.
pub open spec fn payload_sourced(b: BookView, files: Seq<SelectionView>) -> bool {
    exists|j: int|
        0 <= j < files.len() && b.file_name == (#[trigger] files[j]).name && b.size
            == files[j].size
}

/// The views of a payload list, in order.
pub open spec fn selections_of(files: Seq<FileSelection>) -> Seq<SelectionView> {
    files.map_values(|f: FileSelection| f@)
}

/// The validation error a payload meets against a catalog, if any; only the
/// id draw is outside this function.
pub open spec fn payload_error(cat: Seq<BookView>, f: SelectionView) -> Option<Seq<char>> {
    let det = detect_spec(f.content_type, f.name);
    if f.size > MAX_BOOK_SIZE {
        Option::Some(oversize_msg(f.size))
    } else if det is None {
        Option::Some("Unsupported file format"@)
    } else if format_of_ext(det.unwrap()) is None {
        Option::Some("Invalid book format"@)
    } else if name_size_taken(cat, f.name, f.size) {
        Option::Some("This book already exists in your library"@)
    } else {
        Option::None
    }
}

/// One payload's admissible outcome against the catalog it met: rejected
/// with exactly its validation error; rejected for a colliding drawn id,
/// which is possible only when some record already carries a 36-character
/// id; or appended as its payload record under a fresh 36-character id.
pub open spec fn outcome_admitted(
    cat: Seq<BookView>,
    f: SelectionView,
    out: Result<BookView, Seq<char>>,
) -> bool {
    match out {
        Result::Ok(b) => {
            &&& payload_error(cat, f) is None
            &&& (exists|id: Seq<char>, date: Seq<char>|
                id.len() == 36 && !id_taken(cat, id) && b == payload_record(
                    f,
                    id,
                    detect_spec(f.content_type, f.name).unwrap(),
                    format_of_ext(detect_spec(f.content_type, f.name).unwrap()).unwrap(),
                    date,
                ))
        },
        Result::Err(m) => payload_error(cat, f) == Option::Some(m) || (payload_error(cat, f)
            is None && m == "A fresh id was already in use"@ && (exists|idc: Seq<char>|
            idc.len() == 36 && id_taken(cat, idc))),
    }
}

/// The catalog a batch of outcomes builds over an initial one.
pub open spec fn batch_catalog(
    cat0: Seq<BookView>,
    outs: Seq<Result<BookView, Seq<char>>>,
) -> Seq<BookView>
    decreases outs.len(),
{
    if outs.len() == 0 {
        cat0
    } else {
        let pre = batch_catalog(cat0, outs.drop_last());
        match outs.last() {
            Result::Ok(b) => pre.push(b),
            Result::Err(_) => pre,
        }
    }
}

/// The error lines of a batch: one `name + ": " + reason` per rejection, in
/// input order.
pub open spec fn batch_errors(
    files: Seq<SelectionView>,
    outs: Seq<Result<BookView, Seq<char>>>,
) -> Seq<Seq<char>>
    decreases outs.len(),
{
    if outs.len() == 0 {
        Seq::<Seq<char>>::empty()
    } else {
        let pre = batch_errors(files, outs.drop_last());
        match outs.last() {
            Result::Ok(_) => pre,
            Result::Err(m) => pre.push(files[outs.len() - 1].name + ": "@ + m),
        }
    }
}

/// Every outcome of the batch is admissible against the catalog the
/// preceding outcomes built.
pub open spec fn batch_admitted(
    cat0: Seq<BookView>,
    files: Seq<SelectionView>,
    outs: Seq<Result<BookView, Seq<char>>>,
) -> bool {
    &&& outs.len() == files.len()
    &&& (forall|k: int|
        0 <= k < outs.len() ==> outcome_admitted(
            batch_catalog(cat0, outs.take(k)),
            files[k],
            #[trigger] outs[k],
        ))
}

/// The views of the collected strings, in order.
pub open spec fn strings_of(ss: Seq<String>) -> Seq<Seq<char>> {
    ss.map_values(|s: String| s@)
}

/// The message rejecting an oversized payload.
pub open spec fn oversize_msg(size: u64) -> Seq<char> {
    "File too large: "@ + dec_rep((size / 1048576) as nat) + " MB (max 50 MB)"@
}

/// A record's title or author contains the folded query.
pub open spec fn book_matches(b: BookView, ql: Seq<char>) -> bool {
    is_substring(lower_of(b.title), ql) || is_substring(lower_of(b.author), ql)
}

/// The records whose title or author contains the folded query, in catalog
/// order.
pub open spec fn search_spec(cat: Seq<BookView>, ql: Seq<char>) -> Seq<BookView>
    decreases cat.len(),
{
    if cat.len() == 0 {
        cat
    } else {
        let pre = search_spec(cat.drop_last(), ql);
        if book_matches(cat.last(), ql) {
            pre.push(cat.last())
        } else {
            pre
        }
    }
}

/// Whether some record carries the given file name and size.
fn books_contain_name_size(books: &Vec<BookMetadata>, name: &str, size: u64) -> (r: bool)
    ensures
        r == name_size_taken(catalog_of(books@), name@, size),
{
    let mut i: usize = 0;
    while i < books.len()
        invariant
            i <= books.len(),
            forall|j: int|
                0 <= j < i ==> !(catalog_of(books@)[j].file_name == name@ && catalog_of(
                    books@,
                )[j].size == size),
        decreases books.len() - i,
    {
        if str_eq(books[i].file_name.as_str(), name) && books[i].size == size {
            assert(catalog_of(books@)[i as int].file_name == name@);
            return true;
        }
        i = i + 1;
    }
    false
}

fn build_oversize_msg(size: u64) -> (r: String)
    ensures
        r@ == oversize_msg(size),
{
    proof {
        reveal_strlit("File too large: ");
        reveal_strlit(" MB (max 50 MB)");
    }
    let mut v = str_to_chars("File too large: ");
    push_dec(&mut v, size / 1048576);
    let mut tail = str_to_chars(" MB (max 50 MB)");
    v.append(&mut tail);
    proof {
        assert(v@ =~= oversize_msg(size));
    }
    chars_to_string(&v)
}

impl Library {
    pub open spec fn catalog(&self) -> Seq<BookView> {
        catalog_of(self.books@)
    }

    /// A library with an empty catalog, not browsing, with no error. The
    /// caller loads any persisted catalog through the codec and installs it.
    pub fn new() -> (r: Library)
        ensures
            r.catalog() =~= Seq::<BookView>::empty(),
            r.books@.len() == 0,
            r.current_path@ == "."@,
            r.browsing_mode == false,
            r.file_list@.len() == 0,
            r.err is None,
    {
        Library {
            books: Vec::new(),
            current_path: String::from_str("."),
            browsing_mode: false,
            file_list: Vec::new(),
            err: Option::None,
        }
    }

    /// The first record with the given id, or not-found.
    pub fn get_book<'a>(&'a self, book_id: &str) -> (r: Option<&'a BookMetadata>)
        ensures
            match r {
                Option::Some(b) => find_first(self.catalog(), book_id@) == Option::Some(b@)
                    && id_taken(self.catalog(), book_id@),
                Option::None => !id_taken(self.catalog(), book_id@) && find_first(self.catalog(), book_id@) is None,
            },
    {
        let mut i: usize = 0;
        while i < self.books.len()
            invariant
                i <= self.books.len(),
                forall|j: int| 0 <= j < i ==> self.catalog()[j].id != book_id@,
            decreases self.books.len() - i,
        {
            if str_eq(self.books[i].id.as_str(), book_id) {
                proof {
                    assert(self.catalog()[i as int].id == book_id@);
                    lemma_find_first_hit(self.catalog(), book_id@, i as int);
                }
                return Option::Some(&self.books[i]);
            }
            i = i + 1;
        }
        proof {
            lemma_find_first_absent(self.catalog(), book_id@);
        }
        Option::None
    }

    /// Remove every record with the given id; an unknown id is an error and
    /// leaves the catalog unchanged. The caller deletes any backing file and
    /// persists the catalog.
    pub fn remove_book(&mut self, book_id: &str) -> (r: Result<(), String>)
        ensures
            match r {
                Result::Ok(_) => id_taken(old(self).catalog(), book_id@) && final(self).catalog()
                    =~= remove_id(old(self).catalog(), book_id@),
                Result::Err(e) => !id_taken(old(self).catalog(), book_id@) && e@
                    == "Book not found"@ && final(self).books@ == old(self).books@,
            },
            final(self).current_path == old(self).current_path,
            final(self).browsing_mode == old(self).browsing_mode,
            final(self).file_list == old(self).file_list,
            final(self).err == old(self).err,
    {
        if !books_contain_id(&self.books, book_id) {
            return Result::Err(String::from_str("Book not found"));
        }
        let ghost cat = self.catalog();
        let mut kept: Vec<BookMetadata> = Vec::new();
        let mut i: usize = 0;
        while i < self.books.len()
            invariant
                i <= self.books.len(),
                cat == catalog_of(self.books@),
                catalog_of(kept@) =~= remove_id(cat.take(i as int), book_id@),
            decreases self.books.len() - i,
        {
            let ghost prev = kept@;
            if !str_eq(self.books[i].id.as_str(), book_id) {
                kept.push(self.books[i].duplicate());
            }
            i = i + 1;
            proof {
                assert(cat.take(i as int).drop_last() =~= cat.take(i - 1));
                assert(cat.take(i as int).last() == cat[i - 1]);
                assert(catalog_of(kept@) =~= remove_id(cat.take(i as int), book_id@));
            }
        }
        proof {
            assert(cat.take(self.books@.len() as int) =~= cat);
        }
        self.books = kept;
        Result::Ok(())
    }

    /// Overwrite the reading position of the first record with the given id;
    /// an absent id leaves the catalog provably unchanged. The position is
    /// stored as given, without being checked against `total_pages`. The
    /// caller persists the catalog.
    pub fn update_reading_position(&mut self, book_id: &str, position: usize) -> (r: Result<
        (),
        String,
    >)
        ensures
            r is Ok,
            !id_taken(old(self).catalog(), book_id@) ==> final(self).books@ == old(self).books@,
            id_taken(old(self).catalog(), book_id@) ==> final(self).catalog() =~= old(self).catalog().update(
                first_index(old(self).catalog(), book_id@),
                BookView {
                    last_read_position: position,
                    ..old(self).catalog()[first_index(old(self).catalog(), book_id@)]
                },
            ),
            final(self).current_path == old(self).current_path,
            final(self).browsing_mode == old(self).browsing_mode,
            final(self).file_list == old(self).file_list,
            final(self).err == old(self).err,
    {
        let ghost cat = self.catalog();
        let mut i: usize = 0;
        while i < self.books.len()
            invariant
                i <= self.books.len(),
                cat == catalog_of(self.books@),
                *self == *old(self),
                forall|j: int| 0 <= j < i ==> cat[j].id != book_id@,
            decreases self.books.len() - i,
        {
            if str_eq(self.books[i].id.as_str(), book_id) {
                proof {
                    assert(cat[i as int].id == book_id@);
                    lemma_find_first_hit(cat, book_id@, i as int);
                }
                let mut b = self.books.remove(i);
                proof {
                    assert(b@ == cat[i as int]);
                }
                b.last_read_position = position;
                proof {
                    assert(b@ =~= BookView { last_read_position: position, ..cat[i as int] });
                }
                self.books.insert(i, b);
                proof {
                    assert(self.books@ =~= old(self).books@.update(i as int, self.books@[i as int]));
                    assert(self.catalog() =~= cat.update(
                        i as int,
                        BookView { last_read_position: position, ..cat[i as int] },
                    ));
                }
                return Result::Ok(());
            }
            i = i + 1;
        }
        Result::Ok(())
    }

    /// Empty the catalog; backing files are not deleted. The caller persists
    /// the catalog.
    pub fn clear_library(&mut self) -> (r: Result<(), String>)
        ensures
            r is Ok,
            final(self).books@.len() == 0,
            final(self).catalog() =~= Seq::<BookView>::empty(),
            final(self).current_path == old(self).current_path,
            final(self).browsing_mode == old(self).browsing_mode,
            final(self).file_list == old(self).file_list,
            final(self).err == old(self).err,
    {
        self.books.clear();
        Result::Ok(())
    }

    /// Add one payload to the catalog under the given fresh id and
    /// timestamp: reject an oversized payload, an unrecognized format, a
    /// duplicate (same file name and size), and a taken id, in that order,
    /// each leaving the catalog unchanged; otherwise append the record built
    /// from the payload. The caller persists the catalog.
    pub fn add_book_with_id(&mut self, file: FileSelection, id: String, added_date: String) -> (r:
        Result<(), String>)
        ensures
            ({
                let cat = old(self).catalog();
                let det = detect_spec(file@.content_type, file@.name);
                match r {
                    Result::Ok(_) => file@.size <= MAX_BOOK_SIZE && (det matches Option::Some(e)
                        && format_of_ext(e) matches Option::Some(f) && !name_size_taken(
                        cat,
                        file@.name,
                        file@.size,
                    ) && !id_taken(cat, id@) && final(self).catalog() =~= cat.push(
                        payload_record(file@, id@, e, f, added_date@),
                    )),
                    Result::Err(msg) => final(self).books@ == old(self).books@ && (if file@.size
                        > MAX_BOOK_SIZE {
                        msg@ == oversize_msg(file@.size)
                    } else if det is None {
                        msg@ == "Unsupported file format"@
                    } else if format_of_ext(det.unwrap()) is None {
                        msg@ == "Invalid book format"@
                    } else if name_size_taken(cat, file@.name, file@.size) {
                        msg@ == "This book already exists in your library"@
                    } else {
                        id_taken(cat, id@) && msg@ == "A fresh id was already in use"@
                    }),
                }
            }),
            final(self).current_path == old(self).current_path,
            final(self).browsing_mode == old(self).browsing_mode,
            final(self).file_list == old(self).file_list,
            final(self).err == old(self).err,
    {
        proof {
            reveal_strlit("Unsupported file format");
            reveal_strlit("Invalid book format");
            reveal_strlit("This book already exists in your library");
            reveal_strlit("A fresh id was already in use");
            reveal_strlit("Unknown Author");
        }
        if file.size > MAX_BOOK_SIZE {
            return Result::Err(build_oversize_msg(file.size));
        }
        let fmt_str = match crate::file_picker::detect_book_format(
            file.content_type.as_str(),
            file.name.as_str(),
        ) {
            Option::Some(s) => s,
            Option::None => {
                return Result::Err(String::from_str("Unsupported file format"));
            },
        };
        let fmt = match BookFormat::from_extension(fmt_str.as_str()) {
            Option::Some(f) => f,
            Option::None => {
                return Result::Err(String::from_str("Invalid book format"));
            },
        };
        if books_contain_name_size(&self.books, file.name.as_str(), file.size) {
            return Result::Err(String::from_str("This book already exists in your library"));
        }
        if books_contain_id(&self.books, id.as_str()) {
            return Result::Err(String::from_str("A fresh id was already in use"));
        }
        let name_c = str_to_chars(file.name.as_str());
        let nlen = name_c.len();
        let mut suf: Vec<char> = Vec::new();
        suf.push('.');
        let mut ext_c = str_to_chars(fmt_str.as_str());
        suf.append(&mut ext_c);
        let sl = suf.len();
        proof {
            assert(suf@ =~= seq!['.'] + fmt_str@);
            assert(name_c@ == file@.name);
        }
        let suffix_matches = if nlen >= sl {
            let tail = fold_chars(&subvec(&name_c, nlen - sl, nlen));
            let folded_suf = fold_chars(&suf);
            chars_eq(&tail, &folded_suf)
        } else {
            false
        };
        let title_c = if suffix_matches {
            let t = subvec(&name_c, 0, nlen - sl);
            proof {
                assert(t@ =~= title_from(file@.name, fmt_str@));
            }
            t
        } else {
            let t = subvec(&name_c, 0, nlen);
            proof {
                assert(t@ =~= file@.name);
                assert(t@ =~= title_from(file@.name, fmt_str@));
            }
            t
        };
        let title = chars_to_string(&title_c);
        let record = BookMetadata {
            id: id,
            title: title,
            author: String::from_str("Unknown Author"),
            file_name: file.name,
            format: fmt,
            size: file.size,
            storage: BookStorage::Inline(file.data),
            cover_image: Option::None,
            last_read_position: 0,
            total_pages: 0,
            added_date: added_date,
        };
        let ghost cat = self.catalog();
        let ghost rv = record@;
        proof {
            let det = detect_spec(file@.content_type, file@.name);
            assert(det == Option::Some(fmt_str@));
            assert(rv =~= payload_record(file@, id@, fmt_str@, fmt, added_date@));
        }
        self.books.push(record);
        proof {
            assert(self.catalog() =~= cat.push(rv));
        }
        Result::Ok(())
    }

    /// Add one payload under a freshly drawn id and the current time. The
    /// validation errors are those of `add_book_with_id`; a drawn id that is
    /// already in use is also an error. The caller persists the catalog.
    pub fn add_book_from_file(&mut self, file: FileSelection) -> (r: Result<(), String>)
        ensures
            ({
                let cat = old(self).catalog();
                let det = detect_spec(file@.content_type, file@.name);
                match r {
                    Result::Ok(_) => file@.size <= MAX_BOOK_SIZE && (det matches Option::Some(e)
                        && format_of_ext(e) is Some && !name_size_taken(cat, file@.name, file@.size)
                        && final(self).catalog().len() == cat.len() + 1 && final(self).catalog().take(cat.len() as int) =~= cat && !id_taken(
                        cat,
                        final(self).catalog().last().id,
                    ) && final(self).catalog().last().id.len() == 36 && final(self).catalog()
                        =~= cat.push(
                        payload_record(
                            file@,
                            final(self).catalog().last().id,
                            e,
                            format_of_ext(e).unwrap(),
                            final(self).catalog().last().added_date,
                        ),
                    )),
                    Result::Err(msg) => final(self).books@ == old(self).books@ && (if file@.size
                        > MAX_BOOK_SIZE {
                        msg@ == oversize_msg(file@.size)
                    } else if det is None {
                        msg@ == "Unsupported file format"@
                    } else if format_of_ext(det.unwrap()) is None {
                        msg@ == "Invalid book format"@
                    } else if name_size_taken(cat, file@.name, file@.size) {
                        msg@ == "This book already exists in your library"@
                    } else {
                        msg@ == "A fresh id was already in use"@ && (exists|idc: Seq<char>|
                            idc.len() == 36 && id_taken(cat, idc))
                    }),
                }
            }),
            final(self).current_path == old(self).current_path,
            final(self).browsing_mode == old(self).browsing_mode,
            final(self).file_list == old(self).file_list,
            final(self).err == old(self).err,
    {
        let id = gen_uuid();
        let added_date = now_rfc3339();
        let r = self.add_book_with_id(file, id, added_date);
        proof {
            if r is Ok {
                assert(final(self).catalog().last() == final(self).catalog()[final(self).catalog().len() - 1]);
            }
        }
        r
    }

    /// Add each payload independently, collecting a `"name: reason"` line
    /// for each failure and keeping each success: the outcomes form a batch
    /// in which each payload is rejected exactly by its validation error
    /// against the catalog it met, or appended as its payload record.
    pub fn add_multiple_books(&mut self, files: Vec<FileSelection>) -> (r: Vec<String>)
        ensures
            r@.len() <= files@.len(),
            final(self).catalog().len() + r@.len() == old(self).catalog().len() + files@.len(),
            final(self).catalog().len() >= old(self).catalog().len(),
            final(self).catalog().take(old(self).catalog().len() as int) =~= old(self).catalog(),
            forall|i: int|
                old(self).catalog().len() <= i < final(self).catalog().len() ==> payload_sourced(
                    #[trigger] final(self).catalog()[i],
                    selections_of(files@),
                ),
            exists|outs: Seq<Result<BookView, Seq<char>>>|
                batch_admitted(old(self).catalog(), selections_of(files@), outs) && final(self).catalog() =~= batch_catalog(old(self).catalog(), outs) && strings_of(r@)
                    =~= batch_errors(selections_of(files@), outs),
            final(self).current_path == old(self).current_path,
            final(self).browsing_mode == old(self).browsing_mode,
            final(self).file_list == old(self).file_list,
            final(self).err == old(self).err,
    {
        proof {
            reveal_strlit(": ");
        }
        let ghost cat0 = self.catalog();
        let ghost mut outs: Seq<Result<BookView, Seq<char>>> = Seq::empty();
        let mut errors: Vec<String> = Vec::new();
        let mut i: usize = 0;
        while i < files.len()
            invariant
                i <= files.len(),
                errors@.len() <= i,
                outs.len() == i,
                self.catalog().len() + errors@.len() == cat0.len() + i,
                self.catalog().len() >= cat0.len(),
                self.catalog().take(cat0.len() as int) =~= cat0,
                self.catalog() =~= batch_catalog(cat0, outs),
                strings_of(errors@) =~= batch_errors(selections_of(files@), outs),
                forall|k: int|
                    0 <= k < outs.len() ==> outcome_admitted(
                        batch_catalog(cat0, outs.take(k)),
                        selections_of(files@)[k],
                        #[trigger] outs[k],
                    ),
                forall|k: int|
                    cat0.len() <= k < self.catalog().len() ==> payload_sourced(
                        #[trigger] self.catalog()[k],
                        selections_of(files@),
                    ),
                self.current_path == old(self).current_path,
                self.browsing_mode == old(self).browsing_mode,
                self.file_list == old(self).file_list,
                self.err == old(self).err,
            decreases files.len() - i,
        {
            let file = files[i].duplicate();
            let ghost fv = file@;
            proof {
                assert(selections_of(files@)[i as int] == files@[i as int]@);
                assert(fv =~= selections_of(files@)[i as int]);
            }
            let file_name = file.name.clone();
            let ghost pre = self.catalog();
            let ghost prev_outs = outs;
            let ghost prev_errors = errors@;
            match self.add_book_from_file(file) {
                Result::Ok(_) => {
                    proof {
                        assert(self.catalog().take(cat0.len() as int) =~= pre.take(
                            cat0.len() as int,
                        ));
                        assert(self.catalog().last().file_name
                            == selections_of(files@)[i as int].name);
                        assert(self.catalog().last().size == selections_of(files@)[i as int].size);
                        assert forall|k: int|
                            cat0.len() <= k < self.catalog().len() implies payload_sourced(
                            #[trigger] self.catalog()[k],
                            selections_of(files@),
                        ) by {
                            if k < pre.len() {
                                assert(self.catalog()[k] == pre[k]);
                                assert(payload_sourced(pre[k], selections_of(files@)));
                            } else {
                                assert(self.catalog()[k] == self.catalog().last());
                                assert(0 <= (i as int) && (i as int) < files@.len());
                                assert(payload_sourced(
                                    self.catalog().last(),
                                    selections_of(files@),
                                ));
                            }
                        }
                        let b = self.catalog().last();
                        let det = detect_spec(fv.content_type, fv.name);
                        assert(payload_error(pre, fv) is None);
                        assert(outcome_admitted(pre, fv, Result::<BookView, Seq<char>>::Ok(b))) by {
                            assert(b.id.len() == 36 && !id_taken(pre, b.id) && b == payload_record(
                                fv,
                                b.id,
                                det.unwrap(),
                                format_of_ext(det.unwrap()).unwrap(),
                                b.added_date,
                            ));
                        }
                        outs = outs.push(Result::Ok(b));
                        assert(outs.drop_last() =~= prev_outs);
                        assert(batch_catalog(cat0, outs) =~= batch_catalog(cat0, prev_outs).push(
                            b,
                        ));
                        assert(self.catalog() =~= batch_catalog(cat0, outs));
                        assert(batch_errors(selections_of(files@), outs) =~= batch_errors(
                            selections_of(files@),
                            prev_outs,
                        ));
                    }
                },
                Result::Err(e) => {
                    let mut msg = file_name;
                    msg.append(": ");
                    msg.append(e.as_str());
                    proof {
                        assert(msg@ =~= fv.name + ": "@ + e@);
                    }
                    errors.push(msg);
                    proof {
                        assert(outcome_admitted(pre, fv, Result::<BookView, Seq<char>>::Err(e@)));
                        outs = outs.push(Result::Err(e@));
                        assert(outs.drop_last() =~= prev_outs);
                        assert(batch_catalog(cat0, outs) =~= batch_catalog(cat0, prev_outs));
                        assert(self.catalog() =~= batch_catalog(cat0, outs));
                        assert(batch_errors(selections_of(files@), outs) =~= batch_errors(
                            selections_of(files@),
                            prev_outs,
                        ).push(selections_of(files@)[i as int].name + ": "@ + e@));
                        assert(strings_of(errors@) =~= strings_of(prev_errors).push(msg@));
                        assert(strings_of(errors@) =~= batch_errors(selections_of(files@), outs));
                    }
                },
            }
            proof {
                assert forall|k: int| 0 <= k < outs.len() implies outcome_admitted(
                    batch_catalog(cat0, outs.take(k)),
                    selections_of(files@)[k],
                    #[trigger] outs[k],
                ) by {
                    if k < outs.len() - 1 {
                        assert(outs.take(k) =~= prev_outs.take(k));
                        assert(outs[k] == prev_outs[k]);
                    } else {
                        assert(outs.take(k) =~= prev_outs);
                        assert(batch_catalog(cat0, prev_outs) =~= pre);
                        assert(outs[k] == outs.last());
                    }
                }
            }
            i = i + 1;
        }
        proof {
            assert(batch_admitted(cat0, selections_of(files@), outs));
        }
        errors
    }

    /// The records whose title or author contains the query,
    /// case-insensitively, in catalog order; the empty query matches every
    /// record.
    pub fn search_books<'a>(&'a self, query: &str) -> (r: Vec<&'a BookMetadata>)
        ensures
            ({
                let res = search_spec(self.catalog(), lower_of(query@));
                r@.len() == res.len() && (forall|k: int| 0 <= k < res.len() ==> r@[k]@ == res[k])
            }),
    {
        let qs = lowercase(query);
        let ql = str_to_chars(qs.as_str());
        let mut r: Vec<&BookMetadata> = Vec::new();
        let mut i: usize = 0;
        while i < self.books.len()
            invariant
                i <= self.books.len(),
                ql@ == lower_of(query@),
                r@.len() == search_spec(self.catalog().take(i as int), lower_of(query@)).len(),
                forall|k: int|
                    0 <= k < r@.len() ==> r@[k]@ == search_spec(
                        self.catalog().take(i as int),
                        lower_of(query@),
                    )[k],
            decreases self.books.len() - i,
        {
            let tl = lowercase(self.books[i].title.as_str());
            let tc = str_to_chars(tl.as_str());
            let al = lowercase(self.books[i].author.as_str());
            let ac = str_to_chars(al.as_str());
            let ghost prev = r@;
            if contains_chars(&tc, &ql) || contains_chars(&ac, &ql) {
                r.push(&self.books[i]);
            }
            i = i + 1;
            proof {
                assert(self.catalog().take(i as int).drop_last() =~= self.catalog().take(i - 1));
                assert(self.catalog().take(i as int).last() == self.catalog()[i - 1]);
            }
        }
        proof {
            assert(self.catalog().take(self.catalog().len() as int) =~= self.catalog());
        }
        r
    }

    /// Dismiss the sticky last error.
    pub fn clear_err(&mut self)
        ensures
            final(self).err is None,
            final(self).books == old(self).books,
            final(self).current_path == old(self).current_path,
            final(self).browsing_mode == old(self).browsing_mode,
            final(self).file_list == old(self).file_list,
    {
        self.err = Option::None;
    }
}

// ---- directory browsing ----

/// A planned filesystem ingestion: the caller copies `source_path` to
/// `dest_path`, then reports the outcome to `finish_select_file`.
pub struct IngestPlan {
    pub source_path: String,
    pub dest_name: String,
    pub dest_path: String,
    pub format: BookFormat,
}

/// An entry stays listed if it is a directory or a recognized book file.
pub open spec fn keep_entry(e: EntryView) -> bool {
    e.is_directory || is_ebook_name(e.name)
}

/// The entries that stay listed, in their given order.
pub open spec fn filter_entries(s: Seq<EntryView>) -> Seq<EntryView>
    decreases s.len(),
{
    if s.len() == 0 {
        s
    } else {
        let pre = filter_entries(s.drop_last());
        if keep_entry(s.last()) {
            pre.push(s.last())
        } else {
            pre
        }
    }
}

/// Directories come before files; within a kind, names ascend by code point.
pub open spec fn entry_le(a: EntryView, b: EntryView) -> bool {
    (a.is_directory && !b.is_directory) || (a.is_directory == b.is_directory && lex_le(
        a.name,
        b.name,
    ))
}

pub open spec fn entries_sorted(s: Seq<EntryView>) -> bool {
    forall|i: int, j: int| 0 <= i < j < s.len() ==> entry_le(#[trigger] s[i], #[trigger] s[j])
}

/// The views of a listing's entries, in order.
pub open spec fn entries_of(s: Seq<FileEntry>) -> Seq<EntryView> {
    s.map_values(|e: FileEntry| e@)
}

pub proof fn lemma_entry_le_refl(a: EntryView)
    ensures
        entry_le(a, a),
{
    lemma_lex_le_refl(a.name);
}

pub proof fn lemma_entry_le_total(a: EntryView, b: EntryView)
    ensures
        entry_le(a, b) || entry_le(b, a),
{
    lemma_lex_le_total(a.name, b.name);
}

pub proof fn lemma_entry_le_trans(a: EntryView, b: EntryView, c: EntryView)
    requires
        entry_le(a, b),
        entry_le(b, c),
    ensures
        entry_le(a, c),
{
    if a.is_directory == b.is_directory && b.is_directory == c.is_directory {
        lemma_lex_le_trans(a.name, b.name, c.name);
    }
}

/// Every kept entry is a directory or a recognized book file.
pub proof fn lemma_filter_entries_keep(s: Seq<EntryView>)
    ensures
        forall|k: int|
            0 <= k < filter_entries(s).len() ==> keep_entry(#[trigger] filter_entries(s)[k]),
    decreases s.len(),
{
    if s.len() > 0 {
        lemma_filter_entries_keep(s.drop_last());
        assert forall|k: int| 0 <= k < filter_entries(s).len() implies keep_entry(
            #[trigger] filter_entries(s)[k],
        ) by {
            let pre = filter_entries(s.drop_last());
            if keep_entry(s.last()) {
                assert(filter_entries(s) == pre.push(s.last()));
                if k < pre.len() {
                    assert(filter_entries(s)[k] == pre[k]);
                } else {
                    assert(filter_entries(s)[k] == s.last());
                }
            } else {
                assert(filter_entries(s) == pre);
            }
        }
    }
}

/// A listing that permutes the kept entries holds only kept entries: no file
/// outside the recognized extensions is ever listed.
pub proof fn lemma_listing_recognized(listing: Seq<EntryView>, raw: Seq<EntryView>)
    requires
        listing.to_multiset() == filter_entries(raw).to_multiset(),
    ensures
        forall|k: int| 0 <= k < listing.len() ==> keep_entry(#[trigger] listing[k]),
{
    broadcast use vstd::seq_lib::group_to_multiset_ensures;

    lemma_filter_entries_keep(raw);
    assert forall|k: int| 0 <= k < listing.len() implies keep_entry(#[trigger] listing[k]) by {
        assert(listing.contains(listing[k]));
        assert(filter_entries(raw).to_multiset().count(listing[k]) > 0);
        assert(filter_entries(raw).contains(listing[k]));
        let j = choose|j: int|
            0 <= j < filter_entries(raw).len() && filter_entries(raw)[j] == listing[k];
        assert(keep_entry(filter_entries(raw)[j]));
    }
}

/// In a sorted listing every directory stands before every file.
pub proof fn lemma_dirs_before_files(s: Seq<EntryView>)
    requires
        entries_sorted(s),
    ensures
        forall|i: int, j: int|
            0 <= i < j < s.len() && (#[trigger] s[j]).is_directory ==> (
            #[trigger] s[i]).is_directory,
{
    assert forall|i: int, j: int|
        0 <= i < j < s.len() && (#[trigger] s[j]).is_directory implies (
    #[trigger] s[i]).is_directory by {
        assert(entry_le(s[i], s[j]));
    }
}

fn entry_le_exec(a: &FileEntry, b: &FileEntry) -> (r: bool)
    ensures
        r == entry_le(a@, b@),
{
    if a.is_directory && !b.is_directory {
        true
    } else if !a.is_directory && b.is_directory {
        false
    } else {
        let ac = str_to_chars(a.name.as_str());
        let bc = str_to_chars(b.name.as_str());
        chars_le(&ac, &bc)
    }
}

fn min_entry_index(v: &Vec<FileEntry>) -> (m: usize)
    requires
        v@.len() > 0,
    ensures
        m < v@.len(),
        forall|k: int| 0 <= k < v@.len() ==> entry_le(v@[m as int]@, #[trigger] v@[k]@),
{
    let mut m: usize = 0;
    let mut j: usize = 1;
    proof {
        lemma_entry_le_refl(v@[0]@);
    }
    while j < v.len()
        invariant
            m < j <= v@.len(),
            forall|k: int| 0 <= k < j ==> entry_le(v@[m as int]@, #[trigger] v@[k]@),
        decreases v@.len() - j,
    {
        let ghost m0 = m as int;
        if entry_le_exec(&v[j], &v[m]) {
            m = j;
            proof {
                lemma_entry_le_refl(v@[j as int]@);
                assert forall|k: int| 0 <= k < j + 1 implies entry_le(
                    v@[m as int]@,
                    #[trigger] v@[k]@,
                ) by {
                    if k < j {
                        lemma_entry_le_trans(v@[j as int]@, v@[m0]@, v@[k]@);
                    }
                }
            }
        } else {
            proof {
                lemma_entry_le_total(v@[j as int]@, v@[m as int]@);
            }
        }
        j = j + 1;
    }
    m
}

/// Sort a listing: directories first, then files, names ascending within
/// each kind; the result is a permutation of the input.
fn sort_entries(v: Vec<FileEntry>) -> (r: Vec<FileEntry>)
    ensures
        entries_sorted(entries_of(r@)),
        entries_of(r@).to_multiset() == entries_of(v@).to_multiset(),
{
    broadcast use vstd::seq_lib::group_to_multiset_ensures;

    let ghost orig = entries_of(v@).to_multiset();
    let mut rest = v;
    let mut out: Vec<FileEntry> = Vec::new();
    while rest.len() > 0
        invariant
            entries_of(out@).to_multiset().add(entries_of(rest@).to_multiset()) =~= orig,
            entries_sorted(entries_of(out@)),
            forall|a: int, b: int|
                0 <= a < out@.len() && 0 <= b < rest@.len() ==> entry_le(
                    #[trigger] entries_of(out@)[a],
                    #[trigger] entries_of(rest@)[b],
                ),
        decreases rest@.len(),
    {
        let m = min_entry_index(&rest);
        let ghost rold = rest@;
        let ghost oold = out@;
        let e = rest.remove(m);
        let ghost ev = e@;
        out.push(e);
        proof {
            broadcast use vstd::seq_lib::group_to_multiset_ensures;

            entries_of(rold).to_multiset_ensures();
            entries_of(oold).to_multiset_ensures();
            assert(ev == entries_of(rold)[m as int]);
            assert(entries_of(rest@) =~= entries_of(rold).remove(m as int));
            assert(entries_of(out@) =~= entries_of(oold).push(ev));
            assert(entries_of(rold).contains(entries_of(rold)[m as int]));
            assert(entries_of(rold).to_multiset().count(ev) > 0);
            assert(entries_of(out@).to_multiset().add(entries_of(rest@).to_multiset()) =~= orig);
            assert forall|i: int, j2: int|
                0 <= i < j2 < entries_of(out@).len() implies entry_le(
                #[trigger] entries_of(out@)[i],
                #[trigger] entries_of(out@)[j2],
            ) by {
                if j2 == entries_of(out@).len() - 1 {
                    assert(entries_of(out@)[i] == entries_of(oold)[i]);
                    assert(entries_of(out@)[j2] == ev);
                } else {
                    assert(entries_of(out@)[i] == entries_of(oold)[i]);
                    assert(entries_of(out@)[j2] == entries_of(oold)[j2]);
                }
            }
            assert forall|a: int, b: int|
                0 <= a < out@.len() && 0 <= b < rest@.len() implies entry_le(
                #[trigger] entries_of(out@)[a],
                #[trigger] entries_of(rest@)[b],
            ) by {
                let rb = entries_of(rest@)[b];
                if b < m {
                    assert(rb == entries_of(rold)[b]);
                } else {
                    assert(rb == entries_of(rold)[b + 1]);
                }
                if a < oold.len() {
                    assert(entries_of(out@)[a] == entries_of(oold)[a]);
                } else {
                    assert(entries_of(out@)[a] == ev);
                }
            }
        }
    }
    out
}

/// `k` is the position of the last `/` of `s`.
pub open spec fn last_slash_at(s: Seq<char>, k: int) -> bool {
    &&& 0 <= k < s.len()
    &&& s[k] == '/'
    &&& forall|j: int| k < j < s.len() ==> s[j] != '/'
}

/// The parent of a `/`-separated path: none for the empty path and for the
/// root; else the part before the last `/` (the root if that is the leading
/// character), or the empty path for a bare name.
pub open spec fn parent_of(p: Seq<char>) -> Option<Seq<char>> {
    if p.len() == 0 || p == seq!['/'] {
        Option::None
    } else if exists|k: int| last_slash_at(p, k) {
        let k = choose|k: int| last_slash_at(p, k);
        if k == 0 {
            Option::Some(seq!['/'])
        } else {
            Option::Some(p.subrange(0, k))
        }
    } else {
        Option::Some(Seq::<char>::empty())
    }
}

pub proof fn lemma_last_slash_unique(s: Seq<char>, k1: int, k2: int)
    requires
        last_slash_at(s, k1),
        last_slash_at(s, k2),
    ensures
        k1 == k2,
{
    if k1 < k2 {
        assert(s[k2] != '/');
    }
    if k2 < k1 {
        assert(s[k1] != '/');
    }
}

/// The position of the last `/` of `v`, if any.
fn find_last_slash(v: &Vec<char>) -> (r: Option<usize>)
    ensures
        match r {
            Option::Some(k) => last_slash_at(v@, k as int),
            Option::None => forall|j: int| 0 <= j < v@.len() ==> v@[j] != '/',
        },
{
    let mut i: usize = v.len();
    while i > 0
        invariant
            i <= v@.len(),
            forall|j: int| i <= j < v@.len() ==> v@[j] != '/',
        decreases i,
    {
        i = i - 1;
        if v[i] == '/' {
            return Option::Some(i);
        }
    }
    Option::None
}

impl Library {
    /// Whether a file name carries a recognized e-book extension.
    pub fn is_ebook_file(name: &str) -> (r: bool)
        ensures
            r == is_ebook_name(name@),
    {
        let v = str_to_chars(name);
        let vlen = v.len();
        match find_last_dot(&v) {
            Option::Some(k) => {
                if k >= 1 {
                    proof {
                        assert(1 <= k as int && last_dot_at(name@, k as int));
                        let k2 = choose|k2: int| 1 <= k2 && last_dot_at(name@, k2);
                        lemma_last_dot_unique(name@, k as int, k2);
                    }
                    let ext = subvec(&v, k + 1, vlen);
                    let low = fold_chars(&ext);
                    let fmt = format_of_folded(&low);
                    proof {
                        lemma_format_of_ext_folded(ext@);
                    }
                    fmt.is_some()
                } else {
                    proof {
                        if exists|k2: int| 1 <= k2 && last_dot_at(name@, k2) {
                            let k2 = choose|k2: int| 1 <= k2 && last_dot_at(name@, k2);
                            lemma_last_dot_unique(name@, k as int, k2);
                        }
                    }
                    false
                }
            },
            Option::None => {
                proof {
                    if exists|k2: int| 1 <= k2 && last_dot_at(name@, k2) {
                        let k2 = choose|k2: int| 1 <= k2 && last_dot_at(name@, k2);
                        assert(name@[k2] == '.');
                    }
                }
                false
            },
        }
    }

    /// Enter browsing: the current directory becomes the given browse path
    /// (the caller resolves the platform's default one), with an empty
    /// listing until the caller supplies one.
    pub fn start_browsing(&mut self, browse_path: String)
        ensures
            final(self).browsing_mode == true,
            final(self).current_path@ == browse_path@,
            final(self).file_list@.len() == 0,
            final(self).books == old(self).books,
            final(self).err == old(self).err,
    {
        self.browsing_mode = true;
        self.current_path = browse_path;
        self.file_list = Vec::new();
    }

    /// Install a directory listing: keep only directories and recognized
    /// book files, sorted with directories first and names ascending within
    /// each kind. An unreadable directory yields an error and an empty
    /// listing.
    pub fn reload_file_list(&mut self, listing: Result<Vec<FileEntry>, String>)
        ensures
            final(self).books == old(self).books,
            final(self).current_path == old(self).current_path,
            final(self).browsing_mode == old(self).browsing_mode,
            match listing {
                Result::Ok(entries) => final(self).err is None && entries_sorted(
                    entries_of(final(self).file_list@),
                ) && entries_of(final(self).file_list@).to_multiset() == filter_entries(
                    entries_of(entries@),
                ).to_multiset() && (forall|k: int|
                    0 <= k < final(self).file_list@.len() ==> keep_entry(
                        #[trigger] final(self).file_list@[k]@,
                    )) && (forall|a: int, b: int|
                    0 <= a < b < final(self).file_list@.len() && final(self).file_list@[b]@.is_directory ==> final(self).file_list@[a]@.is_directory),
                Result::Err(e) => (final(self).err matches Option::Some(m) && m@
                    == "Cannot read directory: "@ + e@) && final(self).file_list@.len() == 0,
            },
    {
        match listing {
            Result::Ok(entries) => {
                let ghost raw = entries_of(entries@);
                let mut kept: Vec<FileEntry> = Vec::new();
                let mut i: usize = 0;
                while i < entries.len()
                    invariant
                        i <= entries.len(),
                        raw == entries_of(entries@),
                        entries_of(kept@) =~= filter_entries(raw.take(i as int)),
                    decreases entries.len() - i,
                {
                    let e = &entries[i];
                    if e.is_directory || Library::is_ebook_file(e.name.as_str()) {
                        kept.push(e.duplicate());
                    }
                    i = i + 1;
                    proof {
                        assert(raw.take(i as int).drop_last() =~= raw.take(i - 1));
                        assert(raw.take(i as int).last() == raw[i - 1]);
                        assert(entries_of(kept@) =~= filter_entries(raw.take(i as int)));
                    }
                }
                proof {
                    assert(raw.take(raw.len() as int) =~= raw);
                }
                let sorted = sort_entries(kept);
                proof {
                    lemma_listing_recognized(entries_of(sorted@), raw);
                    lemma_dirs_before_files(entries_of(sorted@));
                    assert forall|k: int| 0 <= k < sorted@.len() implies keep_entry(
                        #[trigger] sorted@[k]@,
                    ) by {
                        assert(entries_of(sorted@)[k] == sorted@[k]@);
                    }
                    assert forall|a: int, b: int|
                        0 <= a < b < sorted@.len() && sorted@[b]@.is_directory implies sorted@[a]@.is_directory by {
                        assert(entries_of(sorted@)[a] == sorted@[a]@);
                        assert(entries_of(sorted@)[b] == sorted@[b]@);
                    }
                }
                self.file_list = sorted;
                self.err = Option::None;
            },
            Result::Err(e) => {
                proof {
                    reveal_strlit("Cannot read directory: ");
                }
                let mut m = String::from_str("Cannot read directory: ");
                m.append(e.as_str());
                self.err = Option::Some(m);
                self.file_list = Vec::new();
            },
        }
    }

    /// Step to the parent directory, or do nothing at a root; a changed
    /// directory empties the listing until the caller reloads it.
    pub fn go_up(&mut self)
        ensures
            final(self).books == old(self).books,
            final(self).browsing_mode == old(self).browsing_mode,
            final(self).err == old(self).err,
            match parent_of(old(self).current_path@) {
                Option::Some(p) => final(self).current_path@ == p && final(self).file_list@.len() == 0,
                Option::None => final(self).current_path == old(self).current_path && final(self).file_list == old(self).file_list,
            },
    {
        let v = str_to_chars(self.current_path.as_str());
        let vlen = v.len();
        if vlen == 0 {
            return ;
        }
        if vlen == 1 {
            let c0 = v[0];
            if c0 == '/' {
                proof {
                    assert(self.current_path@ =~= seq!['/']);
                }
                return ;
            }
        }
        proof {
            assert(self.current_path@ != seq!['/']) by {
                if self.current_path@ == seq!['/'] {
                    assert(v@.len() == 1 && v@[0] == '/');
                }
            }
        }
        match find_last_slash(&v) {
            Option::Some(k) => {
                proof {
                    let k2 = choose|k2: int| last_slash_at(self.current_path@, k2);
                    lemma_last_slash_unique(self.current_path@, k as int, k2);
                }
                if k == 0 {
                    proof {
                        reveal_strlit("/");
                    }
                    let root = String::from_str("/");
                    proof {
                        assert(root@ =~= seq!['/']);
                    }
                    self.current_path = root;
                } else {
                    let sub = subvec(&v, 0, k);
                    self.current_path = chars_to_string(&sub);
                }
                self.file_list = Vec::new();
            },
            Option::None => {
                proof {
                    if exists|k2: int| last_slash_at(self.current_path@, k2) {
                        let k2 = choose|k2: int| last_slash_at(self.current_path@, k2);
                        assert(self.current_path@[k2] == '/');
                    }
                }
                self.current_path = String::new();
                self.file_list = Vec::new();
            },
        }
    }

    /// Enter the directory listed at `index`; out-of-range indices and file
    /// entries are ignored. A changed directory empties the listing until
    /// the caller reloads it.
    pub fn enter_directory(&mut self, index: usize)
        ensures
            final(self).books == old(self).books,
            final(self).browsing_mode == old(self).browsing_mode,
            final(self).err == old(self).err,
            if index < old(self).file_list@.len() && old(self).file_list@[index as int].is_directory {
                final(self).current_path@ == old(self).file_list@[index as int]@.path && final(self).file_list@.len() == 0
            } else {
                final(self).current_path == old(self).current_path && final(self).file_list == old(self).file_list
            },
    {
        if index < self.file_list.len() {
            if self.file_list[index].is_directory {
                self.current_path = self.file_list[index].path.clone();
                self.file_list = Vec::new();
            }
        }
    }

    /// The format a file name's extension names: an error for a name
    /// without an extension, and for an extension outside the recognized
    /// set.
    pub fn detect_format(name: &str) -> (r: Result<BookFormat, String>)
        ensures
            match r {
                Result::Ok(f) => ext_of_name(name@) matches Option::Some(x) && format_of_ext(x)
                    == Option::Some(f),
                Result::Err(e) => (ext_of_name(name@) is None && e@ == "No file extension"@) || (
                ext_of_name(name@) matches Option::Some(x) && format_of_ext(x) is None && e@
                    == "Unsupported format: "@ + lower_seq(x)),
            },
    {
        proof {
            reveal_strlit("No file extension");
            reveal_strlit("Unsupported format: ");
        }
        let nv = str_to_chars(name);
        let nlen = nv.len();
        match find_last_dot(&nv) {
            Option::Some(k) => {
                if k == 0 {
                    proof {
                        if exists|k2: int| 1 <= k2 && last_dot_at(name@, k2) {
                            let k2 = choose|k2: int| 1 <= k2 && last_dot_at(name@, k2);
                            lemma_last_dot_unique(name@, k as int, k2);
                        }
                    }
                    return Result::Err(String::from_str("No file extension"));
                }
                proof {
                    assert(1 <= k as int && last_dot_at(name@, k as int));
                    let k2 = choose|k2: int| 1 <= k2 && last_dot_at(name@, k2);
                    lemma_last_dot_unique(name@, k as int, k2);
                }
                let ext_c = subvec(&nv, k + 1, nlen);
                let low = fold_chars(&ext_c);
                let fmt_opt = format_of_folded(&low);
                proof {
                    lemma_format_of_ext_folded(ext_c@);
                }
                match fmt_opt {
                    Option::Some(f) => Result::Ok(f),
                    Option::None => {
                        let mut mv = str_to_chars("Unsupported format: ");
                        let mut low2 = low;
                        mv.append(&mut low2);
                        Result::Err(chars_to_string(&mv))
                    },
                }
            },
            Option::None => {
                proof {
                    if exists|k2: int| 1 <= k2 && last_dot_at(name@, k2) {
                        let k2 = choose|k2: int| 1 <= k2 && last_dot_at(name@, k2);
                        assert(name@[k2] == '.');
                    }
                }
                Result::Err(String::from_str("No file extension"))
            },
        }
    }

    /// Decide what selecting the entry at `index` means: nothing for an
    /// out-of-range index or a directory; otherwise either a planned
    /// ingestion for the caller to carry out, or a recorded error when the
    /// storage directory cannot be resolved or the entry's extension is not
    /// recognized.
    pub fn select_file(&mut self, index: usize) -> (r: Option<IngestPlan>)
        ensures
            final(self).books == old(self).books,
            final(self).browsing_mode == old(self).browsing_mode,
            final(self).current_path == old(self).current_path,
            final(self).file_list == old(self).file_list,
            match r {
                Option::Some(plan) => {
                    &&& index < old(self).file_list@.len()
                    &&& !old(self).file_list@[index as int].is_directory
                    &&& final(self).err == old(self).err
                    &&& plan.source_path@ == old(self).file_list@[index as int]@.path
                    &&& (ext_of_name(old(self).file_list@[index as int]@.name) matches Option::Some(
                        x,
                    ) && format_of_ext(x) == Option::Some(plan.format) && (exists|idc: Seq<char>|
                        idc.len() == 36 && plan.dest_name@ == idc + seq!['.'] + x))
                    &&& plan.dest_path@.len() > plan.dest_name@.len() && plan.dest_path@.subrange(
                        plan.dest_path@.len() - plan.dest_name@.len() - 1,
                        plan.dest_path@.len() as int,
                    ) == seq!['/'] + plan.dest_name@
                    &&& (exists|s: Seq<char>|
                        s.len() >= "/EbookReader/ebooks"@.len() && s.subrange(
                            s.len() - "/EbookReader/ebooks"@.len(),
                            s.len() as int,
                        ) == "/EbookReader/ebooks"@ && plan.dest_path@ == s + seq!['/']
                            + plan.dest_name@)
                },
                Option::None => if index >= old(self).file_list@.len() || old(self).file_list@[index as int].is_directory {
                    final(self).err == old(self).err
                } else {
                    final(self).err matches Option::Some(m) && (m@
                        == "Failed to get local data directory"@ || (ext_of_name(
                        old(self).file_list@[index as int]@.name,
                    ) is None && m@ == "No file extension"@) || (ext_of_name(
                        old(self).file_list@[index as int]@.name,
                    ) matches Option::Some(x) && format_of_ext(x) is None && m@
                        == "Unsupported format: "@ + lower_seq(x)))
                },
            },
    {
        if index >= self.file_list.len() {
            return Option::None;
        }
        if self.file_list[index].is_directory {
            return Option::None;
        }
        let entry_name = self.file_list[index].name.clone();
        let entry_path = self.file_list[index].path.clone();
        let storage = match StorageManager::get_storage_path() {
            Result::Ok(p) => p,
            Result::Err(e) => {
                self.err = Option::Some(e);
                return Option::None;
            },
        };
        let fmt = match Library::detect_format(entry_name.as_str()) {
            Result::Ok(f) => f,
            Result::Err(e) => {
                self.err = Option::Some(e);
                return Option::None;
            },
        };
        let nv = str_to_chars(entry_name.as_str());
        let nlen = nv.len();
        match find_last_dot(&nv) {
            Option::Some(k) => {
                proof {
                    let k2 = choose|k2: int| 1 <= k2 && last_dot_at(entry_name@, k2);
                    lemma_last_dot_unique(entry_name@, k as int, k2);
                }
                if k == 0 {
                    proof {
                        assert(false);
                    }
                    return Option::None;
                }
                let ext_c = subvec(&nv, k + 1, nlen);
                proof {
                    reveal_strlit(".");
                    reveal_strlit("/");
                }
                let id = gen_uuid();
                let ghost idc = id@;
                let ext_str = chars_to_string(&ext_c);
                let mut dn = id;
                dn.append(".");
                dn.append(ext_str.as_str());
                proof {
                    assert(dn@ =~= idc + seq!['.'] + ext_c@);
                }
                let mut dp = storage;
                dp.append("/");
                dp.append(dn.as_str());
                proof {
                    assert(dp@.subrange(
                        dp@.len() - dn@.len() - 1,
                        dp@.len() as int,
                    ) =~= seq!['/'] + dn@);
                    assert("/"@ =~= seq!['/']);
                    assert(exists|s: Seq<char>|
                        s.len() >= "/EbookReader/ebooks"@.len() && s.subrange(
                            s.len() - "/EbookReader/ebooks"@.len(),
                            s.len() as int,
                        ) == "/EbookReader/ebooks"@ && dp@ == s + seq!['/'] + dn@) by {
                        assert(dp@ =~= storage@ + seq!['/'] + dn@);
                    }
                }
                Option::Some(
                    IngestPlan {
                        source_path: entry_path,
                        dest_name: dn,
                        dest_path: dp,
                        format: fmt,
                    },
                )
            },
            Option::None => {
                proof {
                    let k2 = choose|k2: int| 1 <= k2 && last_dot_at(entry_name@, k2);
                    assert(entry_name@[k2] == '.');
                    assert(false);
                }
                Option::None
            },
        }
    }

    /// Record the outcome of a planned ingestion: a successful copy appends
    /// the record, leaves browsing, and the caller persists the catalog; a
    /// failed copy records the error and stays browsing.
    pub fn finish_select_file(&mut self, plan: &IngestPlan, copy_result: Result<u64, String>)
        ensures
            final(self).current_path == old(self).current_path,
            final(self).file_list == old(self).file_list,
            match copy_result {
                Result::Ok(size) => {
                    &&& final(self).browsing_mode == false
                    &&& final(self).err == old(self).err
                    &&& final(self).catalog().len() == old(self).catalog().len() + 1
                    &&& final(self).catalog().take(old(self).catalog().len() as int) =~= old(self).catalog()
                    &&& ({
                        let b = final(self).catalog().last();
                        b.title == stem_of(plan.dest_name@) && b.author == "Unknown Author"@
                            && b.file_name == plan.dest_name@ && b.format == plan.format && b.size
                            == size && b.storage == StorageView::FilePath(plan.dest_path@)
                            && b.cover_image is None && b.last_read_position == 0 && b.total_pages
                            == 0 && b.id.len() == 36
                    })
                },
                Result::Err(e) => {
                    &&& final(self).books@ == old(self).books@
                    &&& final(self).browsing_mode == old(self).browsing_mode
                    &&& (final(self).err matches Option::Some(m) && m@ == e@)
                },
            },
    {
        proof {
            reveal_strlit("Unknown Author");
        }
        match copy_result {
            Result::Ok(size) => {
                let dv = str_to_chars(plan.dest_name.as_str());
                let dlen = dv.len();
                let title_c = match find_last_dot(&dv) {
                    Option::Some(k) => {
                        if k >= 1 {
                            proof {
                                assert(1 <= k as int && last_dot_at(plan.dest_name@, k as int));
                                let k2 = choose|k2: int|
                                    1 <= k2 && last_dot_at(plan.dest_name@, k2);
                                lemma_last_dot_unique(plan.dest_name@, k as int, k2);
                            }
                            subvec(&dv, 0, k)
                        } else {
                            proof {
                                if exists|k2: int| 1 <= k2 && last_dot_at(plan.dest_name@, k2) {
                                    let k2 = choose|k2: int|
                                        1 <= k2 && last_dot_at(plan.dest_name@, k2);
                                    lemma_last_dot_unique(plan.dest_name@, k as int, k2);
                                }
                                assert(dv@.subrange(0, dlen as int) =~= plan.dest_name@);
                            }
                            subvec(&dv, 0, dlen)
                        }
                    },
                    Option::None => {
                        proof {
                            if exists|k2: int| 1 <= k2 && last_dot_at(plan.dest_name@, k2) {
                                let k2 = choose|k2: int|
                                    1 <= k2 && last_dot_at(plan.dest_name@, k2);
                                assert(plan.dest_name@[k2] == '.');
                            }
                            assert(dv@.subrange(0, dlen as int) =~= plan.dest_name@);
                        }
                        subvec(&dv, 0, dlen)
                    },
                };
                let record = BookMetadata {
                    id: gen_uuid(),
                    title: chars_to_string(&title_c),
                    author: String::from_str("Unknown Author"),
                    file_name: plan.dest_name.clone(),
                    format: plan.format,
                    size: size,
                    storage: BookStorage::FilePath(plan.dest_path.clone()),
                    cover_image: Option::None,
                    last_read_position: 0,
                    total_pages: 0,
                    added_date: now_rfc3339(),
                };
                let ghost cat = self.catalog();
                let ghost rv = record@;
                self.books.push(record);
                self.browsing_mode = false;
                proof {
                    assert(self.catalog() =~= cat.push(rv));
                    assert(self.catalog().take(cat.len() as int) =~= cat);
                }
            },
            Result::Err(e) => {
                self.err = Option::Some(e);
            },
        }
    }

    /// Leave browsing and discard the listing without ingesting.
    pub fn cancel_browsing(&mut self)
        ensures
            final(self).browsing_mode == false,
            final(self).file_list@.len() == 0,
            final(self).books == old(self).books,
            final(self).current_path == old(self).current_path,
            final(self).err == old(self).err,
    {
        self.browsing_mode = false;
        self.file_list = Vec::new();
    }

    /// Browser-side durable storage is a future extension: loading finds
    /// nothing and changes nothing.
    pub fn load_from_browser(&mut self) -> (r: Result<(), String>)
        ensures
            r is Ok,
            final(self).books == old(self).books,
            final(self).current_path == old(self).current_path,
            final(self).browsing_mode == old(self).browsing_mode,
            final(self).file_list == old(self).file_list,
            final(self).err == old(self).err,
    {
        Result::Ok(())
    }

    /// Browser-side durable storage is a future extension: saving stores
    /// nothing and changes nothing.
    pub fn save_to_browser(&self) -> (r: Result<(), String>)
        ensures
            r is Ok,
    {
        Result::Ok(())
    }
}

impl Default for Library {
    /// The same empty library `new` yields.
    fn default() -> (r: Library)
        ensures
            r.books@.len() == 0,
            r.browsing_mode == false,
            r.file_list@.len() == 0,
            r.err is None,
    {
        Library::new()
    }
}

} // verus!
