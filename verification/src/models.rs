//! The catalog's data model: book records, recognized formats, storage
//! shapes, and the ephemeral directory-listing entry.

use vstd::prelude::*;
use crate::text::{
    chars_eq, chars_to_string, fold_chars, lower_seq, str_to_chars, subvec,
};

verus! {

/// The closed set of recognized book formats.
#[derive(Clone, Copy, Debug, PartialEq, Eq, Structural)]
pub enum BookFormat {
    EPUB,
    PDF,
    TXT,
}

/// Where a book's bytes live: a file under the managed storage directory, or
/// the full content embedded in the record as an encoded string.
#[derive(Debug)]
pub enum BookStorage {
    FilePath(String),
    Inline(String),
}

/// One catalog record.
#[derive(Debug)]
pub struct BookMetadata {
    pub id: String,
    pub title: String,
    pub author: String,
    pub file_name: String,
    pub format: BookFormat,
    pub size: u64,
    pub storage: BookStorage,
    pub cover_image: Option<String>,
    pub last_read_position: usize,
    pub total_pages: usize,
    pub added_date: String,
}

/// One entry of a directory listing; rebuilt on every directory visit.
#[derive(Debug)]
pub struct FileEntry {
    pub name: String,
    pub path: String,
    pub is_directory: bool,
}

// ---- mathematical views ----

#[verifier::ext_equal]
pub enum StorageView {
    FilePath(Seq<char>),
    Inline(Seq<char>),
}

#[verifier::ext_equal]
pub struct BookView {
    pub id: Seq<char>,
    pub title: Seq<char>,
    pub author: Seq<char>,
    pub file_name: Seq<char>,
    pub format: BookFormat,
    pub size: u64,
    pub storage: StorageView,
    pub cover_image: Option<Seq<char>>,
    pub last_read_position: usize,
    pub total_pages: usize,
    pub added_date: Seq<char>,
}

#[verifier::ext_equal]
pub struct EntryView {
    pub name: Seq<char>,
    pub path: Seq<char>,
    pub is_directory: bool,
}

impl View for BookStorage {
    type V = StorageView;

    open spec fn view(&self) -> StorageView {
        match self {
            BookStorage::FilePath(p) => StorageView::FilePath(p@),
            BookStorage::Inline(d) => StorageView::Inline(d@),
        }
    }
}

impl View for BookMetadata {
    type V = BookView;

    open spec fn view(&self) -> BookView {
        BookView {
            id: self.id@,
            title: self.title@,
            author: self.author@,
            file_name: self.file_name@,
            format: self.format,
            size: self.size,
            storage: self.storage@,
            cover_image: match self.cover_image {
                Option::Some(c) => Option::Some(c@),
                Option::None => Option::None,
            },
            last_read_position: self.last_read_position,
            total_pages: self.total_pages,
            added_date: self.added_date@,
        }
    }
}

impl View for FileEntry {
    type V = EntryView;

    open spec fn view(&self) -> EntryView {
        EntryView { name: self.name@, path: self.path@, is_directory: self.is_directory }
    }
}

impl BookMetadata {
    /// A fresh record equal, field for field, to this one.
    pub fn duplicate(&self) -> (r: BookMetadata)
        ensures
            r@ =~= self@,
    {
        BookMetadata {
            id: self.id.clone(),
            title: self.title.clone(),
            author: self.author.clone(),
            file_name: self.file_name.clone(),
            format: self.format,
            size: self.size,
            storage: match &self.storage {
                BookStorage::FilePath(p) => BookStorage::FilePath(p.clone()),
                BookStorage::Inline(d) => BookStorage::Inline(d.clone()),
            },
            cover_image: match &self.cover_image {
                Option::Some(c) => Option::Some(c.clone()),
                Option::None => Option::None,
            },
            last_read_position: self.last_read_position,
            total_pages: self.total_pages,
            added_date: self.added_date.clone(),
        }
    }
}

impl FileEntry {
    /// A fresh entry equal, field for field, to this one.
    pub fn duplicate(&self) -> (r: FileEntry)
        ensures
            r@ =~= self@,
    {
        FileEntry {
            name: self.name.clone(),
            path: self.path.clone(),
            is_directory: self.is_directory,
        }
    }
}

// ---- file-name extensions ----

/// The characters after the last `.`, or the whole name if it has none.
pub open spec fn after_last_dot(s: Seq<char>) -> Seq<char>
    decreases s.len(),
{
    if s.len() == 0 {
        s
    } else if s[s.len() - 1] == '.' {
        Seq::<char>::empty()
    } else {
        after_last_dot(s.drop_last()).push(s[s.len() - 1])
    }
}

/// `k` is the position of the last `.` of `s`.
pub open spec fn last_dot_at(s: Seq<char>, k: int) -> bool {
    &&& 0 <= k < s.len()
    &&& s[k] == '.'
    &&& forall|j: int| k < j < s.len() ==> s[j] != '.'
}

/// The extension of a file name: the part after the last `.`, provided that
/// dot is not the leading character; `None` otherwise.
pub open spec fn ext_of_name(s: Seq<char>) -> Option<Seq<char>> {
    if exists|k: int| 1 <= k && last_dot_at(s, k) {
        let k = choose|k: int| 1 <= k && last_dot_at(s, k);
        Option::Some(s.subrange(k + 1, s.len() as int))
    } else {
        Option::None
    }
}

/// The stem of a file name: the part before the last `.`, provided that dot
/// is not the leading character; the whole name otherwise.
pub open spec fn stem_of(s: Seq<char>) -> Seq<char> {
    if exists|k: int| 1 <= k && last_dot_at(s, k) {
        let k = choose|k: int| 1 <= k && last_dot_at(s, k);
        s.subrange(0, k)
    } else {
        s
    }
}

pub proof fn lemma_last_dot_unique(s: Seq<char>, k1: int, k2: int)
    requires
        last_dot_at(s, k1),
        last_dot_at(s, k2),
    ensures
        k1 == k2,
{
    if k1 < k2 {
        assert(s[k2] != '.');
    }
    if k2 < k1 {
        assert(s[k1] != '.');
    }
}

pub proof fn lemma_after_last_dot_suffix(s: Seq<char>, k: int)
    requires
        0 <= k <= s.len(),
        forall|j: int| k <= j < s.len() ==> s[j] != '.',
        k > 0 ==> s[k - 1] == '.',
    ensures
        after_last_dot(s) == s.subrange(k, s.len() as int),
    decreases s.len(),
{
    if s.len() == 0 {
        assert(after_last_dot(s) =~= s.subrange(0, 0));
    } else if k == s.len() {
        assert(s[s.len() - 1] == '.');
        assert(after_last_dot(s) =~= s.subrange(k, s.len() as int));
    } else {
        assert(s[s.len() - 1] != '.');
        lemma_after_last_dot_suffix(s.drop_last(), k);
        assert(after_last_dot(s) =~= s.subrange(k, s.len() as int));
    }
}

// ---- format recognition ----

/// The lowercase extension string of a format.
pub open spec fn format_ext(f: BookFormat) -> Seq<char> {
    match f {
        BookFormat::EPUB => "epub"@,
        BookFormat::PDF => "pdf"@,
        BookFormat::TXT => "txt"@,
    }
}

/// The display label of a format.
pub open spec fn format_label_spec(f: BookFormat) -> Seq<char> {
    match f {
        BookFormat::EPUB => "EPUB"@,
        BookFormat::PDF => "PDF"@,
        BookFormat::TXT => "TXT"@,
    }
}

/// The format recognized from an extension, after ASCII case folding.
pub open spec fn format_of_ext(ext: Seq<char>) -> Option<BookFormat> {
    let low = lower_seq(ext);
    if low == "epub"@ {
        Option::Some(BookFormat::EPUB)
    } else if low == "pdf"@ {
        Option::Some(BookFormat::PDF)
    } else if low == "txt"@ {
        Option::Some(BookFormat::TXT)
    } else {
        Option::None
    }
}

/// The format recognized from an already-folded extension vector.
pub(crate) fn format_of_folded(low: &Vec<char>) -> (r: Option<BookFormat>)
    ensures
        r == format_of_ext_folded(low@),
{
    proof {
        reveal_strlit("epub");
        reveal_strlit("pdf");
        reveal_strlit("txt");
    }
    let epub = str_to_chars("epub");
    let pdf = str_to_chars("pdf");
    let txt = str_to_chars("txt");
    if chars_eq(low, &epub) {
        Option::Some(BookFormat::EPUB)
    } else if chars_eq(low, &pdf) {
        Option::Some(BookFormat::PDF)
    } else if chars_eq(low, &txt) {
        Option::Some(BookFormat::TXT)
    } else {
        Option::None
    }
}

/// `format_of_ext`, stated of a sequence that is already case-folded.
pub open spec fn format_of_ext_folded(low: Seq<char>) -> Option<BookFormat> {
    if low == "epub"@ {
        Option::Some(BookFormat::EPUB)
    } else if low == "pdf"@ {
        Option::Some(BookFormat::PDF)
    } else if low == "txt"@ {
        Option::Some(BookFormat::TXT)
    } else {
        Option::None
    }
}

pub proof fn lemma_format_of_ext_folded(ext: Seq<char>)
    ensures
        format_of_ext(ext) == format_of_ext_folded(lower_seq(ext)),
{
}

impl BookFormat {
    /// The format whose lowercase name the given extension matches,
    /// case-insensitively (ASCII).
    pub fn from_extension(ext: &str) -> (r: Option<BookFormat>)
        ensures
            r == format_of_ext(ext@),
    {
        let chars = str_to_chars(ext);
        let low = fold_chars(&chars);
        proof {
            lemma_format_of_ext_folded(ext@);
        }
        format_of_folded(&low)
    }

    /// The lowercase file extension of this format.
    pub fn to_extension(&self) -> (r: &'static str)
        ensures
            r@ == format_ext(*self),
    {
        match self {
            BookFormat::EPUB => "epub",
            BookFormat::PDF => "pdf",
            BookFormat::TXT => "txt",
        }
    }

    /// The display label of this format.
    pub fn label(&self) -> (r: &'static str)
        ensures
            r@ == format_label_spec(*self),
    {
        match self {
            BookFormat::EPUB => "EPUB",
            BookFormat::PDF => "PDF",
            BookFormat::TXT => "TXT",
        }
    }
}

/// Whether a file name carries a recognized e-book extension.
pub open spec fn is_ebook_name(name: Seq<char>) -> bool {
    match ext_of_name(name) {
        Option::Some(e) => format_of_ext(e) is Some,
        Option::None => false,
    }
}

/// The position of the last `.` of `v`, if any.
pub(crate) fn find_last_dot(v: &Vec<char>) -> (r: Option<usize>)
    ensures
        match r {
            Option::Some(k) => last_dot_at(v@, k as int),
            Option::None => forall|j: int| 0 <= j < v@.len() ==> v@[j] != '.',
        },
{
    let mut i: usize = v.len();
    while i > 0
        invariant
            i <= v@.len(),
            forall|j: int| i <= j < v@.len() ==> v@[j] != '.',
        decreases i,
    {
        i = i - 1;
        if v[i] == '.' {
            return Option::Some(i);
        }
    }
    Option::None
}

} // verus!
