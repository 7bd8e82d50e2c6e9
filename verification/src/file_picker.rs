//! The in-memory file payload handed over by an interactive file-selection
//! dialog, and detection of a book format from a declared content type or a
//! file name.

use vstd::prelude::*;
use crate::models::{ext_of_name, last_dot_at, lemma_last_dot_unique};
use crate::text::{chars_eq, chars_to_string, fold_chars, lower_seq, str_to_chars, subvec};

verus! {

/// One file chosen in a selection dialog: its name, declared content type,
/// size in bytes, and content as an encoded string.
#[derive(Debug)]
pub struct FileSelection {
    pub name: String,
    pub content_type: String,
    pub size: u64,
    pub data: String,
}

#[verifier::ext_equal]
pub struct SelectionView {
    pub name: Seq<char>,
    pub content_type: Seq<char>,
    pub size: u64,
    pub data: Seq<char>,
}

impl View for FileSelection {
    type V = SelectionView;

    open spec fn view(&self) -> SelectionView {
        SelectionView {
            name: self.name@,
            content_type: self.content_type@,
            size: self.size,
            data: self.data@,
        }
    }
}

impl FileSelection {
    /// A fresh payload equal, field for field, to this one.
    pub fn duplicate(&self) -> (r: FileSelection)
        ensures
            r@ =~= self@,
    {
        FileSelection {
            name: self.name.clone(),
            content_type: self.content_type.clone(),
            size: self.size,
            data: self.data.clone(),
        }
    }
}

/// The lowercase extension string recognized from a declared content type,
/// falling back to the file name's extension; a name without one yields
/// nothing.
pub open spec fn detect_spec(mime: Seq<char>, name: Seq<char>) -> Option<Seq<char>> {
    if mime == "application/epub+zip"@ {
        Option::Some("epub"@)
    } else if mime == "application/pdf"@ {
        Option::Some("pdf"@)
    } else if mime == "text/plain"@ {
        Option::Some("txt"@)
    } else {
        match ext_of_name(name) {
            Option::Some(e) => {
                let low = lower_seq(e);
                if low == "epub"@ || low == "pdf"@ || low == "txt"@ {
                    Option::Some(low)
                } else {
                    Option::None
                }
            },
            Option::None => Option::None,
        }
    }
}

/// Detect a book format from a MIME type, else from the file name; the result
/// is the lowercase extension of the recognized format.
pub fn detect_book_format(mime_type: &str, filename: &str) -> (r: Option<String>)
    ensures
        match r {
            Option::Some(s) => detect_spec(mime_type@, filename@) == Option::Some(s@),
            Option::None => detect_spec(mime_type@, filename@) is None,
        },
{
    proof {
        reveal_strlit("application/epub+zip");
        reveal_strlit("application/pdf");
        reveal_strlit("text/plain");
        reveal_strlit("epub");
        reveal_strlit("pdf");
        reveal_strlit("txt");
    }
    let mime = str_to_chars(mime_type);
    let lit_epub_mime = str_to_chars("application/epub+zip");
    let lit_pdf_mime = str_to_chars("application/pdf");
    let lit_txt_mime = str_to_chars("text/plain");
    if chars_eq(&mime, &lit_epub_mime) {
        let epub = str_to_chars("epub");
        return Option::Some(chars_to_string(&epub));
    }
    if chars_eq(&mime, &lit_pdf_mime) {
        let pdf = str_to_chars("pdf");
        return Option::Some(chars_to_string(&pdf));
    }
    if chars_eq(&mime, &lit_txt_mime) {
        let txt = str_to_chars("txt");
        return Option::Some(chars_to_string(&txt));
    }
    let name = str_to_chars(filename);
    let nlen = name.len();
    let suffix = match crate::models::find_last_dot(&name) {
        Option::Some(k) => {
            if k == 0 {
                proof {
                    if exists|k2: int| 1 <= k2 && last_dot_at(filename@, k2) {
                        let k2 = choose|k2: int| 1 <= k2 && last_dot_at(filename@, k2);
                        lemma_last_dot_unique(filename@, k as int, k2);
                    }
                }
                return Option::None;
            }
            proof {
                assert(1 <= k as int && last_dot_at(filename@, k as int));
                let k2 = choose|k2: int| 1 <= k2 && last_dot_at(filename@, k2);
                lemma_last_dot_unique(filename@, k as int, k2);
            }
            subvec(&name, k + 1, nlen)
        },
        Option::None => {
            proof {
                if exists|k2: int| 1 <= k2 && last_dot_at(filename@, k2) {
                    let k2 = choose|k2: int| 1 <= k2 && last_dot_at(filename@, k2);
                    assert(filename@[k2] == '.');
                }
            }
            return Option::None;
        },
    };
    let low = fold_chars(&suffix);
    let lit_epub = str_to_chars("epub");
    let lit_pdf = str_to_chars("pdf");
    let lit_txt = str_to_chars("txt");
    if chars_eq(&low, &lit_epub) || chars_eq(&low, &lit_pdf) || chars_eq(&low, &lit_txt) {
        Option::Some(chars_to_string(&low))
    } else {
        Option::None
    }
}

} // verus!
