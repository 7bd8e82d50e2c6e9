use hikmah_core::file_picker::FileSelection;
use hikmah_core::library::Library;
use hikmah_core::models::{BookFormat, BookStorage};

fn payload(name: &str, mime: &str, size: u64) -> FileSelection {
    FileSelection {
        name: name.to_string(),
        content_type: mime.to_string(),
        size,
        data: "ZGF0YQ==".to_string(),
    }
}

#[test]
fn ingest_epub_payload_builds_record() {
    let mut lib = Library::new();
    assert_eq!(lib.books.len(), 0);
    let r = lib.add_book_from_file(payload("Dune.epub", "application/epub+zip", 1000));
    assert!(r.is_ok());
    assert_eq!(lib.books.len(), 1);
    let b = &lib.books[0];
    assert_eq!(b.format, BookFormat::EPUB);
    assert_eq!(b.title, "Dune");
    assert_eq!(b.file_name, "Dune.epub");
    assert_eq!(b.author, "Unknown Author");
    assert_eq!(b.size, 1000);
    assert_eq!(b.last_read_position, 0);
    assert_eq!(b.total_pages, 0);
    assert!(b.cover_image.is_none());
    assert_eq!(b.id.len(), 36);
    match &b.storage {
        BookStorage::Inline(d) => assert_eq!(d, "ZGF0YQ=="),
        BookStorage::FilePath(_) => panic!("payload ingestion must store inline"),
    }
}

#[test]
fn ingest_same_payload_twice_is_rejected() {
    let mut lib = Library::new();
    assert!(lib.add_book_from_file(payload("Dune.epub", "application/epub+zip", 1000)).is_ok());
    let second = lib.add_book_from_file(payload("Dune.epub", "application/epub+zip", 1000));
    assert_eq!(second.unwrap_err(), "This book already exists in your library");
    assert_eq!(lib.books.len(), 1);
}

#[test]
fn oversized_payload_is_rejected_with_exact_message() {
    let mut lib = Library::new();
    let r = lib.add_book_from_file(payload("big.epub", "application/epub+zip", 60 * 1024 * 1024));
    assert_eq!(r.unwrap_err(), "File too large: 60 MB (max 50 MB)");
    assert_eq!(lib.books.len(), 0);
}

#[test]
fn unrecognized_payload_format_is_rejected() {
    let mut lib = Library::new();
    let r = lib.add_book_from_file(payload("notes.docx", "application/msword", 10));
    assert_eq!(r.unwrap_err(), "Unsupported file format");
    assert_eq!(lib.books.len(), 0);
}

#[test]
fn add_multiple_collects_errors_and_keeps_successes() {
    let mut lib = Library::new();
    let files = vec![
        payload("big.epub", "application/epub+zip", 60 * 1024 * 1024),
        payload("ok.pdf", "application/pdf", 2048),
    ];
    let errors = lib.add_multiple_books(files);
    assert_eq!(errors.len(), 1);
    assert_eq!(errors[0], "big.epub: File too large: 60 MB (max 50 MB)");
    assert_eq!(lib.books.len(), 1);
    assert_eq!(lib.books[0].title, "ok");
    assert_eq!(lib.books[0].format, BookFormat::PDF);
}

#[test]
fn title_strips_the_extension_case_insensitively() {
    let mut lib = Library::new();
    assert!(lib.add_book_from_file(payload("DUNE.EPUB", "application/epub+zip", 7)).is_ok());
    assert_eq!(lib.books[0].title, "DUNE");
    assert_eq!(lib.books[0].file_name, "DUNE.EPUB");
    assert_eq!(lib.books[0].format, BookFormat::EPUB);
}

#[test]
fn a_payload_without_an_extension_needs_a_recognized_mime() {
    let mut lib = Library::new();
    // the declared type decides; the bare name is not treated as an extension
    assert!(lib.add_book_from_file(payload("epub", "application/octet-stream", 5)).is_err());
    assert_eq!(lib.books.len(), 0);
    assert!(lib.add_book_from_file(payload("epub", "application/epub+zip", 5)).is_ok());
    assert_eq!(lib.books.len(), 1);
    assert_eq!(lib.books[0].title, "epub");
}

#[test]
fn mime_takes_precedence_over_extension() {
    let mut lib = Library::new();
    assert!(lib.add_book_from_file(payload("weird.bin", "text/plain", 5)).is_ok());
    assert_eq!(lib.books[0].format, BookFormat::TXT);
    // no ".txt" suffix to strip, so the title keeps the full name
    assert_eq!(lib.books[0].title, "weird.bin");
}

#[test]
fn remove_then_get_yields_not_found() {
    let mut lib = Library::new();
    lib.add_book_from_file(payload("a.epub", "application/epub+zip", 1)).unwrap();
    lib.add_book_from_file(payload("b.pdf", "application/pdf", 2)).unwrap();
    let id = lib.books[0].id.clone();
    assert!(lib.get_book(&id).is_some());
    assert!(lib.remove_book(&id).is_ok());
    assert!(lib.get_book(&id).is_none());
    assert_eq!(lib.books.len(), 1);
}

#[test]
fn removing_unknown_id_errors_and_changes_nothing() {
    let mut lib = Library::new();
    lib.add_book_from_file(payload("a.epub", "application/epub+zip", 1)).unwrap();
    let r = lib.remove_book("no-such-id");
    assert_eq!(r.unwrap_err(), "Book not found");
    assert_eq!(lib.books.len(), 1);
}

#[test]
fn update_reading_position_round_trips() {
    let mut lib = Library::new();
    lib.add_book_from_file(payload("a.epub", "application/epub+zip", 1)).unwrap();
    let id = lib.books[0].id.clone();
    assert!(lib.update_reading_position(&id, 7).is_ok());
    assert_eq!(lib.get_book(&id).unwrap().last_read_position, 7);
}

#[test]
fn update_reading_position_on_absent_id_is_a_no_op() {
    let mut lib = Library::new();
    lib.add_book_from_file(payload("a.epub", "application/epub+zip", 1)).unwrap();
    let before_title = lib.books[0].title.clone();
    assert!(lib.update_reading_position("missing", 9).is_ok());
    assert_eq!(lib.books.len(), 1);
    assert_eq!(lib.books[0].title, before_title);
    assert_eq!(lib.books[0].last_read_position, 0);
}

#[test]
fn search_is_case_insensitive_on_title_and_author() {
    let mut lib = Library::new();
    lib.add_book_from_file(payload("Dune.epub", "application/epub+zip", 1)).unwrap();
    lib.add_book_from_file(payload("Emma.pdf", "application/pdf", 2)).unwrap();
    let hits = lib.search_books("dUNe");
    assert_eq!(hits.len(), 1);
    assert_eq!(hits[0].title, "Dune");
    // author is "Unknown Author" on every record
    assert_eq!(lib.search_books("unknown AUTHOR").len(), 2);
    assert_eq!(lib.search_books("").len(), 2);
    assert_eq!(lib.search_books("zz").len(), 0);
}

#[test]
fn clear_library_empties_the_catalog() {
    let mut lib = Library::new();
    lib.add_book_from_file(payload("a.epub", "application/epub+zip", 1)).unwrap();
    assert!(lib.clear_library().is_ok());
    assert_eq!(lib.books.len(), 0);
}

#[test]
fn clear_err_dismisses_the_sticky_error() {
    let mut lib = Library::new();
    lib.err = Some("boom".to_string());
    lib.clear_err();
    assert!(lib.err.is_none());
}

#[test]
fn browser_storage_stubs_succeed() {
    let mut lib = Library::new();
    assert!(lib.load_from_browser().is_ok());
    assert!(lib.save_to_browser().is_ok());
    assert_eq!(lib.books.len(), 0);
}

#[test]
fn new_ids_are_fresh_across_additions() {
    let mut lib = Library::new();
    lib.add_book_from_file(payload("a.epub", "application/epub+zip", 1)).unwrap();
    lib.add_book_from_file(payload("b.epub", "application/epub+zip", 2)).unwrap();
    lib.add_book_from_file(payload("c.epub", "application/epub+zip", 3)).unwrap();
    assert_ne!(lib.books[0].id, lib.books[1].id);
    assert_ne!(lib.books[0].id, lib.books[2].id);
    assert_ne!(lib.books[1].id, lib.books[2].id);
}
