use hikmah_core::codec::{decode_catalog, encode_catalog};
use hikmah_core::file_picker::FileSelection;
use hikmah_core::library::Library;
use hikmah_core::models::{BookFormat, BookMetadata, BookStorage};

fn sample_book() -> BookMetadata {
    BookMetadata {
        id: "id-1".to_string(),
        title: "Dune".to_string(),
        author: "Unknown Author".to_string(),
        file_name: "Dune.epub".to_string(),
        format: BookFormat::EPUB,
        size: 1000,
        storage: BookStorage::Inline("ZGF0YQ==".to_string()),
        cover_image: None,
        last_read_position: 12,
        total_pages: 300,
        added_date: "2024-01-01T00:00:00+00:00".to_string(),
    }
}

#[test]
fn empty_catalog_encodes_to_brackets() {
    let books: Vec<BookMetadata> = Vec::new();
    assert_eq!(encode_catalog(&books), "[]");
    assert!(decode_catalog("[]").unwrap().is_empty());
}

#[test]
fn one_record_encodes_to_the_exact_document() {
    let books = vec![sample_book()];
    let doc = encode_catalog(&books);
    let expected = "[{\"id\":\"id-1\",\"title\":\"Dune\",\"author\":\"Unknown Author\",\"file_name\":\"Dune.epub\",\"format\":\"EPUB\",\"size\":1000,\"file_data\":\"ZGF0YQ==\",\"cover_image\":null,\"last_read_position\":12,\"total_pages\":300,\"added_date\":\"2024-01-01T00:00:00+00:00\"}]";
    assert_eq!(doc, expected);
}

#[test]
fn decode_inverts_encode_for_every_field() {
    let mut b2 = sample_book();
    b2.id = "id-2".to_string();
    b2.title = "A \"quoted\" title with a \\ backslash".to_string();
    b2.format = BookFormat::PDF;
    b2.storage = BookStorage::FilePath("/data/EbookReader/ebooks/x.pdf".to_string());
    b2.cover_image = Some("cover.png".to_string());
    let books = vec![sample_book(), b2];
    let doc = encode_catalog(&books);
    let decoded = decode_catalog(&doc).unwrap();
    assert_eq!(decoded.len(), 2);
    for (a, b) in books.iter().zip(decoded.iter()) {
        assert_eq!(a.id, b.id);
        assert_eq!(a.title, b.title);
        assert_eq!(a.author, b.author);
        assert_eq!(a.file_name, b.file_name);
        assert_eq!(a.format, b.format);
        assert_eq!(a.size, b.size);
        assert_eq!(a.cover_image, b.cover_image);
        assert_eq!(a.last_read_position, b.last_read_position);
        assert_eq!(a.total_pages, b.total_pages);
        assert_eq!(a.added_date, b.added_date);
        match (&a.storage, &b.storage) {
            (BookStorage::Inline(x), BookStorage::Inline(y)) => assert_eq!(x, y),
            (BookStorage::FilePath(x), BookStorage::FilePath(y)) => assert_eq!(x, y),
            _ => panic!("storage shape changed across the round trip"),
        }
    }
}

#[test]
fn a_full_library_survives_the_round_trip_in_order() {
    let mut lib = Library::new();
    for (name, mime, size) in [
        ("One.epub", "application/epub+zip", 1u64),
        ("Two.pdf", "application/pdf", 2),
        ("Three.txt", "text/plain", 3),
    ] {
        lib.add_book_from_file(FileSelection {
            name: name.to_string(),
            content_type: mime.to_string(),
            size,
            data: "d".to_string(),
        })
        .unwrap();
    }
    let doc = encode_catalog(&lib.books);
    let decoded = decode_catalog(&doc).unwrap();
    assert_eq!(decoded.len(), 3);
    let titles: Vec<&str> = decoded.iter().map(|b| b.title.as_str()).collect();
    assert_eq!(titles, vec!["One", "Two", "Three"]);
    for (a, b) in lib.books.iter().zip(decoded.iter()) {
        assert_eq!(a.id, b.id);
        assert_eq!(a.added_date, b.added_date);
    }
}

#[test]
fn a_document_the_grammar_refuses_is_a_hard_error() {
    assert_eq!(decode_catalog("").unwrap_err(), "Failed to parse library");
    assert_eq!(decode_catalog("not json").unwrap_err(), "Failed to parse library");
    assert_eq!(decode_catalog("[").unwrap_err(), "Failed to parse library");
    assert_eq!(decode_catalog("[{\"id\":\"x\"}]").unwrap_err(), "Failed to parse library");
    let good = encode_catalog(&vec![sample_book()]);
    let mut truncated = good.clone();
    truncated.pop();
    assert_eq!(decode_catalog(&truncated).unwrap_err(), "Failed to parse library");
}
