use hikmah_core::file_picker::detect_book_format;
use hikmah_core::models::BookFormat;
use hikmah_core::storage::StorageManager;

#[test]
fn from_extension_folds_ascii_case() {
    assert_eq!(BookFormat::from_extension("epub"), Some(BookFormat::EPUB));
    assert_eq!(BookFormat::from_extension("EPUB"), Some(BookFormat::EPUB));
    assert_eq!(BookFormat::from_extension("Pdf"), Some(BookFormat::PDF));
    assert_eq!(BookFormat::from_extension("tXt"), Some(BookFormat::TXT));
    assert_eq!(BookFormat::from_extension("docx"), None);
    assert_eq!(BookFormat::from_extension(""), None);
}

#[test]
fn to_extension_and_label_name_each_format() {
    assert_eq!(BookFormat::EPUB.to_extension(), "epub");
    assert_eq!(BookFormat::PDF.to_extension(), "pdf");
    assert_eq!(BookFormat::TXT.to_extension(), "txt");
    assert_eq!(BookFormat::EPUB.label(), "EPUB");
    assert_eq!(BookFormat::PDF.label(), "PDF");
    assert_eq!(BookFormat::TXT.label(), "TXT");
}

#[test]
fn detect_prefers_the_declared_content_type() {
    assert_eq!(
        detect_book_format("application/epub+zip", "whatever.bin"),
        Some("epub".to_string())
    );
    assert_eq!(detect_book_format("application/pdf", "x"), Some("pdf".to_string()));
    assert_eq!(detect_book_format("text/plain", "x"), Some("txt".to_string()));
}

#[test]
fn detect_falls_back_to_the_file_name() {
    assert_eq!(detect_book_format("application/octet-stream", "a.EPUB"), Some("epub".to_string()));
    assert_eq!(detect_book_format("", "b.pdf"), Some("pdf".to_string()));
    assert_eq!(detect_book_format("", "c.tar.txt"), Some("txt".to_string()));
    assert_eq!(detect_book_format("", "notes.docx"), None);
    // a name without an extension is unrecognized, even one spelling an
    // extension bare or carrying only a leading dot
    assert_eq!(detect_book_format("", "noext"), None);
    assert_eq!(detect_book_format("", "pdf"), None);
    assert_eq!(detect_book_format("", ".epub"), None);
}

#[test]
fn storage_paths_live_under_the_application_directory() {
    match StorageManager::get_storage_path() {
        Ok(p) => assert!(p.ends_with("/EbookReader/ebooks")),
        Err(e) => assert_eq!(e, "Failed to get local data directory"),
    }
    match StorageManager::get_library_path() {
        Ok(p) => assert!(p.ends_with("/EbookReader/library.json")),
        Err(e) => assert_eq!(e, "Failed to get local data directory"),
    }
    let browse = StorageManager::get_default_browse_path();
    assert!(!browse.is_empty());
    assert_eq!(StorageManager::default_browse_path_of(Some("/home/u".to_string())), "/home/u");
    assert_eq!(StorageManager::default_browse_path_of(None), ".");
}

#[test]
fn bridge_path_compositions_are_exact() {
    assert_eq!(StorageManager::storage_path_under("/data/app".to_string()), "/data/app/ebooks");
    assert_eq!(
        StorageManager::library_path_under("/data/app".to_string()),
        "/data/app/library.json"
    );
    assert_eq!(
        StorageManager::mobile_browse_path_of(Some("/sdcard".to_string())),
        "/sdcard/Download"
    );
    assert_eq!(
        StorageManager::mobile_browse_path_of(None),
        "/storage/emulated/0/Download"
    );
}
