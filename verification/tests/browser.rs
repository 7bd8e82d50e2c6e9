use hikmah_core::library::{IngestPlan, Library};
use hikmah_core::models::{BookFormat, BookStorage, FileEntry};

fn entry(name: &str, is_directory: bool) -> FileEntry {
    FileEntry {
        name: name.to_string(),
        path: format!("/home/user/{}", name),
        is_directory,
    }
}

#[test]
fn listing_filters_and_orders_directories_first() {
    let mut lib = Library::new();
    let raw = vec![
        entry("b.txt", false),
        entry("A", true),
        entry("c.pdf", false),
        entry("notes.docx", false),
    ];
    lib.reload_file_list(Ok(raw));
    let names: Vec<&str> = lib.file_list.iter().map(|e| e.name.as_str()).collect();
    assert_eq!(names, vec!["A", "b.txt", "c.pdf"]);
    assert!(lib.err.is_none());
}

#[test]
fn listing_orders_alphabetically_within_each_kind() {
    let mut lib = Library::new();
    let raw = vec![
        entry("z.epub", false),
        entry("docs", true),
        entry("a.txt", false),
        entry("books", true),
        entry("M.PDF", false),
    ];
    lib.reload_file_list(Ok(raw));
    let names: Vec<&str> = lib.file_list.iter().map(|e| e.name.as_str()).collect();
    // case-sensitive name order within each kind: capitals sort before lowercase
    assert_eq!(names, vec!["books", "docs", "M.PDF", "a.txt", "z.epub"]);
}

#[test]
fn unreadable_directory_reports_error_and_empties_listing() {
    let mut lib = Library::new();
    lib.file_list = vec![entry("old.txt", false)];
    lib.reload_file_list(Err("permission denied".to_string()));
    assert_eq!(lib.err.as_deref(), Some("Cannot read directory: permission denied"));
    assert!(lib.file_list.is_empty());
}

#[test]
fn is_ebook_file_checks_the_extension_case_insensitively() {
    assert!(Library::is_ebook_file("a.epub"));
    assert!(Library::is_ebook_file("b.PDF"));
    assert!(Library::is_ebook_file("c.Txt"));
    assert!(!Library::is_ebook_file("d.docx"));
    assert!(!Library::is_ebook_file("noext"));
    assert!(!Library::is_ebook_file(".txt"));
    assert!(!Library::is_ebook_file("trailing."));
}

#[test]
fn start_and_cancel_browsing_drive_the_mode() {
    let mut lib = Library::new();
    assert!(!lib.browsing_mode);
    lib.start_browsing("/home/user".to_string());
    assert!(lib.browsing_mode);
    assert_eq!(lib.current_path, "/home/user");
    assert!(lib.file_list.is_empty());
    lib.file_list = vec![entry("a.txt", false)];
    lib.cancel_browsing();
    assert!(!lib.browsing_mode);
    assert!(lib.file_list.is_empty());
}

#[test]
fn go_up_walks_toward_the_root_and_stops_there() {
    let mut lib = Library::new();
    lib.current_path = "/home/user".to_string();
    lib.go_up();
    assert_eq!(lib.current_path, "/home");
    lib.go_up();
    assert_eq!(lib.current_path, "/");
    lib.go_up();
    assert_eq!(lib.current_path, "/");
}

#[test]
fn enter_directory_follows_only_directory_entries() {
    let mut lib = Library::new();
    lib.current_path = "/start".to_string();
    lib.file_list = vec![entry("books", true), entry("a.txt", false)];
    lib.enter_directory(5);
    assert_eq!(lib.current_path, "/start");
    lib.enter_directory(1);
    assert_eq!(lib.current_path, "/start");
    lib.enter_directory(0);
    assert_eq!(lib.current_path, "/home/user/books");
    assert!(lib.file_list.is_empty());
}

#[test]
fn select_file_ignores_directories_and_bad_indices() {
    let mut lib = Library::new();
    lib.file_list = vec![entry("books", true)];
    assert!(lib.select_file(0).is_none());
    assert!(lib.select_file(9).is_none());
    assert!(lib.err.is_none());
}

#[test]
fn select_file_rejects_unrecognized_extensions() {
    let mut lib = Library::new();
    lib.file_list = vec![entry("notes.DOCX", false), entry("noext", false)];
    let r = lib.select_file(0);
    if lib.err.as_deref() == Some("Failed to get local data directory") {
        // no per-user data directory in this environment; nothing to plan
        assert!(r.is_none());
        return;
    }
    assert!(r.is_none());
    assert_eq!(lib.err.as_deref(), Some("Unsupported format: docx"));
    let r2 = lib.select_file(1);
    assert!(r2.is_none());
    assert_eq!(lib.err.as_deref(), Some("No file extension"));
}

#[test]
fn select_file_plans_a_copy_for_a_recognized_file() {
    let mut lib = Library::new();
    lib.file_list = vec![entry("Dune.epub", false)];
    match lib.select_file(0) {
        Some(plan) => {
            assert_eq!(plan.source_path, "/home/user/Dune.epub");
            assert_eq!(plan.format, BookFormat::EPUB);
            assert!(plan.dest_name.ends_with(".epub"));
            assert_eq!(plan.dest_name.len(), 36 + ".epub".len());
            assert!(plan.dest_path.ends_with(&format!("/{}", plan.dest_name)));
        },
        None => {
            // no per-user data directory in this environment
            assert_eq!(lib.err.as_deref(), Some("Failed to get local data directory"));
        },
    }
}

#[test]
fn finish_select_file_records_a_successful_copy() {
    let mut lib = Library::new();
    lib.browsing_mode = true;
    let plan = IngestPlan {
        source_path: "/src/Dune.epub".to_string(),
        dest_name: "0123456789abcdef.epub".to_string(),
        dest_path: "/data/EbookReader/ebooks/0123456789abcdef.epub".to_string(),
        format: BookFormat::EPUB,
    };
    lib.finish_select_file(&plan, Ok(4242));
    assert!(!lib.browsing_mode);
    assert_eq!(lib.books.len(), 1);
    let b = &lib.books[0];
    assert_eq!(b.title, "0123456789abcdef");
    assert_eq!(b.file_name, "0123456789abcdef.epub");
    assert_eq!(b.format, BookFormat::EPUB);
    assert_eq!(b.size, 4242);
    match &b.storage {
        BookStorage::FilePath(p) => {
            assert_eq!(p, "/data/EbookReader/ebooks/0123456789abcdef.epub")
        },
        BookStorage::Inline(_) => panic!("filesystem ingestion must reference the copied file"),
    }
}

#[test]
fn finish_select_file_keeps_browsing_on_a_failed_copy() {
    let mut lib = Library::new();
    lib.browsing_mode = true;
    let plan = IngestPlan {
        source_path: "/src/a.pdf".to_string(),
        dest_name: "x.pdf".to_string(),
        dest_path: "/data/x.pdf".to_string(),
        format: BookFormat::PDF,
    };
    lib.finish_select_file(&plan, Err("Failed to copy file: disk full".to_string()));
    assert!(lib.browsing_mode);
    assert_eq!(lib.books.len(), 0);
    assert_eq!(lib.err.as_deref(), Some("Failed to copy file: disk full"));
}

#[test]
fn detect_format_names_each_failure() {
    assert_eq!(Library::detect_format("a.epub").unwrap(), BookFormat::EPUB);
    assert_eq!(Library::detect_format("a.PDF").unwrap(), BookFormat::PDF);
    assert_eq!(Library::detect_format("noext").unwrap_err(), "No file extension");
    assert_eq!(Library::detect_format("notes.DocX").unwrap_err(), "Unsupported format: docx");
}
