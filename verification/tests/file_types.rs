use sophist::file_types::{
    embedding_kind, file_extension, is_valid_file, pdf_text_path, validate_file, EmbeddingKind,
    ValidationError,
};

#[test]
fn valid_text_and_image_files() {
    assert!(is_valid_file("notes.txt"));
    assert!(is_valid_file("/home/user/readme.md"));
    assert!(is_valid_file("table.csv"));
    assert!(is_valid_file("data.json"));
    assert!(is_valid_file("data.tsv"));
    assert!(is_valid_file("feed.xml"));
    assert!(is_valid_file("paper.pdf"));
    assert!(is_valid_file("letter.doc"));
    assert!(is_valid_file("photo.jpg"));
    assert!(is_valid_file("photo.jpeg"));
    assert!(is_valid_file("icon.png"));
}

#[test]
fn invalid_files() {
    assert!(!is_valid_file("archive.zip"));
    assert!(!is_valid_file("Makefile"));
    assert!(!is_valid_file(""));
    // the extension starts at the first dot of the file name
    assert!(!is_valid_file("backup.tar.md"));
    assert!(!is_valid_file("notes.TXT"));
    assert!(!is_valid_file("/home/v1.2/Makefile"));
}

#[test]
fn relative_and_dotted_directories() {
    assert!(is_valid_file("./notes.txt"));
    assert!(is_valid_file("../docs/notes.md"));
    assert!(is_valid_file("/home/u/v1.2/paper.pdf"));
    assert_eq!(validate_file("./notes.txt", true), Ok(()));
}

#[test]
fn extension_from_first_dot() {
    assert_eq!(file_extension("a/b.c.txt"), Some(".c.txt"));
    assert_eq!(file_extension("plain"), None);
    assert_eq!(file_extension("trailing."), Some("."));
    assert_eq!(file_extension("v1.2/plain"), None);
    assert_eq!(file_extension("./a.png"), Some(".png"));
}

#[test]
fn validation_order() {
    assert_eq!(validate_file("notes.txt", false), Err(ValidationError::FileNotFound));
    assert_eq!(validate_file("Makefile", false), Err(ValidationError::FileNotFound));
    assert_eq!(validate_file("Makefile", true), Err(ValidationError::MissingExtension));
    assert_eq!(validate_file("tool.exe", true), Err(ValidationError::InvalidType));
    assert_eq!(validate_file("/a.b/notes", true), Err(ValidationError::InvalidType));
    assert_eq!(validate_file("./notes", true), Err(ValidationError::InvalidType));
    assert_eq!(validate_file("notes.txt", true), Ok(()));
}

#[test]
fn validation_messages() {
    assert_eq!(ValidationError::FileNotFound.message("a.txt"), "File not found at a.txt.");
    assert_eq!(
        ValidationError::MissingExtension.message("Makefile"),
        "File Makefile does not include type extension."
    );
    assert_eq!(ValidationError::InvalidType.message("x.exe"), "Invalid file type for x.exe.");
}

#[test]
fn embedding_kinds() {
    assert_eq!(embedding_kind("a.md"), EmbeddingKind::GeneralText);
    assert_eq!(embedding_kind("a.xml"), EmbeddingKind::GeneralText);
    assert_eq!(embedding_kind("a.pdf"), EmbeddingKind::Pdf);
    assert_eq!(embedding_kind("a.doc"), EmbeddingKind::Doc);
    assert_eq!(embedding_kind("a.png"), EmbeddingKind::Image);
    assert_eq!(embedding_kind("a.zip"), EmbeddingKind::Unsupported);
    assert_eq!(embedding_kind("noext"), EmbeddingKind::Unsupported);
}

#[test]
fn kind_supported_iff_valid() {
    for p in ["a.txt", "a.pdf", "a.doc", "a.jpg", "a.zip", "abc", "x.y.txt", "d.1/abc", "./q.md"] {
        assert_eq!(embedding_kind(p) != EmbeddingKind::Unsupported, is_valid_file(p));
    }
}

#[test]
fn pdf_text_next_to_pdf() {
    assert_eq!(pdf_text_path("/home/u/paper.pdf"), "/home/u/paper.txt");
    assert_eq!(pdf_text_path("/home/u/v1.2/paper.pdf"), "/home/u/v1.2/paper.txt");
    assert_eq!(pdf_text_path("./scan.v2.pdf"), "./scan.txt");
    assert_eq!(embedding_kind(&pdf_text_path("/docs/report.pdf")), EmbeddingKind::GeneralText);
}
