use refpack::corpus::{get_compressed_file, get_uncompressed_file};

#[test]
fn corpus_files_have_paths() {
    assert_eq!(
        get_uncompressed_file("dickens"),
        Some("testing_corpus/uncompressed/dickens".to_string())
    );
    assert_eq!(
        get_compressed_file("x-ray"),
        Some("testing_corpus/compressed/x-ray".to_string())
    );
}

#[test]
fn other_files_have_none() {
    assert_eq!(get_uncompressed_file("silesia.zip"), None);
    assert_eq!(get_compressed_file(""), None);
    assert_eq!(get_compressed_file("Dickens"), None);
}
