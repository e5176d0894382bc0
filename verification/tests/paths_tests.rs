use kepub::errors::ConverterError;
use kepub::paths::get_out_file_path;

#[test]
fn test_out_file_path_replaces_extension() {
    let out = get_out_file_path("/books/dracula.epub", "/out").unwrap();
    assert_eq!(out, "/out/dracula.kepub");
}

#[test]
fn test_out_file_path_without_extension_appends() {
    let out = get_out_file_path("/books/dracula", "/out").unwrap();
    assert_eq!(out, "/out/dracula.kepub");
}

#[test]
fn test_out_file_path_hidden_file_keeps_name() {
    // A leading dot marks no extension.
    let out = get_out_file_path("/books/.epub", "/out").unwrap();
    assert_eq!(out, "/out/.epub.kepub");
}

#[test]
fn test_out_file_path_empty_file_name_fails() {
    assert_eq!(
        get_out_file_path("/books/", "/out").unwrap_err(),
        ConverterError::IOError
    );
    assert_eq!(
        get_out_file_path("", "/out").unwrap_err(),
        ConverterError::IOError
    );
}

#[test]
fn test_error_messages() {
    assert_eq!(ConverterError::ManifestMalformed.message(), "manifest malformed");
    assert_eq!(ConverterError::DocumentMalformed.message(), "document malformed");
    assert_eq!(ConverterError::InputMissing.message(), "input file missing");
    assert_eq!(ConverterError::ArchiveError.message(), "archive error");
    assert_eq!(ConverterError::ManifestMissing.message(), "manifest missing");
    assert_eq!(ConverterError::IOError.message(), "io error");
}
