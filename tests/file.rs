use brace_config::file::{format_of, Error, Format};

#[test]
fn test_file_none() {
    let res = format_of("tests/assets/example");

    assert!(res.is_err());

    let res = format_of("tests/outputs/example");

    assert!(res.is_err());
}

#[test]
fn test_file_invalid() {
    let res = format_of("tests/assets/example.txt");

    assert!(res.is_err());

    let res = format_of("tests/outputs/example.txt");

    assert!(res.is_err());
}

#[test]
fn file_formats_by_extension() {
    assert_eq!(format_of("tests/assets/example.json").ok(), Some(Format::Json));
    assert_eq!(format_of("example.toml").ok(), Some(Format::Toml));
    assert_eq!(format_of("a/b/example.yaml").ok(), Some(Format::Yaml));
    assert_eq!(format_of("example.yml").ok(), Some(Format::Yaml));
    assert!(format_of("dir.json/example").is_err());
    assert!(format_of(".json").is_err());
}

#[test]
fn file_invalid_type_carries_extension_and_path() {
    match format_of("tests/assets/example.txt") {
        Err(Error::InvalidFileType(Some(ext), path)) => {
            assert_eq!(ext, "txt");
            assert_eq!(path, "tests/assets/example.txt");
        }
        _ => panic!("expected an invalid file type"),
    }
    match format_of("tests/assets/example") {
        Err(Error::InvalidFileType(None, path)) => assert_eq!(path, "tests/assets/example"),
        _ => panic!("expected an invalid file type"),
    }
}
