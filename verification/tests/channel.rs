use rattler::channel::{default_platforms, is_path, parse_scheme, Platform};

#[test]
fn test_parse_scheme() {
    assert_eq!(parse_scheme("https://google.com"), Some("https"));
    assert_eq!(parse_scheme("http://google.com"), Some("http"));
    assert_eq!(parse_scheme("google.com"), None);
    assert_eq!(parse_scheme(""), None);
}

#[test]
fn parse_scheme_edge_cases() {
    assert_eq!(parse_scheme("s3://bucket/key"), Some("s3"));
    assert_eq!(parse_scheme("file:///tmp"), Some("file"));
    assert_eq!(parse_scheme("://missing"), None);
    assert_eq!(parse_scheme("0ab://x"), None);
    assert_eq!(parse_scheme("a b://x"), None);
    assert_eq!(parse_scheme("veryverylongx://x"), None);
    assert_eq!(parse_scheme("elevenchars://x"), Some("elevenchars"));
    assert_eq!(parse_scheme("tenchars00://x"), Some("tenchars00"));
}

#[test]
fn is_path_markers() {
    assert!(is_path("./relative"));
    assert!(is_path("../up"));
    assert!(is_path("~/home"));
    assert!(is_path("/absolute"));
    assert!(is_path("a/b"));
    assert!(is_path("C:\\windows"));
    assert!(is_path("C:/windows"));
    assert!(is_path("\\\\server\\share"));
    assert!(!is_path("conda-forge"));
    assert!(!is_path("name"));
    assert!(!is_path(""));
}

#[test]
fn platform_names() {
    assert_eq!(Platform::Linux64.as_str(), "linux-64");
    assert_eq!(Platform::NoArch.as_str(), "noarch");
    assert_eq!(Platform::Linux32.as_str(), "linux-32");
    assert_eq!(Platform::OsxArm64.as_str(), "osx-arm64");
}

#[test]
fn default_platforms_hold_current_and_noarch() {
    let platforms = default_platforms();
    assert_eq!(platforms, vec![Platform::Linux64, Platform::NoArch]);
}
