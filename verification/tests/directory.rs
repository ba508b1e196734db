use numeta::path::directory;

#[test]
fn test_directory_1() {
    assert_eq!(
        directory(&Some("/data/in.png".to_string())),
        Some("/data".to_string())
    );
}

#[test]
fn test_directory_2() {
    assert_eq!(
        directory(&Some("data/in.png".to_string())),
        Some("data".to_string())
    );
}

#[test]
fn test_directory_3() {
    assert_eq!(directory(&Some("/in.png".to_string())), Some("/".to_string()));
}

#[test]
fn test_directory_4() {
    assert_eq!(directory(&Some("in.png".to_string())), None);
}

#[test]
fn test_directory_5() {
    assert_eq!(directory(&None), None);
}
