use warp::about::warp_version_text;

#[test]
fn release_builds_show_their_version() {
    assert_eq!(
        warp_version_text(Some("v0.2026.06.25"), Some("0123456789abcdef")),
        ("Warp v0.2026.06.25".to_string(), "v0.2026.06.25".to_string())
    );
}

#[test]
fn source_builds_show_a_short_commit_and_copy_the_full_one() {
    assert_eq!(
        warp_version_text(None, Some("c43ca7761615070e21ee8c25d7687f04482735fe")),
        (
            "Warp source c43ca7761615".to_string(),
            "Warp source c43ca7761615070e21ee8c25d7687f04482735fe".to_string()
        )
    );
    assert_eq!(
        warp_version_text(None, Some("abc")),
        ("Warp source abc".to_string(), "Warp source abc".to_string())
    );
}

#[test]
fn unknown_builds_say_so() {
    let unknown = ("Warp source unknown".to_string(), "Warp source unknown".to_string());
    assert_eq!(warp_version_text(None, None), unknown);
    assert_eq!(warp_version_text(None, Some("")), unknown);
}
