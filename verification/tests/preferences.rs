use kerai::preferences::{delete_preference, get_preference, set_preference, Preference};

#[test]
fn set_get_delete() {
    let mut ps: Vec<Preference> = Vec::new();
    assert_eq!(get_preference(&ps, "config", "theme"), None);
    set_preference(&mut ps, "config", "theme", "dark");
    set_preference(&mut ps, "alias", "theme", "t");
    assert_eq!(get_preference(&ps, "config", "theme").as_deref(), Some("dark"));
    set_preference(&mut ps, "config", "theme", "light");
    assert_eq!(ps.len(), 2);
    assert_eq!(get_preference(&ps, "config", "theme").as_deref(), Some("light"));
    assert_eq!(get_preference(&ps, "alias", "theme").as_deref(), Some("t"));
    assert!(delete_preference(&mut ps, "config", "theme"));
    assert!(!delete_preference(&mut ps, "config", "theme"));
    assert_eq!(get_preference(&ps, "config", "theme"), None);
    assert_eq!(get_preference(&ps, "alias", "theme").as_deref(), Some("t"));
}
