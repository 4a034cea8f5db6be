use stitch::workspace::{
    clear_stale_current_profile, gitignore_with_local_exclusion, local_settings_file,
    merge_profile_listing, profile_display_name, profile_path, profiles_local_dir, profiles_shared_dir,
    sanitize_profile_name, workspace_dir, workspace_file, workspace_settings_equal, LocalSettings,
    ProfileScope, WorkspaceSettings,
};

#[test]
fn list_profiles_local_overrides_shared_same_name() {
    // The listing that the scan of both profile folders gives.
    let raw = vec![
        ("same".to_string(), ProfileScope::Shared, 10u128),
        ("beta".to_string(), ProfileScope::Shared, 30u128),
        ("same".to_string(), ProfileScope::Local, 20u128),
    ];
    let metas = merge_profile_listing(&raw);
    assert_eq!(metas.len(), 2);
    let beta = metas.iter().find(|m| m.name == "beta").expect("beta present");
    assert_eq!(beta.scope, ProfileScope::Shared);
    let same = metas.iter().find(|m| m.name == "same").expect("same present");
    assert_eq!(same.scope, ProfileScope::Local);
}

#[test]
fn merged_listing_is_newest_first_then_by_name() {
    let raw = vec![
        ("b".to_string(), ProfileScope::Shared, 5u128),
        ("a".to_string(), ProfileScope::Shared, 5u128),
        ("c".to_string(), ProfileScope::Local, 9u128),
        ("a".to_string(), ProfileScope::Shared, 1u128),
        ("c".to_string(), ProfileScope::Shared, 99u128),
    ];
    let metas = merge_profile_listing(&raw);
    let got: Vec<(&str, ProfileScope)> = metas.iter().map(|m| (m.name.as_str(), m.scope)).collect();
    assert_eq!(
        got,
        vec![("c", ProfileScope::Local), ("a", ProfileScope::Shared), ("b", ProfileScope::Shared)]
    );
}

#[test]
fn workspace_locations() {
    assert_eq!(workspace_dir("/p"), "/p/.stitchworkspace");
    assert_eq!(workspace_file("/p"), "/p/.stitchworkspace/workspace.json");
    assert_eq!(local_settings_file("/p"), "/p/.stitchworkspace/local/settings.json");
    assert_eq!(profiles_shared_dir("/p"), "/p/.stitchworkspace/profiles");
    assert_eq!(profiles_local_dir("/p"), "/p/.stitchworkspace/local/profiles");
    assert_eq!(profile_path("/p", ProfileScope::Shared, "a b"), "/p/.stitchworkspace/profiles/a b.json");
    assert_eq!(profile_path("/p", ProfileScope::Local, "x"), "/p/.stitchworkspace/local/profiles/x.json");
}

#[test]
fn profile_names_are_sanitized() {
    assert_eq!(sanitize_profile_name("  "), "unnamed");
    assert_eq!(sanitize_profile_name("my/profile (1)"), "my_profile _1_");
    assert_eq!(sanitize_profile_name("ok-name_1.2"), "ok-name_1_2");
}

#[test]
fn gitignore_gets_local_exclusion_once() {
    let updated = gitignore_with_local_exclusion("target/\n").unwrap();
    assert!(updated.contains(".stitchworkspace/local/"));
    assert!(gitignore_with_local_exclusion(&updated).is_none());
}

#[test]
fn stale_current_profile_is_cleared() {
    let mut s = LocalSettings { current_profile: Some("gone".into()) };
    assert!(clear_stale_current_profile(&mut s, false));
    assert!(s.current_profile.is_none());
    let mut t = LocalSettings { current_profile: Some("here".into()) };
    assert!(!clear_stale_current_profile(&mut t, true));
    assert_eq!(t.current_profile.as_deref(), Some("here"));
    let mut u = LocalSettings::default();
    assert!(!clear_stale_current_profile(&mut u, false));
}

#[test]
fn workspace_settings_flags_compare() {
    let a = WorkspaceSettings { dirs_only: true, hierarchy_only: true, ..Default::default() };
    let b = a.clone();
    assert!(workspace_settings_equal(&a, &b));
    let c = WorkspaceSettings { dirs_only: false, ..a.clone() };
    assert!(!workspace_settings_equal(&a, &c));
}

#[test]
fn profile_display_name_prefers_stored_name() {
    assert_eq!(profile_display_name(Some("My (draft)"), Some("My__draft_")), "My (draft)");
    assert_eq!(profile_display_name(Some("  "), Some("file_stem")), "file_stem");
    assert_eq!(profile_display_name(None, Some("file_stem")), "file_stem");
    assert_eq!(profile_display_name(None, None), "unnamed");
}
