use xcopen::classify::{filter_entries, is_package, is_xcodeproj, is_xcworkspace};
use xcopen::decision::grouped;
use xcopen::display::{find_numbered, selection_groups, sort_by_file_name, sort_groups};
use xcopen::paths::{file_name_string, has_extension, has_parent, parent_string};

#[test]
fn recognizes_project_extension() {
    assert!(is_xcodeproj("/p/App.xcodeproj"));
    assert!(!is_xcodeproj("/p/App.xcworkspace"));
    assert!(!is_xcodeproj("/p/App.xcodeproj/contents"));
    assert!(!is_xcodeproj("xcodeproj"));
    assert!(!is_xcodeproj("/p/.xcodeproj"));
}

#[test]
fn recognizes_workspace_extension() {
    assert!(is_xcworkspace("/p/App.xcworkspace"));
    assert!(is_xcworkspace("App.xcworkspace"));
    assert!(!is_xcworkspace("/p/App.xcodeproj"));
    assert!(!is_xcworkspace("/p/.xcworkspace"));
}

#[test]
fn recognizes_package_manifest() {
    assert!(is_package("/p/Package.swift"));
    assert!(is_package("Package.swift"));
    assert!(!is_package("/p/package.swift"));
    assert!(!is_package("/p/Package.swift.bak"));
    assert!(!is_package("/p/NotPackage.swift"));
}

#[test]
fn extension_is_the_part_after_the_last_dot() {
    assert!(has_extension("/p/a.tar.gz", "gz"));
    assert!(!has_extension("/p/a.tar.gz", "tar.gz"));
    assert!(has_extension("a.", ""));
    assert!(!has_extension(".hidden", "hidden"));
    assert!(!has_extension("/p/plain", "plain"));
}

#[test]
fn ancestor_segments_match_whole_segments_only() {
    assert!(has_parent("/p/Pods/Sample.xcodeproj", "Pods"));
    assert!(has_parent("/p/Pods", "Pods"));
    assert!(!has_parent("/p/MyPods/Sample.xcodeproj", "Pods"));
    assert!(!has_parent("/p/Podsy/Sample.xcodeproj", "Pods"));
    assert!(!has_parent("/p/a/b", "Pods"));
}

#[test]
fn parent_and_file_name_split_at_the_last_slash() {
    assert_eq!(parent_string("/p/App.xcodeproj"), "/p".to_string());
    assert_eq!(parent_string("App.xcodeproj"), "".to_string());
    assert_eq!(file_name_string("/p/App.xcodeproj"), "App.xcodeproj".to_string());
    assert_eq!(file_name_string("App.xcodeproj"), "App.xcodeproj".to_string());
}

#[test]
fn filter_keeps_descriptors_in_input_order() {
    let entries: Vec<String> = vec![
        "/p/readme.md".to_string(),
        "/p/B.xcodeproj".to_string(),
        "/p/A.xcworkspace".to_string(),
        "/p/B.xcodeproj/project.xcworkspace".to_string(),
    ];
    let special: Vec<String> = vec![];
    let kept = filter_entries("/p", &entries, &special);
    assert_eq!(
        kept,
        vec!["/p/B.xcodeproj".to_string(), "/p/A.xcworkspace".to_string()]
    );
}

#[test]
fn grouped_keys_appear_in_first_occurrence_order() {
    let entries: Vec<String> = vec![
        "/p/a/One.xcodeproj".to_string(),
        "/p/b/Two.xcodeproj".to_string(),
        "/p/a/Three.xcodeproj".to_string(),
    ];
    let groups = grouped(entries);
    assert_eq!(
        groups,
        vec![
            (
                "/p/a".to_string(),
                vec![
                    "/p/a/One.xcodeproj".to_string(),
                    "/p/a/Three.xcodeproj".to_string()
                ],
            ),
            ("/p/b".to_string(), vec!["/p/b/Two.xcodeproj".to_string()]),
        ]
    );
}

#[test]
fn sort_by_file_name_orders_by_final_segment() {
    let members: Vec<String> = vec![
        "/p/Zeta.xcodeproj".to_string(),
        "/p/Alpha.xcodeproj".to_string(),
        "/p/Mid.xcodeproj".to_string(),
    ];
    let sorted = sort_by_file_name(members);
    assert_eq!(
        sorted,
        vec![
            "/p/Alpha.xcodeproj".to_string(),
            "/p/Mid.xcodeproj".to_string(),
            "/p/Zeta.xcodeproj".to_string(),
        ]
    );
}

#[test]
fn sort_groups_orders_by_parent_path() {
    let groups: Vec<(String, Vec<String>)> = vec![
        ("/p/z".to_string(), vec!["/p/z/A.xcodeproj".to_string()]),
        ("/p/a".to_string(), vec!["/p/a/B.xcodeproj".to_string()]),
    ];
    let sorted = sort_groups(groups);
    assert_eq!(
        sorted,
        vec![
            ("/p/a".to_string(), vec!["/p/a/B.xcodeproj".to_string()]),
            ("/p/z".to_string(), vec!["/p/z/A.xcodeproj".to_string()]),
        ]
    );
}

#[test]
fn selection_groups_numbers_candidates_in_display_order() {
    let groups: Vec<(String, Vec<String>)> = vec![
        (
            "/p/z".to_string(),
            vec!["/p/z/B.xcodeproj".to_string(), "/p/z/A.xcodeproj".to_string()],
        ),
        ("/p/a".to_string(), vec!["/p/a/C.xcodeproj".to_string()]),
    ];
    let list = selection_groups(groups);
    assert_eq!(
        list,
        vec![
            (
                "/p/a".to_string(),
                vec![(1u32, "/p/a/C.xcodeproj".to_string())],
            ),
            (
                "/p/z".to_string(),
                vec![
                    (2u32, "/p/z/A.xcodeproj".to_string()),
                    (3u32, "/p/z/B.xcodeproj".to_string()),
                ],
            ),
        ]
    );
}

#[test]
fn find_numbered_maps_a_label_back_to_its_path() {
    let list: Vec<(String, Vec<(u32, String)>)> = vec![
        (
            "/p/a".to_string(),
            vec![(1u32, "/p/a/C.xcodeproj".to_string())],
        ),
        (
            "/p/z".to_string(),
            vec![
                (2u32, "/p/z/A.xcodeproj".to_string()),
                (3u32, "/p/z/B.xcodeproj".to_string()),
            ],
        ),
    ];
    assert_eq!(find_numbered(&list, 1), Some("/p/a/C.xcodeproj".to_string()));
    assert_eq!(find_numbered(&list, 3), Some("/p/z/B.xcodeproj".to_string()));
    assert_eq!(find_numbered(&list, 4), None);
    assert_eq!(find_numbered(&list, 0), None);
}
