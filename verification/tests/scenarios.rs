use xcopen::decision::{dir_status, DirStatus};

#[test]
fn workspace_beats_sibling_project_and_nested_workspace_is_dropped() {
    let root = "/p";
    let input: Vec<String> = vec![
        "/p/App.xcodeproj".to_string(),
        "/p/App.xcodeproj/project.xcworkspace".to_string(),
        "/p/App.xcworkspace".to_string(),
    ];
    let special: Vec<String> = vec![];
    let result = DirStatus::Project("/p/App.xcworkspace".to_string());
    assert_eq!(dir_status(root, &input, &special), result);
}

#[test]
fn special_directory_hides_its_project() {
    let root = "/p";
    let input: Vec<String> = vec![
        "/p/Pods/Pods.xcodeproj".to_string(),
        "/p/App.xcworkspace".to_string(),
    ];
    let special: Vec<String> = vec!["Pods".to_string()];
    let result = DirStatus::Project("/p/App.xcworkspace".to_string());
    assert_eq!(dir_status(root, &input, &special), result);
}

#[test]
fn special_root_disables_exclusion() {
    let root = "/p/Pods";
    let input: Vec<String> = vec![
        "/p/Pods/Pods.xcodeproj".to_string(),
        "/p/Pods/notes.txt".to_string(),
    ];
    let special: Vec<String> = vec!["Pods".to_string()];
    let result = DirStatus::Project("/p/Pods/Pods.xcodeproj".to_string());
    assert_eq!(dir_status(root, &input, &special), result);
}

#[test]
fn two_parent_directories_are_ambiguous() {
    let root = "/p";
    let input: Vec<String> = vec![
        "/p/A.xcodeproj".to_string(),
        "/p/sub/B.xcodeproj".to_string(),
    ];
    let special: Vec<String> = vec![];
    let result = DirStatus::Groups(vec![
        ("/p".to_string(), vec!["/p/A.xcodeproj".to_string()]),
        ("/p/sub".to_string(), vec!["/p/sub/B.xcodeproj".to_string()]),
    ]);
    assert_eq!(dir_status(root, &input, &special), result);
}

#[test]
fn empty_input_is_no_entries() {
    let root = "/p";
    let input: Vec<String> = vec![];
    let special: Vec<String> = vec![];
    assert_eq!(dir_status(root, &input, &special), DirStatus::NoEntries);
}

#[test]
fn single_survivor_is_opened_regardless_of_input_order() {
    let special: Vec<String> = vec![];
    let first: Vec<String> = vec![
        "/p/App.xcodeproj".to_string(),
        "/p/readme.md".to_string(),
        "/p/src/main.c".to_string(),
    ];
    let last: Vec<String> = vec![
        "/p/readme.md".to_string(),
        "/p/src/main.c".to_string(),
        "/p/App.xcodeproj".to_string(),
    ];
    let result = DirStatus::Project("/p/App.xcodeproj".to_string());
    assert_eq!(dir_status("/p", &first, &special), result);
    assert_eq!(dir_status("/p", &last, &special), result);
}

#[test]
fn package_beside_workspace_opens_workspace() {
    let root = "/p";
    let input: Vec<String> = vec![
        "/p/Package.swift".to_string(),
        "/p/App.xcworkspace".to_string(),
    ];
    let special: Vec<String> = vec![];
    let result = DirStatus::Project("/p/App.xcworkspace".to_string());
    assert_eq!(dir_status(root, &input, &special), result);
}

#[test]
fn two_workspaces_in_one_directory_are_ambiguous() {
    let root = "/p";
    let input: Vec<String> = vec![
        "/p/A.xcworkspace".to_string(),
        "/p/B.xcworkspace".to_string(),
    ];
    let special: Vec<String> = vec![];
    let result = DirStatus::Groups(vec![("/p".to_string(), input.clone())]);
    assert_eq!(dir_status(root, &input, &special), result);
}

#[test]
fn two_projects_in_one_directory_are_ambiguous() {
    let root = "/p";
    let input: Vec<String> = vec![
        "/p/A.xcodeproj".to_string(),
        "/p/B.xcodeproj".to_string(),
    ];
    let special: Vec<String> = vec![];
    let result = DirStatus::Groups(vec![("/p".to_string(), input.clone())]);
    assert_eq!(dir_status(root, &input, &special), result);
}

#[test]
fn nested_workspace_is_dropped_in_either_discovery_order() {
    let special: Vec<String> = vec![];
    let nested_first: Vec<String> = vec![
        "/p/App.xcodeproj/project.xcworkspace".to_string(),
        "/p/App.xcodeproj".to_string(),
    ];
    let nested_last: Vec<String> = vec![
        "/p/App.xcodeproj".to_string(),
        "/p/App.xcodeproj/project.xcworkspace".to_string(),
    ];
    let result = DirStatus::Project("/p/App.xcodeproj".to_string());
    assert_eq!(dir_status("/p", &nested_first, &special), result);
    assert_eq!(dir_status("/p", &nested_last, &special), result);
}
