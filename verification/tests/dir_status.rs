use xcopen::decision::{dir_status, DirStatus};

#[test]
fn dir_status_is_no_entries_without_projects() {
    let root = "/projects/my";
    let input: Vec<String> = vec!["/projects/my/file1".to_string()];
    let special: Vec<String> = vec![];
    let result = DirStatus::NoEntries;
    assert_eq!(dir_status(root, &input, &special), result);
}

#[test]
fn dir_status_is_open_for_one_project() {
    let root = "/projects/my";
    let input: Vec<String> = vec!["/projects/my/Sample.xcodeproj".to_string()];
    let special: Vec<String> = vec![];
    let result = DirStatus::Project("/projects/my/Sample.xcodeproj".to_string());
    assert_eq!(dir_status(root, &input, &special), result);
}

#[test]
fn dir_status_is_open_for_one_project_inside_excluded_directory() {
    let root = "/projects/my/Pods";
    let input: Vec<String> = vec!["/projects/my/Pods/Sample.xcodeproj".to_string()];
    let special: Vec<String> = vec!["Pods".to_string()];
    let result = DirStatus::Project("/projects/my/Pods/Sample.xcodeproj".to_string());
    assert_eq!(dir_status(root, &input, &special), result);
}

#[test]
fn dir_status_is_no_entries_for_excluded_directory() {
    let root = "/projects/my";
    let input: Vec<String> = vec!["/projects/my/Pods/Sample.xcodeproj".to_string()];
    let special: Vec<String> = vec!["Pods".to_string()];
    let result = DirStatus::NoEntries;
    assert_eq!(dir_status(root, &input, &special), result);
}

#[test]
fn dir_status_is_open_workspace_if_xcodeproj_exists_first() {
    let root = "/projects/my";
    let input: Vec<String> = vec![
        "/projects/my/Sample.xcodeproj".to_string(),
        "/projects/my/Sample.xcodeproj/project.xcworkspace".to_string(),
        "/projects/my/Sample.xcworkspace".to_string(),
    ];
    let special: Vec<String> = vec![];
    let result = DirStatus::Project("/projects/my/Sample.xcworkspace".to_string());
    assert_eq!(dir_status(root, &input, &special), result);
}

#[test]
fn dir_status_open_workspace_if_xcodeproj_exists_second() {
    let root = "/projects/my";
    let input: Vec<String> = vec![
        "/projects/my/Sample.xcworkspace".to_string(),
        "/projects/my/Sample.xcodeproj/project.xcworkspace".to_string(),
        "/projects/my/Sample.xcodeproj".to_string(),
    ];
    let special: Vec<String> = vec![];
    let result = DirStatus::Project("/projects/my/Sample.xcworkspace".to_string());
    assert_eq!(dir_status(root, &input, &special), result);
}

#[test]
fn dir_status_open_package() {
    let root = "/projects/my";
    let input: Vec<String> = vec!["/projects/my/Package.swift".to_string()];
    let special: Vec<String> = vec![];
    let result = DirStatus::Project("/projects/my/Package.swift".to_string());
    assert_eq!(dir_status(root, &input, &special), result);
}

#[test]
fn dir_status_show_one_group_three_projects() {
    let root = "/projects/my";
    let input: Vec<String> = vec![
        "/projects/my/Sample.xcworkspace".to_string(),
        "/projects/my/Sample.xcodeproj".to_string(),
        "/projects/my/Example.xcodeproj".to_string(),
    ];
    let special: Vec<String> = vec![];
    let result = DirStatus::Groups(vec![("/projects/my".to_string(), input.clone())]);
    assert_eq!(dir_status(root, &input, &special), result);
}

#[test]
fn dir_status_show_multiple_groups() {
    let root = "/projects/my";
    let input: Vec<String> = vec![
        "/projects/my/Sample.xcworkspace".to_string(),
        "/projects/my/Sample.xcodeproj".to_string(),
        "/projects/my/example/Example.xcodeproj".to_string(),
    ];
    let special: Vec<String> = vec![];
    let result = DirStatus::Groups(vec![
        (
            "/projects/my".to_string(),
            vec![
                "/projects/my/Sample.xcworkspace".to_string(),
                "/projects/my/Sample.xcodeproj".to_string(),
            ],
        ),
        (
            "/projects/my/example".to_string(),
            vec!["/projects/my/example/Example.xcodeproj".to_string()],
        ),
    ]);
    assert_eq!(dir_status(root, &input, &special), result);
}
