//! End-to-end exercises of the scaffolding core: catalog assembly, board
//! lookup, snapshot ordering, rendering, path safety, and the registry.

use fide_backend::boards::{get_available_boards, get_board_by_id, BoardConfig, BoardDescriptor, ScanEntry};
use fide_backend::errors::ScaffoldError;
use fide_backend::facade::error_status;
use fide_backend::projects::ProjectManager;
use fide_backend::render::render_template_content;
use fide_backend::templates::{
    build_from_listing, generate_file_tree, sort_entries, FileNode, MAX_TEMPLATE_DEPTH,
};

fn descriptor(id: &str, name: &str) -> BoardDescriptor {
    BoardDescriptor {
        id: id.to_string(),
        name: name.to_string(),
        mcu: "STM32F4".to_string(),
        architecture: "ARM Cortex-M4".to_string(),
        ram_kb: 192,
        flash_kb: 1024,
    }
}

fn board(id: &str, template_path: &str) -> BoardConfig {
    BoardConfig {
        id: id.to_string(),
        name: id.to_string(),
        mcu: "STM32F4".to_string(),
        architecture: "ARM Cortex-M4".to_string(),
        ram_kb: 192,
        flash_kb: 1024,
        template_path: template_path.to_string(),
    }
}

#[test]
fn catalog_includes_exactly_the_valid_descriptors() {
    let scan = vec![
        ScanEntry { dir_name: "alpha".to_string(), descriptor: Some(descriptor("a1", "Alpha")) },
        ScanEntry { dir_name: "broken".to_string(), descriptor: None },
        ScanEntry { dir_name: "beta".to_string(), descriptor: Some(descriptor("b2", "Beta")) },
    ];
    let boards = get_available_boards(&scan);
    assert_eq!(boards.len(), 2);
    assert_eq!(boards[0].id, "a1");
    assert_eq!(boards[0].name, "Alpha");
    assert_eq!(boards[0].template_path, "templates/alpha");
    assert_eq!(boards[1].id, "b2");
    assert_eq!(boards[1].template_path, "templates/beta");
}

#[test]
fn catalog_of_empty_scan_is_empty() {
    let boards = get_available_boards(&Vec::new());
    assert!(boards.is_empty());
}

#[test]
fn duplicate_board_ids_keep_the_last_scanned() {
    let mut first = descriptor("x1", "First");
    first.mcu = "A".to_string();
    let mut second = descriptor("x1", "Second");
    second.mcu = "B".to_string();
    let scan = vec![
        ScanEntry { dir_name: "one".to_string(), descriptor: Some(first) },
        ScanEntry { dir_name: "two".to_string(), descriptor: Some(second) },
    ];
    let boards = get_available_boards(&scan);
    assert_eq!(boards.len(), 1);
    assert_eq!(boards[0].name, "Second");
    assert_eq!(boards[0].mcu, "B");
    assert_eq!(boards[0].template_path, "templates/two");
    let found = get_board_by_id(&boards, "x1").unwrap();
    assert_eq!(found.name, "Second");
}

#[test]
fn board_lookup_finds_each_and_misses_unknown() {
    let boards = vec![board("a1", "templates/alpha"), board("b2", "templates/beta")];
    for id in ["a1", "b2"] {
        let found = get_board_by_id(&boards, id).expect("board should be found");
        assert_eq!(found.id, id);
    }
    assert!(get_board_by_id(&boards, "nope").is_none());
}

#[test]
fn sorting_is_by_name_with_kinds_interleaved() {
    let entries = vec![
        ("b.txt".to_string(), false),
        ("a.txt".to_string(), false),
        ("Z".to_string(), true),
    ];
    let sorted = sort_entries(entries);
    let names: Vec<&str> = sorted.iter().map(|e| e.0.as_str()).collect();
    assert_eq!(names, vec!["Z", "a.txt", "b.txt"]);
    assert!(sorted[0].1);
    assert!(!sorted[1].1);
}

#[test]
fn a_level_mirrors_its_listing_exactly() {
    let entries = vec![
        ("readme.txt".to_string(), false),
        ("Makefile".to_string(), false),
    ];
    let dir = ".".to_string();
    let prefix = String::new();
    let nodes = build_from_listing(entries, &dir, &prefix, MAX_TEMPLATE_DEPTH).unwrap();
    assert_eq!(nodes.len(), 2);
    assert_eq!(nodes[0].name, "Makefile");
    assert_eq!(nodes[0].path, "Makefile");
    assert!(!nodes[0].is_directory);
    assert!(nodes[0].children.is_none());
    assert_eq!(nodes[1].name, "readme.txt");
    assert_eq!(nodes[1].path, "readme.txt");
}

fn assert_forest_sorted(nodes: &[FileNode]) {
    for w in nodes.windows(2) {
        assert!(w[0].name <= w[1].name, "{} > {}", w[0].name, w[1].name);
    }
    for n in nodes {
        assert_eq!(n.is_directory, n.children.is_some());
        if let Some(children) = &n.children {
            assert_forest_sorted(children);
        }
    }
}

#[test]
fn snapshot_of_a_real_tree_is_sorted_at_every_level() {
    let tree = generate_file_tree(".").expect("the crate root exists");
    assert_forest_sorted(&tree);
    let src = tree
        .iter()
        .find(|n| n.name == "src")
        .expect("the crate's own src directory is walked");
    assert!(src.is_directory);
    let children = src.children.as_ref().unwrap();
    assert!(children.iter().any(|n| n.name == "lib.rs" && !n.is_directory));
    let lib = children.iter().find(|n| n.name == "lib.rs").unwrap();
    assert_eq!(lib.path, "src/lib.rs");
}

#[test]
fn snapshot_of_missing_root_fails_as_template_not_found() {
    let r = generate_file_tree("definitely_not_a_template_root_xyz");
    assert_eq!(r.unwrap_err(), ScaffoldError::TemplateNotFound);
}

#[test]
fn rendering_substitutes_every_occurrence() {
    assert_eq!(render_template_content("Hello {{PROJECT_NAME}}", "Foo"), "Hello Foo");
    assert_eq!(
        render_template_content("{{PROJECT_NAME}}/{{PROJECT_NAME}}", "x"),
        "x/x"
    );
    assert_eq!(render_template_content("no token here", "Foo"), "no token here");
    assert_eq!(render_template_content("", "Foo"), "");
}

#[test]
fn rendering_leaves_a_truncated_token_alone() {
    assert_eq!(render_template_content("Hello {{PROJECT_NAME", "Foo"), "Hello {{PROJECT_NAME");
    assert_eq!(render_template_content("{{project_name}}", "Foo"), "{{project_name}}");
}

#[test]
fn rendering_treats_a_token_in_the_name_as_plain_text() {
    assert_eq!(
        render_template_content("A {{PROJECT_NAME}} B", "{{PROJECT_NAME}}"),
        "A {{PROJECT_NAME}} B"
    );
}

#[test]
fn registry_round_trip_creates_and_resolves() {
    let boards = vec![board("b1", "src")];
    let mut pm = ProjectManager::new();
    let resp = pm.create_project("Foo", "b1", &boards).expect("create should succeed");
    assert_eq!(resp.workspace_url, format!("/workspace/{}", resp.project_id));
    assert!(!resp.file_tree.is_empty());
    assert_forest_sorted(&resp.file_tree);
    assert!(pm.contains_project(&resp.project_id));

    let rf = pm
        .resolve_project_file(&resp.project_id, "lib.rs")
        .expect("a file of the template resolves");
    assert_eq!(rf.full_path, "src/lib.rs");
    assert_eq!(rf.project_name, "Foo");
    assert_eq!(rf.template_path, "src");
}

#[test]
fn traversal_paths_are_rejected_for_every_project() {
    let boards = vec![board("b1", "src")];
    let mut pm = ProjectManager::new();
    let resp = pm.create_project("Foo", "b1", &boards).unwrap();
    for bad in ["../../etc/passwd", "a/../../b", "/etc/passwd", ".."] {
        let r = pm.resolve_project_file(&resp.project_id, bad);
        assert_eq!(r.unwrap_err(), ScaffoldError::FileReadError, "path {bad} must be rejected");
    }
}

#[test]
fn dot_and_doubled_slashes_normalize_without_escaping() {
    let boards = vec![board("b1", "src")];
    let mut pm = ProjectManager::new();
    let resp = pm.create_project("Foo", "b1", &boards).unwrap();
    let rf = pm.resolve_project_file(&resp.project_id, "././/lib.rs").unwrap();
    assert_eq!(rf.full_path, "src/lib.rs");
}

#[test]
fn unknown_board_fails_creation() {
    let boards = vec![board("b1", "src")];
    let mut pm = ProjectManager::new();
    let r = pm.create_project("x", "nonexistent-board", &boards);
    assert_eq!(r.unwrap_err(), ScaffoldError::BoardNotFound);
}

#[test]
fn missing_template_aborts_creation_without_a_record() {
    let boards = vec![board("b1", "no_such_template_dir_xyz")];
    let mut pm = ProjectManager::new();
    let r = pm.create_project("x", "b1", &boards);
    assert_eq!(r.unwrap_err(), ScaffoldError::TemplateNotFound);
}

#[test]
fn unknown_project_fails_lookup() {
    let pm = ProjectManager::new();
    let r = pm.resolve_project_file("nonexistent-project", "a.txt");
    assert_eq!(r.unwrap_err(), ScaffoldError::ProjectNotFound);
}

#[test]
fn identical_creates_yield_distinct_resolvable_projects() {
    let boards = vec![board("b1", "src")];
    let mut pm = ProjectManager::new();
    let r1 = pm.create_project("Foo", "b1", &boards).unwrap();
    let r2 = pm.create_project("Foo", "b1", &boards).unwrap();
    assert_ne!(r1.project_id, r2.project_id);
    assert_ne!(r1.container_id, r2.container_id);
    assert!(pm.contains_project(&r1.project_id));
    assert!(pm.contains_project(&r2.project_id));
    assert!(pm.resolve_project_file(&r1.project_id, "lib.rs").is_ok());
    assert!(pm.resolve_project_file(&r2.project_id, "lib.rs").is_ok());
}

#[test]
fn many_creates_lose_no_record() {
    let boards = vec![board("b1", "src"), board("b2", "tests")];
    let mut pm = ProjectManager::new();
    let mut ids: Vec<String> = Vec::new();
    for k in 0..6 {
        let bid = if k % 2 == 0 { "b1" } else { "b2" };
        let resp = pm.create_project(&format!("p{k}"), bid, &boards).unwrap();
        ids.push(resp.project_id);
    }
    for (k, id) in ids.iter().enumerate() {
        assert!(pm.contains_project(id), "record {k} lost");
        let name = pm
            .resolve_project_file(id, "x.txt")
            .map(|r| r.project_name)
            .unwrap();
        assert_eq!(name, format!("p{k}"));
    }
}

#[test]
fn failures_classify_for_the_boundary() {
    assert_eq!(error_status(&ScaffoldError::BoardNotFound), 404);
    assert_eq!(error_status(&ScaffoldError::ProjectNotFound), 404);
    assert_eq!(error_status(&ScaffoldError::FileReadError), 404);
    assert_eq!(error_status(&ScaffoldError::TemplateNotFound), 500);
    assert_eq!(ScaffoldError::BoardNotFound.message(), "board not found");
    assert_eq!(ScaffoldError::TemplateNotFound.message(), "template path does not exist");
    assert_eq!(ScaffoldError::ProjectNotFound.message(), "project not found");
    assert_eq!(ScaffoldError::FileReadError.message(), "failed to read file");
}
