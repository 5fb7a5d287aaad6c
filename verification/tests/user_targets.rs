use vcpkg::Error;
use vcpkg::user_targets_root;

fn strings(items: &[&str]) -> Vec<String> {
    items.iter().map(|s| s.to_string()).collect()
}

#[test]
fn project_path_yields_the_root_four_levels_up() {
    let lines = strings(&[
        "<?xml version=\"1.0\" encoding=\"utf-8\"?>",
        "<Project ToolsVersion=\"14.0\" xmlns=\"http://schemas.microsoft.com/developer/msbuild/2003\">",
        "  <Import Project=\"C:\\dev\\vcpkg\\scripts\\buildsystems\\msbuild\\vcpkg.targets\" Condition=\"Exists('...')\" />",
        "</Project>",
    ]);
    match user_targets_root(&lines) {
        Some(Ok(root)) => assert_eq!(root, "C:\\dev\\vcpkg"),
        other => panic!("expected the tree root, got {:?}", other),
    }
}

#[test]
fn forward_slash_paths_are_climbed_too() {
    let lines = strings(&[
        "  <Import Project=\"/home/dev/vcpkg/scripts/buildsystems/msbuild/vcpkg.targets\" />",
    ]);
    match user_targets_root(&lines) {
        Some(Ok(root)) => assert_eq!(root, "/home/dev/vcpkg"),
        other => panic!("expected the tree root, got {:?}", other),
    }
}

#[test]
fn short_project_path_is_an_error_naming_it() {
    let lines = strings(&["<Import Project=\"a\\b\" />"]);
    match user_targets_root(&lines) {
        Some(Err(Error::VcpkgNotFound(ref m))) => {
            assert_eq!(m, "Could not find vcpkg root above a\\b");
        },
        other => panic!("expected the short-path error, got {:?}", other),
    }
}

#[test]
fn files_without_a_project_line_name_no_root() {
    let lines = strings(&["<?xml version=\"1.0\"?>", "<Project></Project>"]);
    assert!(user_targets_root(&lines).is_none());
    let empty: Vec<String> = Vec::new();
    assert!(user_targets_root(&empty).is_none());
}
