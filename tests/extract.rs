use gnrt::epoch::Epoch::{Major, Minor};
use gnrt::extract::{check_graph, collect_dependencies, DepEdge, DepGraph, DepNode};

fn node(name: &str, version: &str, major: u64, minor: u64, dir: &str, deps: Vec<(&str, usize)>) -> DepNode {
    DepNode {
        name: name.to_string(),
        version: version.to_string(),
        major,
        minor,
        dir: dir.to_string(),
        deps: deps.into_iter().map(|(n, t)| DepEdge { name: n.to_string(), target: t }).collect(),
    }
}

fn sample() -> DepGraph {
    DepGraph {
        nodes: vec![
            node("chromium", "0.1.0", 0, 1, "/v/rust", vec![("a", 1), ("c", 3)]),
            node("a", "1.4.2", 1, 4, "/v/rust/a/v1", vec![("b", 2)]),
            node("b", "2.0.0", 2, 0, "/home/registry/b-2.0.0", vec![("a", 1)]),
            node("c", "0.3.1", 0, 3, "/v/rust2/c", vec![]),
            node("d", "5.0.0", 5, 0, "/v/rust/d/v5", vec![("a", 1)]),
        ],
        root: 0,
    }
}

#[test]
fn records_of_reachable_nodes() {
    let ds = collect_dependencies(&sample(), "/v/rust").unwrap();
    let names: Vec<&str> = ds.iter().map(|d| d.package_name.as_str()).collect();
    assert_eq!(names, vec!["a", "c", "b"]);
    assert_eq!(ds[0].epoch, Major(1));
    assert_eq!(ds[1].epoch, Minor(3));
    assert_eq!(ds[2].epoch, Major(2));
    assert_eq!(ds[0].version, "1.4.2");
    assert_eq!(ds[2].version, "2.0.0");
    assert!(ds[0].is_local);
    assert!(!ds[1].is_local);
    assert!(!ds[2].is_local);
}

#[test]
fn paths_follow_first_reaching_edges() {
    let ds = collect_dependencies(&sample(), "/v/rust").unwrap();
    let steps = |i: usize| -> Vec<(usize, usize, String)> {
        ds[i].dependency_path.iter().map(|p| (p.from, p.edge, p.name.clone())).collect()
    };
    assert_eq!(steps(0), vec![(0, 0, "a".to_string())]);
    assert_eq!(steps(1), vec![(0, 1, "c".to_string())]);
    assert_eq!(steps(2), vec![(0, 0, "a".to_string()), (1, 0, "b".to_string())]);
}

#[test]
fn vendor_root_with_trailing_slash() {
    let ds = collect_dependencies(&sample(), "/v/").unwrap();
    assert!(ds[0].is_local);
    assert!(ds[1].is_local);
    assert!(!ds[2].is_local);
}

#[test]
fn version_without_epoch_is_an_error() {
    let mut g = sample();
    g.nodes[3] = node("c", "0.0.7", 0, 0, "/v/rust/c", vec![]);
    assert_eq!(collect_dependencies(&g, "/v/rust").unwrap_err(), 3);
    g.nodes[3] = node("c", "0.3.1", 0, 3, "/v/rust/c", vec![]);
    g.nodes[4] = node("d", "0.0.1", 0, 0, "/v/rust/d", vec![]);
    assert!(collect_dependencies(&g, "/v/rust").is_ok());
}

#[test]
fn lone_root_has_no_records() {
    let g = DepGraph { nodes: vec![node("chromium", "0.0.0", 0, 0, "/v/rust", vec![])], root: 0 };
    assert!(collect_dependencies(&g, "/v/rust").unwrap().is_empty());
}

#[test]
fn graph_checks() {
    assert!(check_graph(&sample()));
    let mut g = sample();
    g.root = 5;
    assert!(!check_graph(&g));
    let mut g = sample();
    g.nodes[2].deps.push(DepEdge { name: "x".to_string(), target: 9 });
    assert!(!check_graph(&g));
}

#[test]
fn package_in_the_vendor_directory_itself_is_local() {
    let g = DepGraph {
        nodes: vec![
            node("chromium", "0.1.0", 0, 1, "/elsewhere", vec![("a", 1)]),
            node("a", "3.0.0", 3, 0, "/v/rust", vec![]),
        ],
        root: 0,
    };
    let ds = collect_dependencies(&g, "/v/rust").unwrap();
    assert_eq!(ds.len(), 1);
    assert!(ds[0].is_local);
    assert_eq!(ds[0].epoch.to_string(), "v3");
}
