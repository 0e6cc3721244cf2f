use gnrt::epoch::Epoch;
use gnrt::epoch::Epoch::{Major, Minor};
use gnrt::extract::PathEdge;
use gnrt::reconcile::{reconcile, CrateSet, ThirdPartyCrate, ThirdPartyDep};

fn krate(name: &str, epoch: Epoch) -> ThirdPartyCrate {
    ThirdPartyCrate { name: name.to_string(), epoch }
}

fn dep(name: &str, epoch: Epoch, version: &str, is_local: bool) -> ThirdPartyDep {
    ThirdPartyDep {
        package_name: name.to_string(),
        epoch,
        version: version.to_string(),
        is_local,
        dependency_path: vec![PathEdge { from: 0, edge: 0, name: name.to_string() }],
    }
}

#[test]
fn missing_and_unused() {
    let set = CrateSet::new(vec![krate("foo", Major(1)), krate("bar", Minor(2))]).unwrap();
    let deps = vec![dep("foo", Major(1), "1.0.0", true), dep("baz", Major(1), "1.0.0", true)];
    let r = reconcile(&set, &deps);
    assert_eq!(r.missing, vec![1]);
    assert_eq!(deps[r.missing[0]].package_name, "baz");
    assert_eq!(deps[r.missing[0]].epoch.to_string(), "v1");
    assert_eq!(r.unused, vec![1]);
    assert_eq!(set.crates()[r.unused[0]], krate("bar", Minor(2)));
    assert_eq!(set.crates()[r.unused[0]].epoch.to_string(), "v0_2");
    assert!(r.mismatched.is_empty());
}

#[test]
fn upstream_resolution_is_a_mismatch() {
    let set = CrateSet::new(vec![krate("foo", Major(1))]).unwrap();
    let deps = vec![dep("foo", Major(1), "1.2.5", false)];
    let r = reconcile(&set, &deps);
    assert_eq!(r.mismatched, vec![0]);
    let d = &deps[r.mismatched[0]];
    assert_eq!(d.package_name, "foo");
    assert_eq!(d.epoch.to_string(), "v1");
    assert_eq!(d.version, "1.2.5");
    assert!(r.missing.is_empty());
    assert!(r.unused.is_empty());
}

#[test]
fn duplicate_vendored_identity_is_refused() {
    assert!(CrateSet::new(vec![krate("foo", Major(1)), krate("foo", Major(1))]).is_none());
    assert!(CrateSet::new(vec![krate("foo", Major(1)), krate("foo", Major(2))]).is_some());
    assert!(CrateSet::new(vec![krate("foo", Major(1)), krate("foo", Minor(1))]).is_some());
    assert!(CrateSet::new(vec![]).is_some());
}

#[test]
fn same_name_other_epoch_is_another_unit() {
    let set = CrateSet::new(vec![krate("foo", Major(1)), krate("foo", Major(2))]).unwrap();
    let deps = vec![dep("foo", Major(2), "2.0.1", true), dep("foo", Minor(3), "0.3.0", true)];
    let r = reconcile(&set, &deps);
    assert_eq!(r.unused, vec![0]);
    assert_eq!(r.missing, vec![1]);
    assert!(r.mismatched.is_empty());
}

#[test]
fn repeated_missing_identity_is_listed_once() {
    let set = CrateSet::new(vec![krate("foo", Major(1))]).unwrap();
    let deps = vec![
        dep("baz", Major(1), "1.0.0", true),
        dep("foo", Major(1), "1.0.0", true),
        dep("baz", Major(1), "1.0.1", false),
    ];
    let r = reconcile(&set, &deps);
    assert_eq!(r.missing, vec![0]);
    assert!(r.unused.is_empty());
    assert_eq!(r.mismatched, vec![2]);
}

#[test]
fn empty_inputs() {
    let set = CrateSet::new(vec![]).unwrap();
    let r = reconcile(&set, &vec![]);
    assert!(r.missing.is_empty() && r.unused.is_empty() && r.mismatched.is_empty());
    let set = CrateSet::new(vec![krate("a", Major(1)), krate("b", Minor(1))]).unwrap();
    let r = reconcile(&set, &vec![]);
    assert_eq!(r.unused, vec![0, 1]);
    let set = CrateSet::new(vec![]).unwrap();
    let deps = vec![dep("a", Major(1), "1.0.0", false), dep("b", Minor(1), "0.1.0", true)];
    let r = reconcile(&set, &deps);
    assert_eq!(r.missing, vec![0, 1]);
    assert_eq!(r.mismatched, vec![0]);
}

#[test]
fn reconciling_twice_gives_the_same_result() {
    let set = CrateSet::new(vec![krate("foo", Major(1)), krate("bar", Minor(2)), krate("qux", Major(3))])
        .unwrap();
    let deps = vec![
        dep("foo", Major(1), "1.4.0", false),
        dep("baz", Major(1), "1.0.0", true),
        dep("qux", Major(3), "3.1.0", true),
    ];
    let a = reconcile(&set, &deps);
    let b = reconcile(&set, &deps);
    assert_eq!(a.missing, b.missing);
    assert_eq!(a.unused, b.unused);
    assert_eq!(a.mismatched, b.mismatched);
    assert_eq!(a.missing, vec![1]);
    assert_eq!(a.unused, vec![1]);
    assert_eq!(a.mismatched, vec![0]);
}

#[test]
fn unused_and_missing_split_the_difference() {
    let vendored = vec![krate("a", Major(1)), krate("b", Major(1)), krate("c", Minor(4))];
    let set = CrateSet::new(vendored.clone()).unwrap();
    let deps = vec![
        dep("b", Major(1), "1.0.0", true),
        dep("d", Major(2), "2.0.0", true),
        dep("c", Minor(5), "0.5.0", true),
    ];
    let r = reconcile(&set, &deps);
    let unused: Vec<String> = r.unused.iter().map(|&i| vendored[i].name.clone()).collect();
    let missing: Vec<String> = r.missing.iter().map(|&j| deps[j].package_name.clone()).collect();
    assert_eq!(unused, vec!["a".to_string(), "c".to_string()]);
    assert_eq!(missing, vec!["d".to_string(), "c".to_string()]);
}
