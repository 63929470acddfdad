use forkd::chain::{
    resolve_chain, verify_parent_hashes, ChainError, ParentHashError, MAX_CHAIN_DEPTH,
};
use forkd::digest::ContentHash;
use forkd::snapshot::{Snapshot, VolumeSpec};
use std::collections::HashMap;

fn snap_at(memory: &str, parent: Option<&str>, hash: Option<&str>) -> Snapshot {
    Snapshot {
        vmstate: "/snaps/vmstate".to_string(),
        memory: memory.to_string(),
        volumes: Vec::<VolumeSpec>::new(),
        parent_tag: parent.map(String::from),
        parent_content_hash: hash.map(String::from),
    }
}

fn find(tags: &HashMap<String, Snapshot>, tag: &str) -> Result<Snapshot, String> {
    tags.get(tag).cloned().ok_or_else(|| "missing".to_string())
}

fn sha256(bytes: &[u8]) -> String {
    let mut hash = ContentHash::new();
    hash.chunk(bytes);
    hash.finish()
}

#[test]
fn resolve_chain_base_returns_singleton() {
    let mut tags = HashMap::new();
    tags.insert("base".to_string(), snap_at("base.bin", None, None));

    let chain = resolve_chain("base", |t: &str| find(&tags, t)).unwrap();
    assert_eq!(chain.len(), 1);
    assert_eq!(chain[0].0, "base");
}

#[test]
fn resolve_chain_depth_3_orders_base_first() {
    let mut tags = HashMap::new();
    tags.insert("base".to_string(), snap_at("base.bin", None, None));
    tags.insert("pandas".to_string(), snap_at("diff.bin", Some("base"), Some("h-base")));
    tags.insert("sklearn".to_string(), snap_at("diff.bin", Some("pandas"), Some("h-pandas")));

    let chain = resolve_chain("sklearn", |t: &str| find(&tags, t)).unwrap();
    let tags_in_order: Vec<_> = chain.iter().map(|(t, _)| t.clone()).collect();
    assert_eq!(tags_in_order, vec!["base", "pandas", "sklearn"]);
    assert_eq!(chain[2].1.parent_content_hash, Some("h-pandas".to_string()));
}

#[test]
fn resolve_chain_missing_parent_actionable_error() {
    let mut tags = HashMap::new();
    tags.insert("pandas".to_string(), snap_at("diff.bin", Some("nonexistent-base"), Some("h")));

    let err = resolve_chain("pandas", |t: &str| find(&tags, t)).unwrap_err();
    let msg = err.message();
    assert!(
        msg.contains("nonexistent-base") && msg.contains("pandas"),
        "error must name both the missing parent and the dependent: {msg}"
    );
    assert_eq!(msg, "resolve chain link `nonexistent-base` (parent of `pandas`): missing");
}

#[test]
fn resolve_chain_cycle_detected() {
    let mut tags = HashMap::new();
    tags.insert("a".to_string(), snap_at("diff.bin", Some("b"), Some("h")));
    tags.insert("b".to_string(), snap_at("diff.bin", Some("a"), Some("h")));

    let err = resolve_chain("a", |t: &str| find(&tags, t)).unwrap_err();
    let msg = err.message();
    assert!(msg.contains("cycle"), "cycle error must mention 'cycle': {msg}");
    assert_eq!(
        msg,
        "snapshot chain has a cycle: `a` is reachable from itself via parent_tag"
    );
}

#[test]
fn missing_head_depends_on_itself() {
    let tags = HashMap::new();
    let err = resolve_chain("ghost", |t: &str| find(&tags, t)).unwrap_err();
    assert_eq!(err.message(), "resolve chain link `ghost` (parent of `ghost`): missing");
}

fn line(n: usize) -> HashMap<String, Snapshot> {
    let mut tags = HashMap::new();
    for i in 0..n {
        let parent = if i == 0 { None } else { Some(format!("t{}", i - 1)) };
        tags.insert(format!("t{i}"), snap_at("m", parent.as_deref(), Some("h")));
    }
    tags
}

#[test]
fn longest_chain_is_accepted_and_a_longer_one_is_not() {
    let tags = line(MAX_CHAIN_DEPTH + 2);
    let head = format!("t{MAX_CHAIN_DEPTH}");
    let chain = resolve_chain(&head, |t: &str| find(&tags, t)).unwrap();
    assert_eq!(chain.len(), 33);

    let beyond = format!("t{}", MAX_CHAIN_DEPTH + 1);
    let err = resolve_chain(&beyond, |t: &str| find(&tags, t)).unwrap_err();
    assert!(matches!(&err, ChainError::TooDeep { head } if *head == beyond));
    assert_eq!(
        err.message(),
        "snapshot chain for `t33` exceeds MAX_CHAIN_DEPTH=32 — use `forkd snapshot compact` to flatten"
    );
}

#[test]
fn resolving_twice_gives_the_same() {
    let tags = line(5);
    let a = resolve_chain("t4", |t: &str| find(&tags, t)).unwrap();
    let b = resolve_chain("t4", |t: &str| find(&tags, t)).unwrap();
    let names = |c: &[(String, Snapshot)]| c.iter().map(|l| l.0.clone()).collect::<Vec<_>>();
    assert_eq!(names(&a), names(&b));
    assert_eq!(a[0].1.parent_tag, None);
    for i in 1..a.len() {
        assert_eq!(a[i].1.parent_tag.as_deref(), Some(a[i - 1].0.as_str()));
    }
}

#[test]
fn verify_parent_hash_mismatch_actionable_error() {
    let content = vec![0xAAu8; 16 * 1024];
    let bogus = "deadbeef".repeat(8);
    let chain = vec![
        ("base".to_string(), snap_at("base.bin", None, None)),
        ("pandas".to_string(), snap_at("diff.bin", Some("base"), Some(&bogus))),
    ];
    let err = verify_parent_hashes(&chain, |_: &str| Ok(sha256(&content))).unwrap_err();
    let msg = err.message();
    assert!(
        msg.contains("pandas") && msg.contains("base") && msg.contains("rebuild"),
        "hash-mismatch error must name child, parent, and a remediation: {msg}"
    );
    let actual = sha256(&content);
    assert_eq!(
        msg,
        format!(
            "chain `pandas` references parent `base` with content `deadbeefdead…`, but parent now has \
             content `{}…`; rebuild with `forkd snapshot diff --from base`",
            &actual[..12]
        )
    );
}

#[test]
fn verify_parent_hash_match_passes() {
    let content = vec![0xAAu8; 16 * 1024];
    let actual = sha256(&content);
    let chain = vec![
        ("base".to_string(), snap_at("base.bin", None, None)),
        ("pandas".to_string(), snap_at("diff.bin", Some("base"), Some(&actual))),
    ];
    let hash = |p: &str| {
        assert_eq!(p, "base.bin");
        Ok(sha256(&content))
    };
    verify_parent_hashes(&chain, hash).expect("hash match should pass");
}

#[test]
fn link_without_recorded_hash_is_refused() {
    let chain = vec![
        ("base".to_string(), snap_at("base.bin", None, None)),
        ("pandas".to_string(), snap_at("diff.bin", Some("base"), None)),
    ];
    let err = verify_parent_hashes(&chain, |_: &str| Ok("x".to_string())).unwrap_err();
    assert!(matches!(err, ParentHashError::Unpinned { .. }));
    assert_eq!(
        err.message(),
        "chained snapshot `pandas` has parent_tag=`base` but no parent_content_hash; \
         rebuild this snapshot — chains created before v0.5 GA aren't supported"
    );
}

#[test]
fn unreadable_parent_memory_is_reported() {
    let chain = vec![
        ("base".to_string(), snap_at("/s/base.bin", None, None)),
        ("pandas".to_string(), snap_at("diff.bin", Some("base"), Some("h"))),
    ];
    let err = verify_parent_hashes(&chain, |_: &str| Err("gone".to_string())).unwrap_err();
    assert_eq!(
        err.message(),
        "hash parent memory for chain verification: `base` at /s/base.bin: gone"
    );
}

#[test]
fn short_chains_have_nothing_to_verify() {
    let never = |_: &str| -> Result<String, String> { panic!("nothing is to be hashed") };
    let empty: Vec<(String, Snapshot)> = Vec::new();
    assert!(verify_parent_hashes(&empty, never).is_ok());
    let base = vec![("base".to_string(), snap_at("base.bin", None, None))];
    assert!(verify_parent_hashes(&base, never).is_ok());
}

#[test]
fn hashes_are_cut_at_whole_characters() {
    let error = ParentHashError::Mismatch {
        child: "c".to_string(),
        parent: "p".to_string(),
        recorded: "ab".to_string(),
        actual: "0123456789aé9".to_string(),
    };
    assert_eq!(
        error.message(),
        "chain `c` references parent `p` with content `ab…`, but parent now has content \
         `0123456789a…`; rebuild with `forkd snapshot diff --from p`"
    );
}
