use forkd::manifest::{
    ChainLinkMeta, FileEntry, Manifest, MAX_SUPPORTED_PACK_VERSION, PACK_FORMAT_VERSION, PACK_FORMAT_VERSION_V1,
};
use forkd::pack::{pack, pack_at, pack_chain, PackError, PackPlan};
use forkd::path::join;
use forkd::relocate::{relocated_path, rewrite_snapshot_paths, RelocateError};
use forkd::snapshot::Snapshot;
use forkd::unpack::{
    bad_manifest, is_safe_pack_tag, unpack, verify_one, EntryAction, UnpackError, UnpackStep, VerifyError,
};
use std::collections::{BTreeMap, HashMap};

/// A disk in memory: the bytes of each file, and the metadata in each directory.
#[derive(Default)]
struct Disk {
    files: BTreeMap<String, Vec<u8>>,
    meta: HashMap<String, Snapshot>,
}

fn sha256(bytes: &[u8]) -> String {
    let mut h = forkd::digest::ContentHash::new();
    h.chunk(bytes);
    h.finish()
}

impl Disk {
    fn snapshot(&mut self, dir: &str, memory: u8, parent: Option<&str>, hash: Option<&str>) {
        self.files.insert(join(dir, "vmstate"), b"vmstate-bytes".to_vec());
        self.files.insert(join(dir, "memory.bin"), vec![memory; 4096]);
        let opt = |v: Option<&str>| v.map_or("null".to_string(), |t| format!("\"{t}\""));
        let json = format!(
            "{{\"vmstate\":\"{}\",\"memory\":\"{}\",\"volumes\":[],\"parent_tag\":{},\"parent_content_hash\":{}}}",
            join(dir, "vmstate"),
            join(dir, "memory.bin"),
            opt(parent),
            opt(hash)
        );
        self.files.insert(join(dir, "snapshot.json"), json.into_bytes());
        self.meta.insert(
            dir.to_string(),
            Snapshot {
                vmstate: join(dir, "vmstate"),
                memory: join(dir, "memory.bin"),
                volumes: Vec::new(),
                parent_tag: parent.map(String::from),
                parent_content_hash: hash.map(String::from),
            },
        );
    }

    fn describe(&self, path: &str) -> Result<(u64, String), String> {
        match self.files.get(path) {
            Some(bytes) => Ok((bytes.len() as u64, sha256(bytes))),
            None => Err(format!("open {path}: gone")),
        }
    }

    fn pack(&self, tag: &str, dir: &str) -> Result<PackPlan, PackError> {
        pack_at(
            tag,
            Some("smoke".to_string()),
            None,
            "2026-05-13T20:00:00Z".to_string(),
            "0.5.0".to_string(),
            dir,
            &|p: &str| self.meta.get(p).cloned(),
            &|p: &str| self.files.contains_key(p),
            &|p: &str| self.describe(p),
        )
    }

    /// Reads a pack made of a manifest and named contents.
    fn unpack(&mut self, entries: Vec<(String, Vec<u8>)>, m: &Manifest, dest: &str) -> Result<Manifest, String> {
        let mut u = unpack(dest);
        match u.on_entry("manifest.toml").map_err(|e| e.message())? {
            EntryAction::ReadManifest => u.on_manifest(m.clone()).map_err(|e| e.message())?,
            EntryAction::Extract { dest } => panic!("extracted the manifest to {dest}"),
        }
        for (name, bytes) in entries {
            match u.on_entry(&name).map_err(|e| e.message())? {
                EntryAction::ReadManifest => panic!("{name} is no manifest"),
                EntryAction::Extract { dest } => {
                    self.files.insert(dest, bytes);
                    u.extracted();
                }
            }
        }
        let (m, steps) = u.finish().map_err(|e| e.message())?;
        for step in steps {
            match step {
                UnpackStep::Verify { path, entry } => {
                    verify_one(&path, &entry, &|p: &str| self.describe(p).map(|d| d.1)).map_err(|e| e.message())?
                }
                UnpackStep::Relocate { dir } => {
                    let sj = join(&dir, "snapshot.json");
                    let raw = self.files.get(&sj).map(|b| String::from_utf8(b.clone()).unwrap());
                    let out = rewrite_snapshot_paths(&dir, raw.as_deref(), &|p: &str| self.files.contains_key(p));
                    if let Some(out) = out.unwrap() {
                        self.files.insert(sj, out.into_bytes());
                    }
                }
            }
        }
        Ok(m)
    }

    fn contents(&self, plan: &PackPlan) -> Vec<(String, Vec<u8>)> {
        plan.sources.iter().map(|s| (s.name.clone(), self.files[&s.path].clone())).collect()
    }
}

fn chain_fixture() -> Disk {
    let mut disk = Disk::default();
    disk.snapshot("/snap_root/py-base", 0xAA, None, None);
    let base_hash = sha256(&vec![0xAAu8; 4096]);
    disk.snapshot("/snap_root/py-numpy", 0xBB, Some("py-base"), Some(&base_hash));
    disk
}

#[test]
fn pack_format_versions_are_in_lockstep() {
    assert_eq!(PACK_FORMAT_VERSION, 2);
    assert_eq!(MAX_SUPPORTED_PACK_VERSION, 2);
    assert!(PACK_FORMAT_VERSION_V1 < PACK_FORMAT_VERSION);
}

#[test]
fn pack_emits_v1_for_base_snapshot() {
    let disk = chain_fixture();
    let manifest = disk.pack("py-base", "/snap_root/py-base").unwrap().manifest;
    assert_eq!(
        manifest.forkd_pack_version, PACK_FORMAT_VERSION_V1,
        "base snapshots must keep emitting v1 so older clients can still unpack them"
    );
    assert!(manifest.chain.is_empty());
    assert!(!manifest.files.is_empty());
    let names: Vec<_> = manifest.files.iter().map(|f| f.path.as_str()).collect();
    assert_eq!(names, vec!["snapshot.json", "vmstate", "memory.bin"]);
    assert_eq!(manifest.parent_tag, None);
    assert_eq!(manifest.description.as_deref(), Some("smoke"));
    assert_eq!(manifest.files[2].size, 4096);
    assert_eq!(manifest.files[2].sha256, sha256(&vec![0xAAu8; 4096]));
}

#[test]
fn pack_emits_v2_for_chained_snapshot() {
    let disk = chain_fixture();
    let manifest = disk.pack("py-numpy", "/snap_root/py-numpy").unwrap().manifest;
    assert_eq!(manifest.forkd_pack_version, 2);
    assert_eq!(manifest.chain.len(), 2);
    assert_eq!(manifest.chain[0].tag, "py-base");
    assert_eq!(manifest.chain[0].parent_tag, None);
    assert_eq!(manifest.chain[1].tag, "py-numpy");
    assert_eq!(manifest.chain[1].parent_tag, Some("py-base".to_string()));
    assert_eq!(manifest.parent_tag, Some("py-base".to_string()));
    assert!(manifest.files.is_empty(), "v2 manifests must keep top-level files empty");
    assert_eq!(manifest.chain[1].parent_content_hash, Some(sha256(&vec![0xAAu8; 4096])));
}

#[test]
fn pack_unpack_roundtrip() {
    let mut disk = Disk::default();
    disk.snapshot("src", 0, None, None);
    let plan = disk.pack("test/demo", "src").expect("pack");
    assert_eq!(plan.manifest.tag, "test/demo");
    let entries = disk.contents(&plan);
    let m2 = disk.unpack(entries, &plan.manifest, "dst").expect("unpack");
    assert_eq!(m2.tag, "test/demo");
    assert_eq!(disk.files["dst/vmstate"], b"vmstate-bytes");
    assert_eq!(disk.files["dst/memory.bin"].len(), 4096);
}

#[test]
fn pack_v2_then_unpack_recreates_all_chain_links() {
    let mut disk = chain_fixture();
    let plan = disk.pack("py-numpy", "/snap_root/py-numpy").unwrap();
    let entries = disk.contents(&plan);
    let unpacked = disk.unpack(entries, &plan.manifest, "/dst").unwrap();
    assert_eq!(unpacked.chain.len(), 2);
    assert!(disk.files.contains_key("/dst/py-base/memory.bin"));
    assert!(disk.files.contains_key("/dst/py-numpy/memory.bin"));
    assert_eq!(disk.files["/dst/py-base/memory.bin"], vec![0xAAu8; 4096]);
    assert_eq!(disk.files["/dst/py-numpy/memory.bin"], vec![0xBBu8; 4096]);
    assert_eq!(disk.files["/dst/py-numpy/vmstate"], b"vmstate-bytes");
    // The metadata keeps its chain edges, and points at where it now lies.
    let head: serde_json::Value = serde_json::from_slice(&disk.files["/dst/py-numpy/snapshot.json"]).unwrap();
    assert_eq!(head["parent_tag"].as_str(), Some("py-base"));
    assert_eq!(head["parent_content_hash"].as_str(), Some(sha256(&vec![0xAAu8; 4096]).as_str()));
    assert_eq!(head["memory"].as_str(), Some("/dst/py-numpy/memory.bin"));
    assert_eq!(head["vmstate"].as_str(), Some("/dst/py-numpy/vmstate"));
    let base: serde_json::Value = serde_json::from_slice(&disk.files["/dst/py-base/snapshot.json"]).unwrap();
    assert!(base["parent_tag"].is_null());
}

#[test]
fn chain_from_another_root_comes_back() {
    let mut disk = Disk::default();
    disk.snapshot("/elsewhere/head", 1, Some("base"), Some("h"));
    disk.snapshot("/roots/base", 2, None, None);
    let plan = pack_chain(
        "o/head",
        None,
        None,
        "0".to_string(),
        "/roots",
        "/elsewhere/head",
        &|p: &str| disk.meta.get(p).cloned(),
        &|p: &str| disk.files.contains_key(p),
        &|p: &str| disk.describe(p),
    )
    .unwrap();
    let entries = disk.contents(&plan);
    let m = disk.unpack(entries, &plan.manifest, "d").unwrap();
    assert_eq!(format!("{m:?}"), format!("{:?}", plan.manifest));
    assert_eq!(disk.files["d/base/memory.bin"], vec![2u8; 4096]);
    assert_eq!(disk.files["d/head/memory.bin"], vec![1u8; 4096]);
}

#[test]
fn unpack_rejects_v2_pack_with_unsafe_chain_tag() {
    let evil = Manifest {
        forkd_pack_version: 2,
        tag: "innocent".into(),
        description: None,
        base_image: None,
        created_at: "now".into(),
        forkd_version: "0".into(),
        parent_tag: None,
        files: Vec::new(),
        chain: vec![ChainLinkMeta {
            tag: "../etc".into(),
            parent_tag: None,
            parent_content_hash: None,
            files: vec![],
        }],
    };
    let err = unpack("dst").on_manifest(evil).expect_err("must reject unsafe chain tag");
    let msg = err.message();
    assert!(msg.contains("unsafe tag"), "error must name the unsafe-tag refusal: {msg}");
    assert_eq!(msg, "v2 pack chain link declares unsafe tag \"../etc\" — refusing to extract");
}

fn manifest(version: u32, tags: &[&str]) -> Manifest {
    Manifest {
        forkd_pack_version: version,
        tag: "t".into(),
        description: None,
        base_image: None,
        created_at: "now".into(),
        forkd_version: "0".into(),
        parent_tag: None,
        files: vec![FileEntry { path: "memory.bin".into(), size: 1, sha256: "h".into() }],
        chain: tags
            .iter()
            .map(|t| ChainLinkMeta {
                tag: t.to_string(),
                parent_tag: None,
                parent_content_hash: None,
                files: vec![FileEntry { path: "vmstate".into(), size: 1, sha256: "v".into() }],
            })
            .collect(),
    }
}

#[test]
fn newer_formats_are_refused() {
    let err = unpack("d").on_manifest(manifest(3, &["../x"])).unwrap_err();
    assert!(matches!(err, UnpackError::TooNew { version: 3 }));
    assert_eq!(
        err.message(),
        "pack format version 3 is newer than this forkd supports (max 2). \
         Upgrade forkd or repack with an older version."
    );
    for version in 0..=2 {
        assert!(unpack("d").on_manifest(manifest(version, &["a", "B-_9"])).is_ok());
    }
}

#[test]
fn escaping_entries_are_refused() {
    let u = unpack("/d");
    for name in ["../x", "a/../../x", "/etc/passwd", "a..b", "..", "x/.."] {
        let err = u.on_entry(name).unwrap_err();
        assert_eq!(err.message(), format!("malformed pack: refusing entry with traversal path: {name}"));
    }
    for (name, dest) in [("a/b", "/d/a/b"), ("x", "/d/x"), (".", "/d/."), ("", "/d/"), ("a.b.c", "/d/a.b.c")] {
        assert!(matches!(u.on_entry(name), Ok(EntryAction::Extract { dest: d }) if d == dest));
    }
    assert!(matches!(u.on_entry("manifest.toml"), Ok(EntryAction::ReadManifest)));
    assert!(matches!(u.on_entry("a/manifest.toml"), Ok(EntryAction::Extract { .. })));
}

#[test]
fn pack_without_manifest_is_refused() {
    let mut u = unpack("d");
    u.extracted();
    u.extracted();
    let err = u.finish().unwrap_err();
    assert_eq!(
        err.message(),
        "pack is missing manifest.toml — not a valid forkd snapshot pack (extracted 2 entries before noticing)"
    );
}

#[test]
fn files_are_verified_before_metadata_is_changed() {
    let mut u = unpack("/d");
    u.on_manifest(manifest(1, &[])).unwrap();
    u.on_manifest(manifest(2, &["a", "b"])).unwrap();
    let (_, steps) = u.finish().unwrap();
    let told: Vec<String> = steps
        .iter()
        .map(|s| match s {
            UnpackStep::Verify { path, entry } => format!("verify {path} {}", entry.sha256),
            UnpackStep::Relocate { dir } => format!("relocate {dir}"),
        })
        .collect();
    assert_eq!(
        told,
        vec!["verify /d/a/vmstate v", "relocate /d/a", "verify /d/b/vmstate v", "relocate /d/b"]
    );
    let mut u = unpack("/d");
    u.on_manifest(manifest(1, &[])).unwrap();
    let (_, steps) = u.finish().unwrap();
    assert_eq!(steps.len(), 2);
    assert!(matches!(&steps[0], UnpackStep::Verify { path, .. } if path == "/d/memory.bin"));
    assert!(matches!(&steps[1], UnpackStep::Relocate { dir } if dir == "/d"));
}

#[test]
fn tampered_files_are_refused() {
    let entry = FileEntry { path: "memory.bin".into(), size: 1, sha256: "aa".into() };
    assert!(verify_one("/d/memory.bin", &entry, &|_: &str| Ok("aa".to_string())).is_ok());
    let err = verify_one("/d/memory.bin", &entry, &|_: &str| Ok("bb".to_string())).unwrap_err();
    assert!(matches!(err, VerifyError::Mismatch { .. }));
    assert_eq!(
        err.message(),
        "integrity check failed for memory.bin: file sha256=bb but manifest says aa. \
         The pack is corrupted (truncated download? bit rot? tampered?)."
    );
    let err = verify_one("/d/memory.bin", &entry, &|_: &str| Err("gone".to_string())).unwrap_err();
    assert_eq!(err.message(), "hash /d/memory.bin for integrity check (declared in manifest): gone");
}

#[test]
fn altered_and_incomplete_chains_are_refused() {
    let disk = chain_fixture();
    let plan = disk.pack("py-numpy", "/snap_root/py-numpy").unwrap();
    for i in 0..plan.sources.len() {
        let mut altered = disk.contents(&plan);
        altered[i].1.push(b' ');
        let err = Disk::default().unpack(altered, &plan.manifest, "/dst").unwrap_err();
        assert!(err.starts_with("integrity check failed for "), "{err}");
        let mut incomplete = disk.contents(&plan);
        incomplete.remove(i);
        let err = Disk::default().unpack(incomplete, &plan.manifest, "/dst").unwrap_err();
        assert!(err.starts_with(&format!("hash /dst/{} for integrity check", plan.sources[i].name)), "{err}");
    }
    assert!(Disk::default().unpack(disk.contents(&plan), &plan.manifest, "/dst").is_ok());
}

#[test]
fn unreadable_manifests_are_described() {
    let body = format!("é\"{}", "x".repeat(60));
    let err = bad_manifest(&body, "expected =".to_string());
    assert_eq!(
        err.message(),
        format!(
            "parse manifest.toml inside the pack (it is {} bytes, starts with {:?}): expected =",
            body.len(),
            body.chars().take(40).collect::<String>()
        )
    );
}

#[test]
fn safe_tags() {
    for tag in ["a", "py-base", "A_9-z", &"x".repeat(64)] {
        assert!(is_safe_pack_tag(tag), "{tag}");
    }
    for tag in ["", "../etc", "a/b", "a b", "é", "a.b", "python-numpy+pandas", &"x".repeat(65)] {
        assert!(!is_safe_pack_tag(tag), "{tag}");
    }
}

#[test]
fn incomplete_snapshots_are_not_packed() {
    let mut disk = chain_fixture();
    disk.files.remove("/snap_root/py-base/memory.bin");
    let err = disk.pack("t", "/snap_root/py-base").unwrap_err();
    assert_eq!(err.message(), "snapshot directory /snap_root/py-base has no `memory.bin`; nothing to pack");
    let err = disk.pack("t", "/snap_root/py-numpy").unwrap_err();
    assert_eq!(
        err.message(),
        "chain link `py-base` at /snap_root/py-base has no memory.bin — pack would produce a broken bundle"
    );
    disk.files.remove("/snap_root/py-base/vmstate");
    let err = disk.pack("t", "/snap_root/py-base").unwrap_err();
    assert_eq!(err.message(), "snapshot directory /snap_root/py-base has no `vmstate`; nothing to pack");
    let err = disk.pack("t", "/snap_root/py-numpy").unwrap_err();
    assert_eq!(
        err.message(),
        "chain for `t` references parent `py-base` at /snap_root/py-base which doesn't exist locally. \
         Pack failed — pull or rebuild the parent first."
    );
    disk.files.remove("/snap_root/py-numpy/vmstate");
    let err = disk.pack("t", "/snap_root/py-numpy").unwrap_err();
    assert_eq!(err.message(), "snapshot directory /snap_root/py-numpy has no `vmstate`; nothing to pack");
}

#[test]
fn broken_chains_are_not_packed() {
    let mut disk = chain_fixture();
    disk.meta.remove("/snap_root/py-base");
    let err = disk.pack("o/t", "/snap_root/py-numpy").unwrap_err();
    assert_eq!(err.message(), "parent `py-base` has no snapshot.json at /snap_root/py-base");

    disk.snapshot("/snap_root/py-base", 1, Some("py-numpy"), None);
    let err = disk.pack("o/t", "/snap_root/py-numpy").unwrap_err();
    assert_eq!(err.message(), "chain for `o/t` reaches `py-numpy` twice — cycle");

    disk.snapshot("/", 1, Some("x"), None);
    let err = disk.pack("t", "/").unwrap_err();
    assert_eq!(err.message(), "snap_dir / has no parent — cannot resolve chain ancestors");

    disk.snapshot("a/..", 1, Some("x"), None);
    let err = disk.pack("t", "a/..").unwrap_err();
    assert_eq!(err.message(), "snap_dir a/.. has no usable file name");
}

#[test]
fn unreadable_files_are_not_packed() {
    let disk = chain_fixture();
    let fail = |_: &str| Err("stat: no".to_string());
    for dir in ["/snap_root/py-base", "/snap_root/py-numpy"] {
        let err = pack_at(
            "t",
            None,
            None,
            "now".to_string(),
            "0".to_string(),
            dir,
            &|p: &str| disk.meta.get(p).cloned(),
            &|p: &str| disk.files.contains_key(p),
            &fail,
        )
        .unwrap_err();
        assert_eq!(err.message(), "stat: no");
    }
    let err = pack_chain(
        "t",
        None,
        None,
        "0".to_string(),
        "/r",
        "/r/head",
        &|_: &str| None,
        &|_: &str| true,
        &fail,
    )
    .unwrap_err();
    assert_eq!(err.message(), "head /r/head has no snapshot.json — cannot pack chain");
}

#[test]
fn chain_goes_by_directory_names() {
    let disk = chain_fixture();
    let plan = disk.pack("deeplethe/py-numpy", "/snap_root/py-numpy").unwrap();
    assert_eq!(plan.manifest.tag, "py-numpy");
    assert_eq!(plan.manifest.chain[1].tag, "py-numpy");
    let base = disk.pack("deeplethe/py-base", "/snap_root/py-base").unwrap();
    assert_eq!(base.manifest.tag, "deeplethe/py-base");
    let sources: Vec<_> = plan.sources.iter().map(|s| (s.name.as_str(), s.path.as_str())).collect();
    assert_eq!(
        sources,
        vec![
            ("py-base/snapshot.json", "/snap_root/py-base/snapshot.json"),
            ("py-base/vmstate", "/snap_root/py-base/vmstate"),
            ("py-base/memory.bin", "/snap_root/py-base/memory.bin"),
            ("py-numpy/snapshot.json", "/snap_root/py-numpy/snapshot.json"),
            ("py-numpy/vmstate", "/snap_root/py-numpy/vmstate"),
            ("py-numpy/memory.bin", "/snap_root/py-numpy/memory.bin"),
        ]
    );
}

#[test]
fn packing_twice_gives_the_same() {
    let disk = chain_fixture();
    for dir in ["/snap_root/py-base", "/snap_root/py-numpy"] {
        let a = disk.pack("t", dir).unwrap();
        let b = disk.pack("t", dir).unwrap();
        assert_eq!(format!("{a:?}"), format!("{b:?}"));
        for links in a.manifest.chain.windows(2) {
            assert_eq!(links[1].parent_tag.as_deref(), Some(links[0].tag.as_str()));
        }
    }
}

#[test]
fn packs_are_stamped_by_the_clock() {
    let disk = chain_fixture();
    let plan = pack(
        "t",
        None,
        Some("python:3.12-slim".to_string()),
        "0.5.0".to_string(),
        "/snap_root/py-base",
        &|p: &str| disk.meta.get(p).cloned(),
        &|p: &str| disk.files.contains_key(p),
        &|p: &str| disk.describe(p),
    )
    .unwrap();
    assert_eq!(plan.manifest.created_at.len(), 20);
    assert!(plan.manifest.created_at.as_str() > "2020");
    assert_eq!(plan.manifest.base_image.as_deref(), Some("python:3.12-slim"));
    assert_eq!(plan.manifest.forkd_version, "0.5.0");
}

#[test]
fn rewrite_snapshot_paths_relocates_vmstate_and_memory() {
    let raw = r#"{
  "vmstate": "/home/packer/.local/share/forkd/snapshots/t/vmstate",
  "memory": "/home/packer/.local/share/forkd/snapshots/t/memory.bin",
  "volumes": [{"host_path": "/data/vol.ext4"}],
  "some_future_field": 42
}"#;
    let there = |p: &str| p == "/tmp/x/vmstate" || p == "/tmp/x/memory.bin";
    let out = rewrite_snapshot_paths("/tmp/x", Some(raw), &there).unwrap().unwrap();
    let v: serde_json::Value = serde_json::from_str(&out).unwrap();
    assert_eq!(v["vmstate"].as_str().unwrap(), "/tmp/x/vmstate");
    assert_eq!(v["memory"].as_str().unwrap(), "/tmp/x/memory.bin");
    assert_eq!(v["volumes"][0]["host_path"].as_str().unwrap(), "/data/vol.ext4");
    assert_eq!(v["some_future_field"].as_i64().unwrap(), 42);

    let again = rewrite_snapshot_paths("/tmp/x", Some(&out), &there).unwrap().unwrap();
    assert_eq!(out, again);
}

#[test]
fn rewrite_snapshot_paths_noop_when_files_absent() {
    let nothing = |_: &str| false;
    assert!(rewrite_snapshot_paths("/tmp/x", None, &nothing).unwrap().is_none());

    let raw = r#"{"vmstate": "/elsewhere/vmstate", "memory": "/elsewhere/memory.bin"}"#;
    let out = rewrite_snapshot_paths("/tmp/x", Some(raw), &nothing).unwrap().unwrap();
    let v: serde_json::Value = serde_json::from_str(&out).unwrap();
    assert_eq!(v["vmstate"].as_str().unwrap(), "/elsewhere/vmstate");
    assert_eq!(v["memory"].as_str().unwrap(), "/elsewhere/memory.bin");
}

#[test]
fn paths_move_only_to_files_that_are_there() {
    let there = |p: &str| p == "/new/vmstate";
    assert_eq!(relocated_path("/new", "/old/vmstate", &there).as_deref(), Some("/new/vmstate"));
    assert_eq!(relocated_path("/new/", "vmstate", &there).as_deref(), Some("/new/vmstate"));
    assert_eq!(relocated_path("/new", "/new/vmstate", &there), None);
    assert_eq!(relocated_path("/new", "/old/memory.bin", &there), None);
    assert_eq!(relocated_path("/new", "/old/..", &|_: &str| true), None);
    assert_eq!(relocated_path("/new", "", &|_: &str| true), None);
}

#[test]
fn other_metadata_is_only_laid_out_anew() {
    let all = |_: &str| true;
    let rewrite = |raw: &str| rewrite_snapshot_paths("d", Some(raw), &all).unwrap().unwrap();
    assert_eq!(rewrite("[1,2]"), "[\n  1,\n  2\n]");
    assert_eq!(rewrite("{\"vmstate\":3,\"memory\":\"..\"}"), "{\n  \"memory\": \"..\",\n  \"vmstate\": 3\n}");
    assert_eq!(rewrite("{\"memory\":\"a/m\"}"), "{\n  \"memory\": \"d/m\"\n}");
    let deep = format!("{{\"x\":{}1.5e300{}}}", "[".repeat(126), "]".repeat(126));
    let out = rewrite(&deep);
    assert_eq!(rewrite(&out), out);
}

#[test]
fn rewriting_odd_paths_twice_changes_nothing() {
    let all = |_: &str| true;
    let rewrite = |raw: &str| rewrite_snapshot_paths("d$", Some(raw), &all).unwrap().unwrap();
    let out = rewrite(r#"{"memory":"/a$b/c\\u00e9","vmstate":"\u4e2d/\"v\"","rate":0.1}"#);
    assert_eq!(
        out,
        "{\n  \"memory\": \"d$/c\\\\u00e9\",\n  \"rate\": 0.1,\n  \"vmstate\": \"d$/\\\"v\\\"\"\n}"
    );
    assert_eq!(rewrite(&out), out);
}

#[test]
fn marked_json_text_is_written_without_a_claim_to_be_read() {
    let raw = "{\"a\":1,\"$serde_json::private::RawValue\":\"2\"}";
    let out = rewrite_snapshot_paths("d", Some(raw), &|_: &str| true).unwrap().unwrap();
    assert_eq!(out, "{\n  \"$serde_json::private::RawValue\": \"2\",\n  \"a\": 1\n}");
}

#[test]
fn metadata_that_is_no_json_is_refused() {
    let err = rewrite_snapshot_paths("/d", Some("{"), &|_: &str| true).unwrap_err();
    match err {
        RelocateError::Unparsable { path, error } => {
            assert_eq!(path, "/d/snapshot.json");
            assert!(error.is_eof());
        }
        other => panic!("{other:?}"),
    }
    let too_deep = format!("{}{}", "[".repeat(128), "]".repeat(128));
    assert!(rewrite_snapshot_paths("/d", Some(&too_deep), &|_: &str| true).is_err());
}
