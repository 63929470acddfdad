use forkd::assembly::{
    assemble_chain_memory, clone_outcome, AssembleAction, AssembleError, CloneOutcome,
};
use forkd::snapshot::Snapshot;
use std::collections::HashMap;

fn link(tag: &str, memory: &str, parent: Option<&str>) -> (String, Snapshot) {
    (
        tag.to_string(),
        Snapshot {
            vmstate: "vmstate".to_string(),
            memory: memory.to_string(),
            volumes: Vec::new(),
            parent_tag: parent.map(String::from),
            parent_content_hash: None,
        },
    )
}

/// Files in memory: `None` is a hole.
fn assemble(
    files: &mut HashMap<String, Vec<Option<u8>>>,
    chain: &[(String, Snapshot)],
    out: &str,
) -> Result<u64, AssembleError> {
    let mut assembly = assemble_chain_memory(chain, out, files.contains_key(out))?;
    loop {
        match assembly.next_action() {
            AssembleAction::CopyBase { src, dst } => {
                let content = files[&src].clone();
                assembly.taken(content.len() as u64);
                files.insert(dst, content);
            }
            AssembleAction::ApplyDiff { src, dst } => {
                let Some(diff) = files.get(&src).cloned() else {
                    return Err(assembly.failed("no such file".to_string()));
                };
                let mut copied = 0;
                let target = files.get_mut(&dst).unwrap();
                for (i, b) in diff.iter().enumerate() {
                    if b.is_some() {
                        target[i] = *b;
                        copied += 1;
                    }
                }
                assembly.taken(copied);
            }
            AssembleAction::Done { total } => return Ok(total),
        }
    }
}

fn base_and_diff() -> HashMap<String, Vec<Option<u8>>> {
    let mut files = HashMap::new();
    files.insert("base.bin".to_string(), vec![Some(0xAA); 16 * 1024]);
    let mut diff = vec![None; 16 * 1024];
    for b in diff.iter_mut().take(8192).skip(4096) {
        *b = Some(0xBB);
    }
    files.insert("diff.bin".to_string(), diff);
    files
}

#[test]
fn assemble_chain_memory_produces_correct_bytes() {
    let mut files = base_and_diff();
    let chain = vec![link("base", "base.bin", None), link("pandas", "diff.bin", Some("base"))];
    let total = assemble(&mut files, &chain, "assembled.bin").unwrap();
    assert!(total >= 16 * 1024, "total reported {total} must include at least the base bytes");
    assert_eq!(total, 16 * 1024 + 4096);

    let bytes = &files["assembled.bin"];
    assert_eq!(bytes.len(), 16 * 1024);
    assert!(bytes[0..4096].iter().all(|&b| b == Some(0xAA)));
    assert!(bytes[4096..8192].iter().all(|&b| b == Some(0xBB)));
    assert!(bytes[8192..].iter().all(|&b| b == Some(0xAA)));
}

#[test]
fn assemble_chain_memory_refuses_to_clobber_existing() {
    let mut files = base_and_diff();
    files.insert("already-here.bin".to_string(), vec![Some(7)]);
    let chain = vec![link("base", "base.bin", None)];
    let err = assemble(&mut files, &chain, "already-here.bin").unwrap_err();
    let msg = err.message();
    assert!(msg.contains("already exists"), "got: {msg}");
    assert_eq!(
        msg,
        "assemble_chain_memory: out_path already-here.bin already exists — caller owns scratch lifetime"
    );
    assert_eq!(files["already-here.bin"], vec![Some(7)]);
}

#[test]
fn topmost_link_with_data_wins() {
    let mut files = HashMap::new();
    files.insert("b".to_string(), vec![Some(1), Some(2), Some(3), Some(4)]);
    files.insert("d1".to_string(), vec![Some(11), None, Some(13), None]);
    files.insert("d2".to_string(), vec![None, None, Some(23), Some(24)]);
    let chain = vec![
        link("b", "b", None),
        link("one", "d1", Some("b")),
        link("two", "d2", Some("one")),
    ];
    assert_eq!(assemble(&mut files, &chain, "out").unwrap(), 8);
    assert_eq!(files["out"], vec![Some(11), Some(2), Some(23), Some(24)]);
    assert_eq!(files["b"], vec![Some(1), Some(2), Some(3), Some(4)]);
}

#[test]
fn lone_base_is_copied() {
    let mut files = base_and_diff();
    let chain = vec![link("base", "base.bin", None)];
    assert_eq!(assemble(&mut files, &chain, "out").unwrap(), 16 * 1024);
    assert_eq!(files["out"], files["base.bin"]);
}

#[test]
fn empty_chain_is_refused() {
    let err = assemble_chain_memory(&[], "out", false).unwrap_err();
    assert_eq!(err.message(), "assemble_chain_memory: empty chain");
    assert!(matches!(assemble_chain_memory(&[], "out", true), Err(AssembleError::EmptyChain)));
}

#[test]
fn failing_steps_name_what_failed() {
    let chain = vec![link("base", "/b", None), link("top", "/d", Some("base"))];
    let mut assembly = assemble_chain_memory(&chain, "/out", false).unwrap();
    assert_eq!(
        assembly.failed("no space".to_string()).message(),
        "copy base memory for chain (base=`base`, src=/b, dst=/out): no space"
    );
    assembly.taken(10);
    assert_eq!(
        assembly.failed("torn".to_string()).message(),
        "apply chain link `top` (/d) onto /out: torn"
    );
    assembly.taken(5);
    assert!(matches!(assembly.next_action(), AssembleAction::Done { total: 15 }));
}

#[test]
fn only_some_errors_fall_back_to_copying() {
    assert_eq!(clone_outcome(0, libc::EIO), CloneOutcome::Cloned);
    for errno in [libc::EINVAL, libc::EXDEV, libc::EOPNOTSUPP, libc::ENOTSUP, libc::ENOTTY] {
        assert_eq!(clone_outcome(-1, errno), CloneOutcome::StreamCopy);
    }
    for errno in [0, libc::EIO, libc::EBADF, libc::ENOSPC, libc::EPERM] {
        assert_eq!(clone_outcome(-1, errno), CloneOutcome::Failed);
    }
}
