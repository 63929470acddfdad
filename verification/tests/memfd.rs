use forkd::mapped_copy::{copy_via_mmap, MapAction, Mapping};
use forkd::memfd::{create_and_populate, MemfdAction, MemfdError, MemfdRegion, Population, HUGE_PAGE_2MB};

/// Runs a population with a kernel that hands out descriptor 7 and copies everything.
fn run(size: u64, use_hugepages: bool, pool_is_empty: bool) -> (Result<MemfdRegion, MemfdError>, Vec<String>) {
    let mut log = Vec::new();
    let mut p: Population = create_and_populate("/snap/memory.bin", "forkd-test", use_hugepages);
    loop {
        match p.next_action() {
            MemfdAction::OpenSource { path } => {
                log.push(format!("open {path}"));
                p = p.opened();
            }
            MemfdAction::MeasureSource => {
                p = match p.measured(size) {
                    Ok(next) => next,
                    Err(e) => return (Err(e), log),
                };
            }
            MemfdAction::CreateMemfd { name, flags } => {
                log.push(format!("create {name} {flags:#x}"));
                let huge = flags & libc::MFD_HUGETLB != 0;
                let (fd, errno) = if huge && pool_is_empty { (-1, libc::ENOMEM) } else { (7, 0) };
                p = match p.created(fd, errno, "out of memory".to_string()) {
                    Ok(next) => next,
                    Err(e) => return (Err(e), log),
                };
            }
            MemfdAction::SetLength { fd, length } => {
                log.push(format!("resize {fd} {length}"));
                p = p.resized();
            }
            MemfdAction::CopyMapped { fd, size_bytes, alloc_size } => {
                log.push(format!("map {fd} {size_bytes} {alloc_size}"));
                return (p.copied(size_bytes), log);
            }
            MemfdAction::CopyStream { fd } => {
                log.push(format!("stream {fd}"));
                return (p.copied(size), log);
            }
        }
    }
}

#[test]
fn create_and_populate_succeeds_for_small_file() {
    let (region, log) = run(4096, false, false);
    let region = region.unwrap();
    assert_eq!(region.size_bytes(), 4096);
    assert_eq!(region.backend_path(1234), "/proc/1234/fd/7");
    assert_eq!(log, vec!["open /snap/memory.bin", "create forkd-test 0x1", "resize 7 4096", "stream 7"]);
}

#[test]
fn hugepages_size_bytes_is_source_size_not_aligned() {
    let (region, log) = run(4096, true, false);
    assert_eq!(region.unwrap().size_bytes(), 4096);
    let flags = libc::MFD_CLOEXEC | libc::MFD_HUGETLB | (21 << libc::MFD_HUGE_SHIFT);
    assert_eq!(
        log,
        vec![
            "open /snap/memory.bin".to_string(),
            format!("create forkd-test {flags:#x}"),
            format!("resize 7 {HUGE_PAGE_2MB}"),
            format!("map 7 4096 {HUGE_PAGE_2MB}"),
        ]
    );
}

#[test]
fn empty_pool_falls_back_to_ordinary_pages() {
    let (region, log) = run(4096, true, true);
    assert_eq!(region.unwrap().size_bytes(), 4096);
    assert_eq!(log[2..], ["create forkd-test 0x1", "resize 7 4096", "stream 7"]);
}

#[test]
fn pool_found_empty_on_mapping_falls_back_to_ordinary_pages() {
    let at_copy = || {
        let p = create_and_populate("/m", "n", true).opened().measured(4096).unwrap();
        p.created(7, 0, String::new()).unwrap().resized()
    };
    let p = at_copy();
    assert!(matches!(p.next_action(), MemfdAction::CopyMapped { fd: 7, size_bytes: 4096, .. }));
    let p = p.map_failed(libc::ENOMEM, "no pages".to_string()).unwrap();
    assert!(matches!(p.next_action(), MemfdAction::CreateMemfd { flags: libc::MFD_CLOEXEC, .. }));
    let p = p.created(8, 0, String::new()).unwrap();
    assert!(matches!(p.next_action(), MemfdAction::SetLength { fd: 8, length: 4096 }));
    let p = p.resized();
    assert!(matches!(p.next_action(), MemfdAction::CopyStream { fd: 8 }));
    let region = p.copied(4096).unwrap();
    assert_eq!(region.size_bytes(), 4096);
    assert_eq!(region.backend_path(1), "/proc/1/fd/8");

    let err = at_copy().map_failed(libc::EPERM, "denied".to_string()).unwrap_err();
    assert_eq!(err.message(), "copy (mmap) /m -> memfd: denied");
    let again = at_copy().map_failed(libc::ENOMEM, "no pages".to_string()).unwrap();
    let err = again.created(-1, libc::ENOMEM, "none at all".to_string()).unwrap_err();
    assert_eq!(err.message(), "memfd_create (fallback): none at all");
}

#[test]
fn longest_source_on_huge_pages() {
    let size = u64::MAX - (HUGE_PAGE_2MB - 1);
    let (_, log) = run(size, true, false);
    assert_eq!(log[2], format!("resize 7 {size}"));
}

#[test]
fn lengths_on_huge_pages_are_rounded_up() {
    for (size, aligned) in [
        (0, 0),
        (1, HUGE_PAGE_2MB),
        (HUGE_PAGE_2MB, HUGE_PAGE_2MB),
        (HUGE_PAGE_2MB + 1, 2 * HUGE_PAGE_2MB),
    ] {
        let (_, log) = run(size, true, false);
        assert_eq!(log[2], format!("resize 7 {aligned}"));
    }
}

#[test]
fn missing_source_file_errors() {
    let p = create_and_populate(
        "/nonexistent/forkd-memfd-test/this-must-not-exist",
        "forkd-test-missing",
        false,
    );
    assert!(matches!(p.next_action(), MemfdAction::OpenSource { .. }));
    let err = p.failed("No such file or directory (os error 2)".to_string());
    let msg = err.message();
    assert!(
        msg.contains("this-must-not-exist"),
        "error must include source path; got: {msg}"
    );
    assert_eq!(
        msg,
        "open memfd source /nonexistent/forkd-memfd-test/this-must-not-exist: \
         No such file or directory (os error 2)"
    );
}

#[test]
fn null_byte_in_the_name_is_refused() {
    let p = create_and_populate("/m", "é\0x", false).opened();
    let err = p.measured(1).unwrap_err();
    assert_eq!(
        err.message(),
        "memfd name must not contain null bytes: nul byte found in provided data at position: 2"
    );
}

#[test]
fn failures_name_their_stage() {
    let at_create = |huge: bool| create_and_populate("/m", "n", huge).opened().measured(10).unwrap();
    let why = || "why".to_string();
    assert_eq!(create_and_populate("/m", "n", false).opened().failed(why()).message(), "stat memfd source /m: why");
    assert_eq!(
        at_create(false).created(-1, libc::ENOMEM, why()).unwrap_err().message(),
        "memfd_create: why"
    );
    assert_eq!(at_create(true).created(-1, libc::EPERM, why()).unwrap_err().message(), "memfd_create: why");
    let again = at_create(true).created(-1, libc::ENOMEM, why()).unwrap();
    assert_eq!(
        again.created(-1, libc::ENOMEM, why()).unwrap_err().message(),
        "memfd_create (fallback): why"
    );
    let resize = at_create(false).created(3, 0, why()).unwrap();
    assert_eq!(resize.failed(why()).message(), "ftruncate memfd to 10 B: why");
    let copy = resize.resized();
    assert_eq!(copy.failed(why()).message(), "copy /m -> memfd: why");
    let err = copy.copied(9).unwrap_err();
    assert_eq!(err.message(), "short copy: source /m is 10 B but copied 9");
    let huge = at_create(true).created(3, 0, why()).unwrap().resized();
    assert_eq!(huge.failed(why()).message(), "copy (mmap) /m -> memfd: why");
}

#[test]
fn copy_via_mmap_size_guard_rejects_oversized_request() {
    let err = copy_via_mmap(8192, 4096).unwrap_err();
    let msg = err.message();
    assert!(
        msg.contains("size_bytes") && msg.contains("alloc_size"),
        "error must name both fields; got: {msg}"
    );
    assert_eq!(msg, "size_bytes (8192) must be <= alloc_size (4096)");
}

#[test]
fn both_mappings_are_made_and_given_back() {
    let mut c = copy_via_mmap(4096, 8192).unwrap();
    assert_eq!(c.next_action(), MapAction::MapDst { len: 8192 });
    c = c.mapped(Some(0x1000));
    assert_eq!(c.next_action(), MapAction::MapSrc { len: 4096 });
    c = c.mapped(Some(0x9000));
    let dst = Mapping { addr: 0x1000, len: 8192 };
    let src = Mapping { addr: 0x9000, len: 4096 };
    assert_eq!(c.next_action(), MapAction::CopyBytes { src, dst, len: 4096 });
    c = c.performed();
    assert_eq!(c.next_action(), MapAction::Unmap { mapping: src });
    c = c.performed();
    assert_eq!(c.next_action(), MapAction::Unmap { mapping: dst });
    c = c.performed();
    assert_eq!(c.next_action(), MapAction::Done { copied: 4096 });
}

#[test]
fn destination_is_given_back_when_the_source_cannot_be_mapped() {
    let mut c = copy_via_mmap(4096, 4096).unwrap().mapped(Some(0x1000)).mapped(None);
    assert_eq!(c.next_action(), MapAction::Unmap { mapping: Mapping { addr: 0x1000, len: 4096 } });
    c = c.performed();
    assert_eq!(c.next_action(), MapAction::GaveUp { at_dst: false });
    assert_eq!(copy_via_mmap(1, 1).unwrap().mapped(None).next_action(), MapAction::GaveUp { at_dst: true });
}
