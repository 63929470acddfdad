use forkd::transfer::{content_length, download, upload, DownloadAction, Progress, UploadAction};

#[test]
fn only_200_brings_a_pack() {
    assert!(download("u").answered(200, "OK", None).is_ok());
    for status in [199, 201, 204, 206, 301, 404, 500] {
        assert!(download("u").answered(status, "x", None).is_err());
    }
    assert_eq!(
        download("http://h/p").answered(404, "Not Found", None).unwrap_err().message(),
        "HTTP GET http://h/p returned status 404 (Not Found). \
         Expected 200 for the snapshot pack — \
         404 usually means the tag isn't published yet, \
         403 means the bucket is private."
    );
}

#[test]
fn downloads_write_all_that_they_read() {
    let pieces = [5u64, 7, 1, 0];
    let mut next_piece = 0;
    let mut out = 0;
    let mut shown = Vec::new();
    let mut d = download("http://h/p");
    let written = loop {
        match d.next_action() {
            DownloadAction::Get { url } => {
                assert_eq!(url, "http://h/p");
                d = d.answered(200, "OK", Some("13")).unwrap();
            }
            DownloadAction::Create => d = d.created(),
            DownloadAction::Read => {
                d = d.read(pieces[next_piece]);
                next_piece += 1;
            }
            DownloadAction::Write { len } => {
                out += len;
                d = d.wrote(if len == 7 { 1 } else { 0 });
            }
            DownloadAction::Show { progress } => {
                shown.push((progress.written, progress.total));
                d = d.shown();
            }
            DownloadAction::Done { written } => break written,
        }
    };
    assert_eq!((written, out), (13, 13));
    assert_eq!(shown, vec![(12, Some(13)), (13, Some(13))]);
}

#[test]
fn any_success_takes_a_pack() {
    let sent = |status: u16| upload("p", "u").measured(9).opened().answered(status, "x");
    for status in [200, 201, 204, 299] {
        assert!(matches!(sent(status), Ok(9)));
    }
    for status in [100, 199, 300, 304, 403] {
        assert!(sent(status).is_err());
    }
    assert_eq!(
        upload("p", "http://h/p").measured(1).opened().answered(403, "Forbidden").unwrap_err().message(),
        "HTTP PUT http://h/p returned status 403 (Forbidden). \
         For presigned URLs: 403 typically means the URL signature expired, \
         400 often means a header mismatch (we set Content-Length but no Content-Type)."
    );
}

#[test]
fn uploads_say_what_they_send() {
    let mut u = upload("/p.tar.zst", "http://h/p");
    assert!(matches!(u.next_action(), UploadAction::Measure));
    u = u.measured(2 * 1024 * 1024);
    assert!(matches!(u.next_action(), UploadAction::Open { announcement }
        if announcement == "==> PUT http://h/p  (2.0 MiB from /p.tar.zst)"));
    u = u.opened();
    match u.next_action() {
        UploadAction::Put { url, content_length, progress } => {
            assert_eq!((url.as_str(), content_length.as_str()), ("http://h/p", "2097152"));
            assert_eq!(progress, Progress::new(Some(2097152)));
        }
        other => panic!("{other:?}"),
    }
}

#[test]
fn lengths_are_read_as_std_reads_them() {
    for s in [
        "", "0", "00", "7", "+7", "++7", "+", "-0", "-1", " 7", "7 ", "1e3", "0x10", "18446744073709551615",
        "18446744073709551616", "18446744073709551620", "99999999999999999999999", "0000000000000000000000000001",
        "184467440737095516150", "٣", "12a", "a12",
    ] {
        assert_eq!(content_length(Some(s)), s.parse().ok(), "{s:?}");
    }
    assert_eq!(content_length(None), None);
}

#[test]
fn progress_is_shown_once_a_second() {
    let mut p = Progress::new(Some(100));
    assert!(!p.advance(10, 0));
    assert!(p.advance(20, 1));
    assert!(p.advance(0, 7));
    assert_eq!(p, Progress { written: 30, total: Some(100) });
}
