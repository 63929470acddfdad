//! Fetching and sending packs: which answers are good, and how far a transfer has come.

use crate::assembly;
use crate::sizes;
use crate::text;
use vstd::prelude::*;

verus! {

/// An answer that is not good.
#[derive(Clone, Debug)]
pub enum TransferError {
    /// To a request for a pack.
    Get { url: String, status: u16, status_text: String },
    /// To a pack that was sent.
    Put { url: String, status: u16, status_text: String },
}

impl TransferError {
    /// The message for the user.
    pub open spec fn text(self) -> Seq<char> {
        match self {
            TransferError::Get { url, status, status_text } => "HTTP GET "@ + url@ + " returned status "@
                + text::decimal(status as nat) + " ("@ + status_text@
                + "). Expected 200 for the snapshot pack — 404 usually means the tag isn't published yet, 403 means the bucket is private."@,
            TransferError::Put { url, status, status_text } => "HTTP PUT "@ + url@ + " returned status "@
                + text::decimal(status as nat) + " ("@ + status_text@
                + "). For presigned URLs: 403 typically means the URL signature expired, 400 often means a header mismatch (we set Content-Length but no Content-Type)."@,
        }
    }

    /// The message for the user.
    pub fn message(&self) -> (m: String)
        ensures
            m@ == self.text(),
    {
        match self {
            TransferError::Get { url, status, status_text } => {
                let mut m = "HTTP GET ".to_owned();
                m.append(url.as_str());
                m.append(" returned status ");
                text::push_decimal(&mut m, *status as u64);
                m.append(" (");
                m.append(status_text.as_str());
                m.append(
                    "). Expected 200 for the snapshot pack — 404 usually means the tag isn't published yet, 403 means the bucket is private.",
                );
                m
            },
            TransferError::Put { url, status, status_text } => {
                let mut m = "HTTP PUT ".to_owned();
                m.append(url.as_str());
                m.append(" returned status ");
                text::push_decimal(&mut m, *status as u64);
                m.append(" (");
                m.append(status_text.as_str());
                m.append(
                    "). For presigned URLs: 403 typically means the URL signature expired, 400 often means a header mismatch (we set Content-Length but no Content-Type).",
                );
                m
            },
        }
    }
}

/// Whether `s` is made of one or more decimal digits.
pub open spec fn is_digits(s: Seq<char>) -> bool {
    &&& s.len() > 0
    &&& forall|i: int| 0 <= i < s.len() ==> '0' <= #[trigger] s[i] <= '9'
}

/// The number that some decimal digits stand for.
pub open spec fn digits_value(s: Seq<char>) -> nat
    decreases s.len(),
{
    if s.len() == 0 {
        0
    } else {
        10 * digits_value(s.drop_last()) + (s.last() as int - 48) as nat
    }
}

/// The number that a header gives: decimal digits, with or without a plus sign before them, if they stand
/// for a number of 64 bits.
pub open spec fn header_number(s: Seq<char>) -> Option<u64> {
    let digits = if s.len() > 0 && s[0] == '+' { s.skip(1) } else { s };
    if is_digits(digits) && digits_value(digits) <= u64::MAX {
        Some(digits_value(digits) as u64)
    } else {
        None
    }
}

/// The number that a `Content-Length` header gives.
pub fn content_length(header: Option<&str>) -> (length: Option<u64>)
    ensures
        length == (match header {
            Some(h) => header_number(h@),
            None => None,
        }),
{
    let chars = match header {
        Some(h) => text::chars_of(h),
        None => {
            return None;
        },
    };
    let start: usize = if chars.len() > 0 && chars[0] == '+' {
        1
    } else {
        0
    };
    let ghost digits = if chars@.len() > 0 && chars@[0] == '+' { chars@.skip(1) } else { chars@ };
    assert(digits =~= chars@.skip(start as int));
    if start == chars.len() {
        return None;
    }
    let mut value: u64 = 0;
    let mut i: usize = start;
    let mut fits = true;
    assert(digits.take(0) =~= Seq::<char>::empty());
    while i < chars.len()
        invariant
            start <= i <= chars@.len(),
            digits == chars@.skip(start as int),
            forall|j: int| 0 <= j < i - start ==> '0' <= #[trigger] digits[j] <= '9',
            fits ==> value == digits_value(digits.take(i - start)),
            !fits ==> digits_value(digits.take(i - start)) > u64::MAX,
            header is Some,
            chars@ == header->0@,
            digits == (if chars@.len() > 0 && chars@[0] == '+' { chars@.skip(1) } else { chars@ }),
        decreases chars@.len() - i,
    {
        let c = chars[i];
        assert(digits[i - start] == c);
        if c < '0' || '9' < c {
            return None;
        }
        let d: u64 = (c as u32 - 48) as u64;
        proof {
            assert(digits.take(i + 1 - start).drop_last() =~= digits.take(i - start));
        }
        if fits && (value < 1_844_674_407_370_955_161 || (value == 1_844_674_407_370_955_161 && d <= 5)) {
            value = 10 * value + d;
        } else {
            fits = false;
        }
        i = i + 1;
    }
    assert(digits.take(i - start) =~= digits);
    if fits {
        Some(value)
    } else {
        None
    }
}

/// How far a transfer has come.
#[derive(Clone, Copy, PartialEq, Eq, Debug)]
pub struct Progress {
    /// The bytes transferred.
    pub written: u64,
    /// The bytes to transfer, where that is known.
    pub total: Option<u64>,
}

impl Progress {
    /// The beginning of a transfer.
    pub fn new(total: Option<u64>) -> (p: Progress)
        ensures
            p == (Progress { written: 0, total }),
    {
        Progress { written: 0, total }
    }

    /// `bytes` more bytes were transferred, `since` whole seconds after progress was last shown. Says
    /// whether to show it again: once a second.
    pub fn advance(&mut self, bytes: u64, since: u64) -> (show: bool)
        requires
            old(self).written + bytes <= u64::MAX,
        ensures
            *final(self) == (Progress { written: (old(self).written + bytes) as u64, total: old(self).total }),
            show == (since >= 1),
    {
        self.written = self.written + bytes;
        since >= 1
    }
}

/// How far a download has come.
#[derive(Clone, Copy, PartialEq, Eq, Debug)]
pub enum DownloadStage {
    /// The pack is to be asked for.
    Get,
    /// The output is to be created.
    Create,
    /// The next piece is to be read.
    Read,
    /// A piece of `len` bytes is to be written.
    Write { len: u64 },
    /// Progress is to be shown.
    Show,
    /// Progress is to be shown for the last time.
    LastShow,
    /// Nothing is left to do.
    Done,
}

/// What to do next.
#[derive(Clone, Debug)]
pub enum DownloadAction {
    /// Ask for the pack.
    Get { url: String },
    /// Create the output.
    Create,
    /// Read the next piece of the answer.
    Read,
    /// Write the piece that was read, of `len` bytes.
    Write { len: u64 },
    /// Show progress.
    Show { progress: Progress },
    /// Nothing: `written` bytes were fetched.
    Done { written: u64 },
}

/// A download under way.
#[derive(Clone, Debug)]
pub struct Download {
    url: String,
    stage: DownloadStage,
    progress: Progress,
}

/// What a [`Download`] stands for.
pub struct DownloadView {
    pub url: Seq<char>,
    pub stage: DownloadStage,
    pub progress: Progress,
}

impl View for Download {
    type V = DownloadView;

    closed spec fn view(&self) -> DownloadView {
        DownloadView { url: self.url@, stage: self.stage, progress: self.progress }
    }
}

/// Begins to fetch a pack.
pub fn download(url: &str) -> (d: Download)
    ensures
        d@ == (DownloadView {
            url: url@,
            stage: DownloadStage::Get,
            progress: Progress { written: 0, total: None },
        }),
{
    Download { url: url.to_owned(), stage: DownloadStage::Get, progress: Progress::new(None) }
}

impl Download {
    /// What to do next.
    pub fn next_action(&self) -> (action: DownloadAction)
        ensures
            match self@.stage {
                DownloadStage::Get => action matches DownloadAction::Get { url } && url@ == self@.url,
                DownloadStage::Create => action is Create,
                DownloadStage::Read => action is Read,
                DownloadStage::Write { len } => action == (DownloadAction::Write { len }),
                DownloadStage::Show => action == (DownloadAction::Show { progress: self@.progress }),
                DownloadStage::LastShow => action == (DownloadAction::Show { progress: self@.progress }),
                DownloadStage::Done => action == (DownloadAction::Done { written: self@.progress.written }),
            },
    {
        match self.stage {
            DownloadStage::Get => DownloadAction::Get { url: self.url.clone() },
            DownloadStage::Create => DownloadAction::Create,
            DownloadStage::Read => DownloadAction::Read,
            DownloadStage::Write { len } => DownloadAction::Write { len },
            DownloadStage::Show => DownloadAction::Show { progress: self.progress },
            DownloadStage::LastShow => DownloadAction::Show { progress: self.progress },
            DownloadStage::Done => DownloadAction::Done { written: self.progress.written },
        }
    }

    /// The answer came, with that text in its `Content-Length` header. A pack comes with status 200 only.
    pub fn answered(self, status: u16, status_text: &str, length: Option<&str>) -> (next: Result<Download, TransferError>)
        requires
            self@.stage is Get,
        ensures
            match next {
                Ok(d) => {
                    &&& status == 200
                    &&& d@ == (DownloadView {
                        stage: DownloadStage::Create,
                        progress: Progress {
                            written: 0,
                            total: match length {
                                Some(h) => header_number(h@),
                                None => None,
                            },
                        },
                        ..self@
                    })
                },
                Err(TransferError::Get { url, status: s, status_text: t }) => {
                    &&& status != 200
                    &&& url@ == self@.url
                    &&& s == status
                    &&& t@ == status_text@
                },
                Err(_) => false,
            },
    {
        if status == 200 {
            let progress = Progress::new(content_length(length));
            Ok(Download { url: self.url, stage: DownloadStage::Create, progress })
        } else {
            Err(TransferError::Get { url: self.url, status, status_text: status_text.to_owned() })
        }
    }

    /// The output is there.
    pub fn created(self) -> (next: Download)
        requires
            self@.stage is Create,
        ensures
            next@ == (DownloadView { stage: DownloadStage::Read, ..self@ }),
    {
        Download { url: self.url, stage: DownloadStage::Read, progress: self.progress }
    }

    /// A piece of `len` bytes was read, where 0 is the end.
    pub fn read(self, len: u64) -> (next: Download)
        requires
            self@.stage is Read,
        ensures
            next@ == (DownloadView {
                stage: if len == 0 {
                    DownloadStage::LastShow
                } else {
                    DownloadStage::Write { len }
                },
                ..self@
            }),
    {
        let stage = if len == 0 {
            DownloadStage::LastShow
        } else {
            DownloadStage::Write { len }
        };
        Download { url: self.url, stage, progress: self.progress }
    }

    /// The piece was written, `since` whole seconds after progress was last shown.
    pub fn wrote(self, since: u64) -> (next: Download)
        requires
            self@.stage matches DownloadStage::Write { len } && self@.progress.written + len <= u64::MAX,
        ensures
            self@.stage matches DownloadStage::Write { len } && next@ == (DownloadView {
                stage: if since >= 1 {
                    DownloadStage::Show
                } else {
                    DownloadStage::Read
                },
                progress: Progress {
                    written: (self@.progress.written + len) as u64,
                    total: self@.progress.total,
                },
                ..self@
            }),
    {
        let mut progress = self.progress;
        let len: u64 = match self.stage {
            DownloadStage::Write { len } => len,
            _ => 0,
        };
        let stage = if progress.advance(len, since) {
            DownloadStage::Show
        } else {
            DownloadStage::Read
        };
        Download { url: self.url, stage, progress }
    }

    /// Progress was shown.
    pub fn shown(self) -> (next: Download)
        requires
            self@.stage is Show || self@.stage is LastShow,
        ensures
            next@ == (DownloadView {
                stage: if self@.stage is Show {
                    DownloadStage::Read
                } else {
                    DownloadStage::Done
                },
                ..self@
            }),
    {
        let stage = match self.stage {
            DownloadStage::Show => DownloadStage::Read,
            _ => DownloadStage::Done,
        };
        Download { url: self.url, stage, progress: self.progress }
    }
}

/// How far an upload has come.
#[derive(Clone, Copy, PartialEq, Eq, Debug)]
pub enum UploadStage {
    /// The size of the pack is to be found.
    Measure,
    /// The pack is to be opened.
    Open { size: u64 },
    /// The pack is to be sent.
    Put { size: u64 },
}

/// What to do next.
#[derive(Clone, Debug)]
pub enum UploadAction {
    /// Find the size of the pack.
    Measure,
    /// Announce what is sent where, and open the pack.
    Open { announcement: String },
    /// Send the pack, with that text in the `Content-Length` header.
    Put { url: String, content_length: String, progress: Progress },
}

/// An upload under way.
#[derive(Clone, Debug)]
pub struct Upload {
    url: String,
    pack: String,
    stage: UploadStage,
}

/// What an [`Upload`] stands for.
pub struct UploadView {
    pub url: Seq<char>,
    pub pack: Seq<char>,
    pub stage: UploadStage,
}

impl View for Upload {
    type V = UploadView;

    closed spec fn view(&self) -> UploadView {
        UploadView { url: self.url@, pack: self.pack@, stage: self.stage }
    }
}

/// Begins to send the pack at `pack_path`.
pub fn upload(pack_path: &str, url: &str) -> (u: Upload)
    ensures
        u@ == (UploadView { url: url@, pack: pack_path@, stage: UploadStage::Measure }),
{
    Upload { url: url.to_owned(), pack: pack_path.to_owned(), stage: UploadStage::Measure }
}

impl Upload {
    /// What to do next.
    pub fn next_action(&self) -> (action: UploadAction)
        ensures
            match self@.stage {
                UploadStage::Measure => action is Measure,
                UploadStage::Open { size } => action matches UploadAction::Open { announcement } && announcement@
                    == "==> PUT "@ + self@.url + "  ("@ + sizes::bytes_text(size as nat) + " from "@ + self@.pack + ")"@,
                UploadStage::Put { size } => {
                    &&& action matches UploadAction::Put { url, content_length, progress }
                    &&& url@ == self@.url
                    &&& content_length@ == text::decimal(size as nat)
                    &&& progress == (Progress { written: 0, total: Some(size) })
                },
            },
    {
        match self.stage {
            UploadStage::Measure => UploadAction::Measure,
            UploadStage::Open { size } => {
                let mut announcement = "==> PUT ".to_owned();
                announcement.append(self.url.as_str());
                announcement.append("  (");
                let bytes = sizes::human_bytes(size);
                announcement.append(bytes.as_str());
                announcement.append(" from ");
                announcement.append(self.pack.as_str());
                announcement.append(")");
                UploadAction::Open { announcement }
            },
            UploadStage::Put { size } => {
                let mut content_length = String::new();
                text::push_decimal(&mut content_length, size);
                assert(content_length@ =~= text::decimal(size as nat));
                UploadAction::Put { url: self.url.clone(), content_length, progress: Progress::new(Some(size)) }
            },
        }
    }

    /// The pack is `size` bytes long.
    pub fn measured(self, size: u64) -> (next: Upload)
        requires
            self@.stage is Measure,
        ensures
            next@ == (UploadView { stage: UploadStage::Open { size }, ..self@ }),
    {
        Upload { url: self.url, pack: self.pack, stage: UploadStage::Open { size } }
    }

    /// The pack is open.
    pub fn opened(self) -> (next: Upload)
        requires
            self@.stage is Open,
        ensures
            self@.stage matches UploadStage::Open { size } && next@ == (UploadView {
                stage: UploadStage::Put { size },
                ..self@
            }),
    {
        let stage = match self.stage {
            UploadStage::Open { size } => UploadStage::Put { size },
            other => other,
        };
        Upload { url: self.url, pack: self.pack, stage }
    }

    /// The answer came. Any status from 200 to 299 says that the pack was taken; gives how many bytes it
    /// has.
    pub fn answered(self, status: u16, status_text: &str) -> (sent: Result<u64, TransferError>)
        requires
            self@.stage is Put,
        ensures
            match sent {
                Ok(n) => 200 <= status < 300 && self@.stage == (UploadStage::Put { size: n }),
                Err(TransferError::Put { url, status: s, status_text: t }) => {
                    &&& !(200 <= status < 300)
                    &&& url@ == self@.url
                    &&& s == status
                    &&& t@ == status_text@
                },
                Err(_) => false,
            },
    {
        let size: u64 = match self.stage {
            UploadStage::Put { size } => size,
            _ => 0,
        };
        if 200 <= status && status < 300 {
            Ok(size)
        } else {
            Err(TransferError::Put { url: self.url, status, status_text: status_text.to_owned() })
        }
    }
}

/// The download after a piece of `len` bytes has been read and written.
pub open spec fn after_piece(d: DownloadView, len: nat) -> DownloadView {
    DownloadView {
        progress: Progress { written: (d.progress.written + len) as u64, total: d.progress.total },
        ..d
    }
}

/// The download after some pieces.
pub open spec fn after_pieces(d: DownloadView, pieces: Seq<nat>) -> DownloadView
    decreases pieces.len(),
{
    if pieces.len() == 0 {
        d
    } else {
        after_piece(after_pieces(d, pieces.drop_last()), pieces.last())
    }
}

/// What is reported as fetched is the length of all the pieces together.
pub proof fn law_every_byte_is_counted(d: DownloadView, pieces: Seq<nat>)
    requires
        d.progress.written + assembly::sum(pieces) <= u64::MAX,
    ensures
        after_pieces(d, pieces).progress.written == d.progress.written + assembly::sum(pieces),
    decreases pieces.len(),
{
    if pieces.len() > 0 {
        law_every_byte_is_counted(d, pieces.drop_last());
    }
}

proof fn lemma_digits_value(s: Seq<char>)
    ensures
        digits_value(s) == text::value_of(s),
        is_digits(s) <==> text::is_number(s),
    decreases s.len(),
{
    if s.len() > 0 {
        lemma_digits_value(s.drop_last());
    }
}

/// A length is read from decimal digits, with or without one plus sign before them, and is the number that
/// these stand for. It is read whenever there are such digits and the number has no more than 64 bits.
pub proof fn law_length_is_the_number_given(header: Option<&str>, length: Option<u64>)
    requires
        call_ensures(content_length, (header,), length),
    ensures
        header is None ==> length is None,
        header matches Some(h) ==> {
            let digits = if h@.len() > 0 && h@[0] == '+' { h@.skip(1) } else { h@ };
            &&& length is Some <==> text::is_number(digits) && text::value_of(digits) <= u64::MAX
            &&& length matches Some(n) ==> n == text::value_of(digits)
        },
{
    if let Some(h) = header {
        let digits = if h@.len() > 0 && h@[0] == '+' { h@.skip(1) } else { h@ };
        lemma_digits_value(digits);
    }
}

/// Each number of 64 bits is read from its text.
pub proof fn law_lengths_read_back(n: u64, header: &str, length: Option<u64>)
    requires
        call_ensures(content_length, (Some(header),), length),
        header@ == text::decimal(n as nat),
    ensures
        length == Some(n),
{
    text::law_decimal_reads_back(n as nat);
    lemma_digits_value(header@);
}

/// Progress begins at nothing, counts each byte, and is shown when a second has gone by.
pub proof fn law_progress_counts_bytes(p: &mut Progress, bytes: u64, since: u64, show: bool, total: Option<u64>, start: Progress)
    requires
        call_ensures(Progress::new, (total,), start),
        call_ensures(Progress::advance, (p, bytes, since), show),
        old(p).written + bytes <= u64::MAX,
    ensures
        start.written == 0 && start.total == total,
        final(p).written == old(p).written + bytes,
        final(p).total == old(p).total,
        show <==> since > 0,
{
}

/// A download begins by asking for the pack at the address given.
pub proof fn law_download_asks_for_the_pack(url: &str, d: Download, action: DownloadAction)
    requires
        call_ensures(download, (url,), d),
        call_ensures(Download::next_action, (&d,), action),
    ensures
        d@.stage is Get,
        d@.url == url@,
        action matches DownloadAction::Get { url: u } && u@ == url@,
{
}

/// An answer is good if and only if its status is 200. The output is then to be created, and after that the
/// answer read, with nothing written so far and as much to come as the header says. Any other answer is an
/// error that tells address and status.
pub proof fn law_only_200_is_good(
    d: Download,
    status: u16,
    status_text: &str,
    length: Option<&str>,
    next: Result<Download, TransferError>,
    announced: Option<u64>,
)
    requires
        d@.stage is Get,
        call_ensures(Download::answered, (d, status, status_text, length), next),
        call_ensures(content_length, (length,), announced),
    ensures
        next is Ok <==> status == 200,
        next matches Err(e) ==> {
            &&& e matches TransferError::Get { url, status: s, status_text: t }
            &&& url@ == d@.url && s == status && t@ == status_text@
        },
        next matches Ok(d2) ==> {
            &&& d2@.url == d@.url
            &&& d2@.progress.written == 0
            &&& d2@.progress.total == announced
            &&& forall|a: DownloadAction| #[trigger] call_ensures(Download::next_action, (&d2,), a) ==> a is Create
            &&& forall|d3: Download| #[trigger]
                call_ensures(Download::created, (d2,), d3) ==> d3@.stage is Read && d3@.progress == d2@.progress
                    && d3@.url == d2@.url
        },
{
}

/// While the answer is read: a piece that was read is to be written, whole; when it has been, its length is
/// counted, and the next is read, once progress has been shown where a second has gone by. A piece of no
/// bytes is the end: progress is shown, and then what was written is told.
pub proof fn law_pieces_are_written_and_counted(d: Download, len: u64, since: u64, d2: Download, a: DownloadAction)
    requires
        d@.stage is Read,
        d@.progress.written + len <= u64::MAX,
        call_ensures(Download::read, (d, len), d2),
        call_ensures(Download::next_action, (&d2,), a),
    ensures
        d2@.progress == d@.progress,
        len > 0 ==> {
            &&& a matches DownloadAction::Write { len: n } && n == len
            &&& forall|d3: Download| #[trigger]
                call_ensures(Download::wrote, (d2, since), d3) ==> {
                    &&& d3@.progress.written == d@.progress.written + len
                    &&& d3@.progress.total == d@.progress.total
                    &&& d3@.url == d@.url
                    &&& since == 0 ==> d3@.stage is Read
                    &&& since > 0 ==> is_shown_then(d3, false)
                }
        },
        len == 0 ==> a == (DownloadAction::Show { progress: d@.progress }) && is_shown_then(d2, true),
        forall|now: DownloadAction| #[trigger] call_ensures(Download::next_action, (&d,), now) ==> now is Read,
{
    if len > 0 {
        assert forall|d3: Download| #[trigger] call_ensures(Download::wrote, (d2, since), d3) implies {
            &&& d3@.progress.written == d@.progress.written + len
            &&& since > 0 ==> is_shown_then(d3, false)
        } by {
            if since > 0 {
                lemma_shown_then(d3);
            }
        }
    } else {
        lemma_shown_then(d2);
    }
}

/// Whether progress is to be shown, after which all is done if `last` says so, and else the next piece is to
/// be read.
pub open spec fn is_shown_then(d: Download, last: bool) -> bool {
    &&& forall|a: DownloadAction| #[trigger]
        call_ensures(Download::next_action, (&d,), a) ==> a == (DownloadAction::Show { progress: d@.progress })
    &&& forall|after: Download| #[trigger]
        call_ensures(Download::shown, (d,), after) ==> {
            &&& after@.progress == d@.progress && after@.url == d@.url
            &&& !last ==> after@.stage is Read
            &&& last ==> forall|a: DownloadAction| #[trigger]
                call_ensures(Download::next_action, (&after,), a) ==> (a matches DownloadAction::Done { written }
                    && written == d@.progress.written)
        }
}

proof fn lemma_shown_then(d: Download)
    requires
        d@.stage is Show || d@.stage is LastShow,
    ensures
        is_shown_then(d, d@.stage is LastShow),
{
}

/// An upload finds the size of the pack, says how much it sends where, and sends it with its size in the
/// header. The answer is good if and only if its status is from 200 to 299, and then as many bytes were sent
/// as the pack has. Any other is an error that tells address and status.
pub proof fn law_upload_sends_the_pack(
    pack_path: &str,
    url: &str,
    size: u64,
    status: u16,
    status_text: &str,
    u: Upload,
    u2: Upload,
    u3: Upload,
    first: UploadAction,
    second: UploadAction,
    third: UploadAction,
    sent: Result<u64, TransferError>,
    size_text: String,
)
    requires
        call_ensures(upload, (pack_path, url), u),
        call_ensures(Upload::next_action, (&u,), first),
        call_ensures(Upload::measured, (u, size), u2),
        call_ensures(Upload::next_action, (&u2,), second),
        call_ensures(Upload::opened, (u2,), u3),
        call_ensures(Upload::next_action, (&u3,), third),
        call_ensures(Upload::answered, (u3, status, status_text), sent),
        call_ensures(sizes::human_bytes, (size,), size_text),
    ensures
        first is Measure,
        second matches UploadAction::Open { announcement } && announcement@ == "==> PUT "@ + url@ + "  ("@ + size_text@
            + " from "@ + pack_path@ + ")"@,
        third matches UploadAction::Put { url: to, content_length, progress } && {
            &&& to@ == url@
            &&& text::is_number(content_length@) && text::value_of(content_length@) == size
            &&& progress.written == 0 && progress.total == Some(size)
        },
        sent is Ok <==> 200 <= status <= 299,
        sent matches Ok(n) ==> n == size,
        sent matches Err(e) ==> {
            &&& e matches TransferError::Put { url: to, status: s, status_text: t }
            &&& to@ == url@ && s == status && t@ == status_text@
        },
{
    text::law_decimal_reads_back(size as nat);
}

/// The message of an error tells all that the error holds.
pub proof fn law_transfer_errors_name_what_failed(e: &TransferError, m: String)
    requires
        call_ensures(TransferError::message, (e,), m),
    ensures
        match *e {
            TransferError::Get { url, status, status_text } => {
                &&& text::mentions(m@, url@)
                &&& text::mentions_number(m@, status as nat)
                &&& text::mentions(m@, status_text@)
            },
            TransferError::Put { url, status, status_text } => {
                &&& text::mentions(m@, url@)
                &&& text::mentions_number(m@, status as nat)
                &&& text::mentions(m@, status_text@)
            },
        },
{
    match *e {
        TransferError::Get { url, status, status_text } => {
            text::lemma_mentions(
                "HTTP GET "@,
                url@,
                " returned status "@ + text::decimal(status as nat) + " ("@ + status_text@
                    + "). Expected 200 for the snapshot pack — 404 usually means the tag isn't published yet, 403 means the bucket is private."@,
                m@,
            );
            text::lemma_mentions_number(
                "HTTP GET "@ + url@ + " returned status "@,
                status as nat,
                " ("@ + status_text@
                    + "). Expected 200 for the snapshot pack — 404 usually means the tag isn't published yet, 403 means the bucket is private."@,
                m@,
            );
            text::lemma_mentions(
                "HTTP GET "@ + url@ + " returned status "@ + text::decimal(status as nat) + " ("@,
                status_text@,
                "). Expected 200 for the snapshot pack — 404 usually means the tag isn't published yet, 403 means the bucket is private."@,
                m@,
            );
        },
        TransferError::Put { url, status, status_text } => {
            text::lemma_mentions(
                "HTTP PUT "@,
                url@,
                " returned status "@ + text::decimal(status as nat) + " ("@ + status_text@
                    + "). For presigned URLs: 403 typically means the URL signature expired, 400 often means a header mismatch (we set Content-Length but no Content-Type)."@,
                m@,
            );
            text::lemma_mentions_number(
                "HTTP PUT "@ + url@ + " returned status "@,
                status as nat,
                " ("@ + status_text@
                    + "). For presigned URLs: 403 typically means the URL signature expired, 400 often means a header mismatch (we set Content-Length but no Content-Type)."@,
                m@,
            );
            text::lemma_mentions(
                "HTTP PUT "@ + url@ + " returned status "@ + text::decimal(status as nat) + " ("@,
                status_text@,
                "). For presigned URLs: 403 typically means the URL signature expired, 400 often means a header mismatch (we set Content-Length but no Content-Type)."@,
                m@,
            );
        },
    }
}

} // verus!
