//! Reading a pack: which of its entries go where, and what of them is checked.

use crate::chain;
use crate::manifest;
use crate::manifest::{FileEntry, FileEntryView, Manifest, ManifestView, MAX_SUPPORTED_PACK_VERSION};
use crate::path;
use crate::text;
use vstd::prelude::*;

verus! {

/// Whether two dots in a row are in `name`.
pub open spec fn has_dot_dot(name: Seq<char>) -> bool {
    exists|i: int| 0 <= i < name.len() - 1 && #[trigger] name[i] == '.' && name[i + 1] == '.'
}

/// Whether an entry of that name could end up outside the directory it is extracted into.
pub open spec fn is_traversal(name: Seq<char>) -> bool {
    has_dot_dot(name) || (name.len() > 0 && name[0] == '/')
}

/// Whether `c` may be in the tag of a link.
pub open spec fn is_tag_char(c: char) -> bool {
    ('a' <= c <= 'z') || ('A' <= c <= 'Z') || ('0' <= c <= '9') || c == '-' || c == '_'
}

/// Whether `tag` can be the name of a directory, and of nothing else.
pub open spec fn is_safe_tag(tag: Seq<char>) -> bool {
    &&& 1 <= tag.len() <= 64
    &&& forall|i: int| 0 <= i < tag.len() ==> is_tag_char(#[trigger] tag[i])
}

/// Whether `tag` can be the name of a directory, and of nothing else: 1 to 64 ASCII letters, digits,
/// `-` and `_`.
pub fn is_safe_pack_tag(tag: &str) -> (safe: bool)
    ensures
        safe == is_safe_tag(tag@),
{
    let chars = text::chars_of(tag);
    if chars.len() == 0 || chars.len() > 64 {
        return false;
    }
    let mut i: usize = 0;
    while i < chars.len()
        invariant
            chars@ == tag@,
            i <= chars@.len(),
            forall|j: int| 0 <= j < i ==> is_tag_char(#[trigger] tag@[j]),
        decreases chars@.len() - i,
    {
        let c = chars[i];
        let ok = ('a' <= c && c <= 'z') || ('A' <= c && c <= 'Z') || ('0' <= c && c <= '9') || c == '-' || c == '_';
        if !ok {
            assert(!is_tag_char(tag@[i as int]));
            return false;
        }
        i = i + 1;
    }
    true
}

/// Whether an entry of that name could end up outside the directory it is extracted into.
fn escapes(name: &str) -> (bad: bool)
    ensures
        bad == is_traversal(name@),
{
    let chars = text::chars_of(name);
    if chars.len() > 0 && chars[0] == '/' {
        return true;
    }
    let mut i: usize = 1;
    while i < chars.len()
        invariant
            chars@ == name@,
            1 <= i,
            forall|j: int| 0 <= j < i - 1 && j < name@.len() - 1 ==> !(#[trigger] name@[j] == '.' && name@[j + 1] == '.'),
        decreases chars@.len() - i,
    {
        if chars[i - 1] == '.' && chars[i] == '.' {
            assert(name@[i - 1] == '.' && name@[i as int] == '.');
            return true;
        }
        i = i + 1;
    }
    false
}

/// Why a pack was refused.
#[derive(Clone, Debug)]
pub enum UnpackError {
    /// An entry could end up outside the directory.
    Traversal { name: String },
    /// The manifest could not be read: it is `bytes` bytes long and starts with `start`.
    BadManifest { bytes: u64, start: String, reason: String },
    /// The pack has a newer format than can be read.
    TooNew { version: u32 },
    /// The tag of a link cannot be the name of a directory.
    UnsafeTag { tag: String },
    /// There is no manifest among the entries, of which `extracted` were extracted.
    MissingManifest { extracted: u64 },
}

/// What to do with an entry.
#[derive(Clone, Debug)]
pub enum EntryAction {
    /// Read it as the manifest.
    ReadManifest,
    /// Write it to this path.
    Extract { dest: String },
}

/// What is left to do once all entries have been dealt with.
#[derive(Clone, Debug)]
pub enum UnpackStep {
    /// Hold the file at this path to what the manifest says of it.
    Verify { path: String, entry: FileEntry },
    /// Point the metadata in this directory at the directory itself.
    Relocate { dir: String },
}

/// What an [`UnpackStep`] stands for.
pub enum StepView {
    Verify { path: Seq<char>, entry: FileEntryView },
    Relocate { dir: Seq<char> },
}

impl View for UnpackStep {
    type V = StepView;

    open spec fn view(&self) -> StepView {
        match *self {
            UnpackStep::Verify { path, entry } => StepView::Verify { path: path@, entry: entry@ },
            UnpackStep::Relocate { dir } => StepView::Relocate { dir: dir@ },
        }
    }
}

/// What some steps stand for.
pub open spec fn steps_of(steps: Seq<UnpackStep>) -> Seq<StepView> {
    steps.map_values(|s: UnpackStep| s@)
}

/// A pack being read.
pub struct Unpacking {
    dest_dir: String,
    manifest: Option<Manifest>,
    extracted: u64,
}

/// What an [`Unpacking`] stands for.
pub struct UnpackingView {
    pub dest_dir: Seq<char>,
    pub manifest: Option<ManifestView>,
    pub extracted: nat,
}

impl View for Unpacking {
    type V = UnpackingView;

    closed spec fn view(&self) -> UnpackingView {
        UnpackingView {
            dest_dir: self.dest_dir@,
            manifest: match self.manifest {
                Some(m) => Some(m@),
                None => None,
            },
            extracted: self.extracted as nat,
        }
    }
}

/// Begins to read a pack into `dest_dir`.
pub fn unpack(dest_dir: &str) -> (u: Unpacking)
    ensures
        u@ == (UnpackingView { dest_dir: dest_dir@, manifest: None, extracted: 0 }),
{
    Unpacking { dest_dir: dest_dir.to_owned(), manifest: None, extracted: 0 }
}

/// The tag of the first link whose tag is not safe.
pub open spec fn first_unsafe(m: ManifestView, i: int) -> bool {
    &&& 0 <= i < m.chain.len()
    &&& !is_safe_tag(m.chain[i].tag)
    &&& forall|j: int| 0 <= j < i ==> is_safe_tag((#[trigger] m.chain[j]).tag)
}

/// Whether a pack with that manifest can be read.
pub open spec fn is_readable(m: ManifestView) -> bool {
    &&& m.forkd_pack_version <= MAX_SUPPORTED_PACK_VERSION
    &&& forall|i: int| 0 <= i < m.chain.len() ==> is_safe_tag((#[trigger] m.chain[i]).tag)
}

/// The check of a file of a single snapshot, or of a link.
pub open spec fn verify_steps(dir: Seq<char>, files: Seq<FileEntryView>) -> Seq<StepView> {
    Seq::new(files.len(), |i: int| StepView::Verify { path: path::joined(dir, files[i].path), entry: files[i] })
}

/// What is left to do for one snapshot directory: each file is checked, in order, and only then the
/// metadata is changed.
pub open spec fn dir_steps(dir: Seq<char>, files: Seq<FileEntryView>) -> Seq<StepView> {
    verify_steps(dir, files).push(StepView::Relocate { dir })
}

/// What is left to do for some links.
pub open spec fn chain_steps(dest_dir: Seq<char>, chain: Seq<manifest::ChainLinkView>) -> Seq<StepView>
    decreases chain.len(),
{
    if chain.len() == 0 {
        Seq::empty()
    } else {
        let link = chain.last();
        chain_steps(dest_dir, chain.drop_last()) + dir_steps(path::joined(dest_dir, link.tag), link.files)
    }
}

/// What is left to do for a pack with that manifest.
pub open spec fn closing_steps(dest_dir: Seq<char>, m: ManifestView) -> Seq<StepView> {
    if m.chain.len() == 0 {
        dir_steps(dest_dir, m.files)
    } else {
        chain_steps(dest_dir, m.chain)
    }
}

fn push_dir_steps(steps: &mut Vec<UnpackStep>, dir: &str, files: &Vec<FileEntry>)
    ensures
        steps_of(final(steps)@) == steps_of(old(steps)@) + dir_steps(dir@, manifest::entries_of(files@)),
{
    let ghost before = steps_of(steps@);
    let ghost all = verify_steps(dir@, manifest::entries_of(files@));
    let mut i: usize = 0;
    while i < files.len()
        invariant
            i <= files@.len(),
            all == verify_steps(dir@, manifest::entries_of(files@)),
            steps_of(steps@) == before + all.take(i as int),
        decreases files@.len() - i,
    {
        let file = &files[i];
        let entry = FileEntry { path: file.path.clone(), size: file.size, sha256: file.sha256.clone() };
        let at = path::join(dir, file.path.as_str());
        let ghost so_far = steps_of(steps@);
        steps.push(UnpackStep::Verify { path: at, entry });
        i = i + 1;
        assert(steps_of(steps@) =~= so_far.push(all[i - 1]));
        assert(all.take(i as int) =~= all.take(i - 1).push(all[i - 1]));
        assert(steps_of(steps@) =~= before + all.take(i as int));
    }
    assert(all.take(i as int) =~= all);
    let ghost so_far = steps_of(steps@);
    steps.push(UnpackStep::Relocate { dir: dir.to_owned() });
    assert(steps_of(steps@) =~= so_far.push(StepView::Relocate { dir: dir@ }));
    assert(steps_of(steps@) =~= before + dir_steps(dir@, manifest::entries_of(files@)));
}

impl Unpacking {
    /// What to do with the next entry, which goes by `name` in the pack.
    pub fn on_entry(&self, name: &str) -> (action: Result<EntryAction, UnpackError>)
        ensures
            match action {
                Ok(EntryAction::ReadManifest) => name@ == "manifest.toml"@,
                Ok(EntryAction::Extract { dest }) => {
                    &&& !is_traversal(name@)
                    &&& name@ != "manifest.toml"@
                    &&& dest@ == path::joined(self@.dest_dir, name@)
                },
                Err(UnpackError::Traversal { name: n }) => is_traversal(name@) && n@ == name@,
                Err(_) => false,
            },
    {
        if escapes(name) {
            return Err(UnpackError::Traversal { name: name.to_owned() });
        }
        if text::same_text(name, "manifest.toml") {
            return Ok(EntryAction::ReadManifest);
        }
        Ok(EntryAction::Extract { dest: path::join(self.dest_dir.as_str(), name) })
    }

    /// An entry was extracted.
    pub fn extracted(&mut self)
        requires
            old(self)@.extracted < u64::MAX,
        ensures
            final(self)@ == (UnpackingView { extracted: old(self)@.extracted + 1, ..old(self)@ }),
    {
        self.extracted = self.extracted + 1;
    }

    /// The manifest was read. Where there is more than one, the last counts.
    pub fn on_manifest(&mut self, m: Manifest) -> (accepted: Result<(), UnpackError>)
        ensures
            match accepted {
                Ok(_) => {
                    &&& is_readable(m@)
                    &&& final(self)@ == (UnpackingView { manifest: Some(m@), ..old(self)@ })
                },
                Err(UnpackError::TooNew { version }) => {
                    &&& m.forkd_pack_version > MAX_SUPPORTED_PACK_VERSION
                    &&& version == m.forkd_pack_version
                    &&& final(self)@ == old(self)@
                },
                Err(UnpackError::UnsafeTag { tag }) => {
                    &&& m.forkd_pack_version <= MAX_SUPPORTED_PACK_VERSION
                    &&& exists|i: int| #[trigger] first_unsafe(m@, i) && tag@ == m@.chain[i].tag
                    &&& final(self)@ == old(self)@
                },
                Err(_) => false,
            },
    {
        if m.forkd_pack_version > MAX_SUPPORTED_PACK_VERSION {
            return Err(UnpackError::TooNew { version: m.forkd_pack_version });
        }
        let ghost before = self@;
        let mut i: usize = 0;
        while i < m.chain.len()
            invariant
                i <= m.chain@.len(),
                m.forkd_pack_version <= MAX_SUPPORTED_PACK_VERSION,
                self@ == before,
                before == old(self)@,
                forall|j: int| 0 <= j < i ==> is_safe_tag((#[trigger] m@.chain[j]).tag),
            decreases m.chain@.len() - i,
        {
            if !is_safe_pack_tag(m.chain[i].tag.as_str()) {
                assert(first_unsafe(m@, i as int));
                return Err(UnpackError::UnsafeTag { tag: m.chain[i].tag.clone() });
            }
            i = i + 1;
        }
        self.manifest = Some(m);
        Ok(())
    }

    /// All entries have been dealt with: gives the manifest, and what is left to do.
    pub fn finish(self) -> (done: Result<(Manifest, Vec<UnpackStep>), UnpackError>)
        ensures
            match (self@.manifest, done) {
                (Some(m), Ok(d)) => d.0@ == m && steps_of(d.1@) == closing_steps(self@.dest_dir, m),
                (None, Err(UnpackError::MissingManifest { extracted })) => extracted == self@.extracted,
                _ => false,
            },
    {
        let m = match self.manifest {
            Some(m) => m,
            None => {
                return Err(UnpackError::MissingManifest { extracted: self.extracted });
            },
        };
        let mut steps: Vec<UnpackStep> = Vec::new();
        assert(steps_of(steps@) =~= Seq::<StepView>::empty());
        let dest_dir = self.dest_dir;
        if m.chain.len() == 0 {
            push_dir_steps(&mut steps, dest_dir.as_str(), &m.files);
            assert(steps_of(steps@) =~= closing_steps(dest_dir@, m@));
        } else {
            let mut i: usize = 0;
            assert(m@.chain.take(0) =~= Seq::<manifest::ChainLinkView>::empty());
            while i < m.chain.len()
                invariant
                    i <= m.chain@.len(),
                    steps_of(steps@) == chain_steps(dest_dir@, m@.chain.take(i as int)),
                decreases m.chain@.len() - i,
            {
                let link = &m.chain[i];
                let dir = path::join(dest_dir.as_str(), link.tag.as_str());
                push_dir_steps(&mut steps, dir.as_str(), &link.files);
                i = i + 1;
                let ghost now = m@.chain.take(i as int);
                assert(now.drop_last() =~= m@.chain.take(i - 1));
                assert(now.last() == link@);
            }
            assert(m@.chain.take(i as int) =~= m@.chain);
        }
        Ok((m, steps))
    }
}

/// Why a file was not accepted.
#[derive(Clone, Debug)]
pub enum VerifyError {
    /// The file could not be hashed.
    Unreadable { path: String, reason: String },
    /// The file is not what the manifest says.
    Mismatch { entry_path: String, actual: String, declared: String },
}

/// Checks that the file at `path` has the hash that the manifest declares. `sha256_file` gives the
/// hash of a file, or says why it cannot.
pub fn verify_one<H>(path: &str, entry: &FileEntry, sha256_file: &H) -> (checked: Result<(), VerifyError>)
where
    H: Fn(&str) -> Result<String, String>,
    requires
        forall|p: &str| call_requires(*sha256_file, (p,)),
    ensures
        match checked {
            Ok(_) => chain::hashes_to(*sha256_file, path@, entry.sha256@),
            Err(VerifyError::Unreadable { path: p, reason }) => p@ == path@ && chain::fails_to_hash(
                *sha256_file,
                path@,
                reason@,
            ),
            Err(VerifyError::Mismatch { entry_path, actual, declared }) => {
                &&& chain::hashes_to(*sha256_file, path@, actual@)
                &&& actual@ != entry.sha256@
                &&& declared@ == entry.sha256@
                &&& entry_path@ == entry.path@
            },
        },
{
    let answer = (*sha256_file)(path);
    match answer {
        Err(reason) => {
            assert(chain::fails_to_hash(*sha256_file, path@, reason@));
            Err(VerifyError::Unreadable { path: path.to_owned(), reason })
        },
        Ok(actual) => {
            assert(chain::hashes_to(*sha256_file, path@, actual@));
            if !text::same_text(actual.as_str(), entry.sha256.as_str()) {
                return Err(
                    VerifyError::Mismatch {
                        entry_path: entry.path.clone(),
                        actual,
                        declared: entry.sha256.clone(),
                    },
                );
            }
            Ok(())
        },
    }
}

/// A string as the `Debug` format of std writes it: in double quotes, and escaped.
pub uninterp spec fn debug_text(s: Seq<char>) -> Seq<char>;

/// `str`'s `Debug` format writes a string in double quotes and escaped: a function of the string alone.
#[verifier::external_body]
fn debug_str(s: &str) -> (quoted: String)
    ensures
        quoted@ == debug_text(s@),
{
    format!("{:?}", s)
}

/// The error for a manifest that could not be read: it tells the length of its text in bytes, and its
/// first forty characters.
pub fn bad_manifest(body: &str, reason: String) -> (error: UnpackError)
    ensures
        error matches UnpackError::BadManifest { bytes, start, reason: r } && bytes == vstd::utf8::encode_utf8(
            body@,
        ).len() && start@ == body@.take(if body@.len() < 40 { body@.len() as int } else { 40 }) && r@ == reason@,
{
    let chars = text::chars_of(body);
    let n: usize = if chars.len() < 40 {
        chars.len()
    } else {
        40
    };
    let mut start = String::new();
    text::push_chars(&mut start, &chars, 0, n);
    assert(start@ =~= body@.take(n as int));
    UnpackError::BadManifest { bytes: body.as_bytes().len() as u64, start, reason }
}

impl UnpackError {
    /// The message for the user.
    pub open spec fn text(self) -> Seq<char> {
        match self {
            UnpackError::Traversal { name } => "malformed pack: refusing entry with traversal path: "@ + name@,
            UnpackError::BadManifest { bytes, start, reason } => "parse manifest.toml inside the pack (it is "@
                + text::decimal(bytes as nat) + " bytes, starts with "@ + debug_text(start@) + "): "@ + reason@,
            UnpackError::TooNew { version } => "pack format version "@ + text::decimal(version as nat)
                + " is newer than this forkd supports (max 2). Upgrade forkd or repack with an older version."@,
            UnpackError::UnsafeTag { tag } => "v2 pack chain link declares unsafe tag "@ + debug_text(tag@)
                + " — refusing to extract"@,
            UnpackError::MissingManifest { extracted } =>
                "pack is missing manifest.toml — not a valid forkd snapshot pack (extracted "@ + text::decimal(
                extracted as nat,
            ) + " entries before noticing)"@,
        }
    }

    /// The message for the user.
    pub fn message(&self) -> (m: String)
        ensures
            m@ == self.text(),
    {
        match self {
            UnpackError::Traversal { name } => {
                let mut m = "malformed pack: refusing entry with traversal path: ".to_owned();
                m.append(name.as_str());
                m
            },
            UnpackError::BadManifest { bytes, start, reason } => {
                let mut m = "parse manifest.toml inside the pack (it is ".to_owned();
                text::push_decimal(&mut m, *bytes);
                m.append(" bytes, starts with ");
                let quoted = debug_str(start.as_str());
                m.append(quoted.as_str());
                m.append("): ");
                m.append(reason.as_str());
                m
            },
            UnpackError::TooNew { version } => {
                let mut m = "pack format version ".to_owned();
                text::push_decimal(&mut m, *version as u64);
                m.append(" is newer than this forkd supports (max 2). Upgrade forkd or repack with an older version.");
                m
            },
            UnpackError::UnsafeTag { tag } => {
                let mut m = "v2 pack chain link declares unsafe tag ".to_owned();
                let quoted = debug_str(tag.as_str());
                m.append(quoted.as_str());
                m.append(" — refusing to extract");
                m
            },
            UnpackError::MissingManifest { extracted } => {
                let mut m = "pack is missing manifest.toml — not a valid forkd snapshot pack (extracted ".to_owned();
                text::push_decimal(&mut m, *extracted);
                m.append(" entries before noticing)");
                m
            },
        }
    }
}

impl VerifyError {
    /// The message for the user.
    pub open spec fn text(self) -> Seq<char> {
        match self {
            VerifyError::Unreadable { path, reason } => "hash "@ + path@
                + " for integrity check (declared in manifest): "@ + reason@,
            VerifyError::Mismatch { entry_path, actual, declared } => "integrity check failed for "@ + entry_path@
                + ": file sha256="@ + actual@ + " but manifest says "@ + declared@
                + ". The pack is corrupted (truncated download? bit rot? tampered?)."@,
        }
    }

    /// The message for the user.
    pub fn message(&self) -> (m: String)
        ensures
            m@ == self.text(),
    {
        match self {
            VerifyError::Unreadable { path, reason } => {
                let mut m = "hash ".to_owned();
                m.append(path.as_str());
                m.append(" for integrity check (declared in manifest): ");
                m.append(reason.as_str());
                m
            },
            VerifyError::Mismatch { entry_path, actual, declared } => {
                let mut m = "integrity check failed for ".to_owned();
                m.append(entry_path.as_str());
                m.append(": file sha256=");
                m.append(actual.as_str());
                m.append(" but manifest says ");
                m.append(declared.as_str());
                m.append(". The pack is corrupted (truncated download? bit rot? tampered?).");
                m
            },
        }
    }
}

/// Whether a part of `path`, between separators, is `..`.
pub open spec fn has_parent_part(path: Seq<char>) -> bool {
    exists|i: int|
        {
            &&& 0 <= i < path.len() - 1
            &&& #[trigger] path[i] == '.'
            &&& path[i + 1] == '.'
            &&& i == 0 || path[i - 1] == '/'
            &&& i + 2 == path.len() || path[i + 2] == '/'
        }
}

/// An entry that is extracted at all is extracted below the directory: its path is the directory's,
/// then a separator, then parts none of which leads up.
pub proof fn law_extraction_stays_inside(dest_dir: Seq<char>, name: Seq<char>)
    requires
        !is_traversal(name),
    ensures
        ({
            let dest = path::joined(dest_dir, name);
            let below = dest.skip(dest_dir.len() as int);
            &&& dest_dir.is_prefix_of(dest)
            &&& dest_dir.len() == 0 || dest_dir.last() == '/' || below[0] == '/'
            &&& !has_parent_part(below)
        }),
{
    let dest = path::joined(dest_dir, name);
    let below = dest.skip(dest_dir.len() as int);
    assert(dest_dir =~= dest.take(dest_dir.len() as int));
    if has_parent_part(below) {
        let i = choose|i: int|
            {
                &&& 0 <= i < below.len() - 1
                &&& #[trigger] below[i] == '.'
                &&& below[i + 1] == '.'
                &&& i == 0 || below[i - 1] == '/'
                &&& i + 2 == below.len() || below[i + 2] == '/'
            };
        let k = i - (below.len() - name.len());
        assert(below[i] == name[k] && below[i + 1] == name[k + 1]);
    }
}

/// A safe tag names a directory right below the one it is joined to, and no entry of that name is refused.
pub proof fn law_safe_tag_names_a_directory(dest_dir: Seq<char>, tag: Seq<char>)
    requires
        is_safe_tag(tag),
    ensures
        !is_traversal(tag),
        path::file_name_of(path::joined(dest_dir, tag)) == Some(tag),
{
    assert(is_tag_char(tag[0]));
    assert forall|i: int| 0 <= i < tag.len() implies tag[i] != '/' && tag[i] != '.' by {
        assert(is_tag_char(tag[i]));
    }
    path::law_plain_name(tag);
    path::law_join_keeps_name(dest_dir, tag);
}

/// Whether a character code is that of an ASCII letter, an ASCII digit, a hyphen or an underscore.
pub open spec fn is_tag_code(code: u32) -> bool {
    ||| 48 <= code <= 57
    ||| 65 <= code <= 90
    ||| 97 <= code <= 122
    ||| code == 45
    ||| code == 95
}

/// Whether a text is 1 to 64 such characters.
pub open spec fn is_tag_text(tag: Seq<char>) -> bool {
    &&& 1 <= tag.len() <= 64
    &&& forall|i: int| 0 <= i < tag.len() ==> is_tag_code(#[trigger] tag[i] as u32)
}

proof fn lemma_safe_tags(tag: Seq<char>)
    ensures
        is_safe_tag(tag) <==> is_tag_text(tag),
{
    if is_safe_tag(tag) {
        assert forall|i: int| 0 <= i < tag.len() implies is_tag_code(#[trigger] tag[i] as u32) by {
            assert(is_tag_char(tag[i]));
        }
    }
    if is_tag_text(tag) {
        assert forall|i: int| 0 <= i < tag.len() implies is_tag_char(#[trigger] tag[i]) by {
            let c = tag[i];
            assert(is_tag_code(c as u32));
            vstd::utf8::char_u32_cast(c, c as u32);
            vstd::utf8::char_u32_cast('-', 45);
            vstd::utf8::char_u32_cast('_', 95);
        }
    }
}

/// A tag is safe if and only if it is 1 to 64 ASCII letters, ASCII digits, hyphens and underscores.
pub proof fn law_safe_tags_are_these(tag: &str, safe: bool)
    requires
        call_ensures(is_safe_pack_tag, (tag,), safe),
    ensures
        safe <==> is_tag_text(tag@),
{
    lemma_safe_tags(tag@);
}

/// A manifest is accepted if and only if its format is at most the second and each of its links has a tag of
/// 1 to 64 ASCII letters, ASCII digits, hyphens and underscores. It is kept as it is, and one that is not
/// accepted changes nothing.
pub proof fn law_good_manifests_are_accepted(u: &mut Unpacking, m: Manifest, accepted: Result<(), UnpackError>)
    requires
        call_ensures(Unpacking::on_manifest, (u, m), accepted),
    ensures
        accepted is Ok <==> {
            &&& m.forkd_pack_version <= 2
            &&& forall|i: int| 0 <= i < m.chain@.len() ==> is_tag_text((#[trigger] m.chain@[i]).tag@)
        },
        accepted matches Err(e) ==> if m.forkd_pack_version > 2 {
            e matches UnpackError::TooNew { version } && version == m.forkd_pack_version
        } else {
            e matches UnpackError::UnsafeTag { tag } && exists|i: int|
                0 <= i < m.chain@.len() && (#[trigger] m.chain@[i]).tag@ == tag@ && !is_tag_text(tag@) && forall|j: int|
                    0 <= j < i ==> is_tag_text((#[trigger] m.chain@[j]).tag@)
        },
        final(u)@.manifest == (if accepted is Ok {
            Some(m@)
        } else {
            old(u)@.manifest
        }),
        final(u)@.dest_dir == old(u)@.dest_dir,
        final(u)@.extracted == old(u)@.extracted,
{
    assert forall|i: int| 0 <= i < m.chain@.len() implies (#[trigger] m.chain@[i]).tag@ == m@.chain[i].tag
        && is_safe_tag(m@.chain[i].tag) == is_tag_text(m.chain@[i].tag@) by {
        lemma_safe_tags(m.chain@[i].tag@);
    }
    match accepted {
        Ok(_) => {
            assert forall|i: int| 0 <= i < m.chain@.len() implies is_tag_text((#[trigger] m.chain@[i]).tag@) by {
                assert(is_safe_tag(m@.chain[i].tag));
            }
        },
        Err(UnpackError::UnsafeTag { tag }) => {
            let i = choose|i: int| #[trigger] first_unsafe(m@, i) && tag@ == m@.chain[i].tag;
            assert(m.chain@[i].tag@ == tag@);
            assert forall|j: int| 0 <= j < i implies is_tag_text((#[trigger] m.chain@[j]).tag@) by {
                assert(is_safe_tag(m@.chain[j].tag));
            }
        },
        Err(_) => {},
    }
}

/// Reading a pack begins with no manifest and nothing extracted, and counts each entry that is.
pub proof fn law_reading_begins_empty(dest_dir: &str, u: Unpacking)
    requires
        call_ensures(unpack, (dest_dir,), u),
    ensures
        u@.dest_dir == dest_dir@,
        u@.manifest is None,
        u@.extracted == 0,
{
}

/// An entry that was extracted is counted, and changes nothing else.
pub proof fn law_extracted_entries_are_counted(u: &mut Unpacking)
    requires
        call_ensures(Unpacking::extracted, (u,), ()),
    ensures
        final(u)@.extracted == old(u)@.extracted + 1,
        final(u)@.manifest == old(u)@.manifest,
        final(u)@.dest_dir == old(u)@.dest_dir,
{
}

/// An entry is refused if and only if its name starts with a separator or has two dots in a row. The one
/// called `manifest.toml` is read as the manifest, and each other goes to the place of its name below the
/// directory.
pub proof fn law_entries_go_below_the_directory(u: &Unpacking, name: &str, action: Result<EntryAction, UnpackError>)
    requires
        call_ensures(Unpacking::on_entry, (u, name), action),
    ensures
        action is Err <==> {
            ||| name@.len() > 0 && name@[0] == '/'
            ||| exists|i: int| 0 <= i && i + 1 < name@.len() && #[trigger] name@[i] == '.' && name@[i + 1] == '.'
        },
        action matches Err(e) ==> (e matches UnpackError::Traversal { name: n } && n@ == name@),
        action matches Ok(EntryAction::ReadManifest) <==> name@ == "manifest.toml"@,
        action matches Ok(EntryAction::Extract { dest }) ==> {
            let dir = u@.dest_dir;
            dest@ == (if dir.len() == 0 || dir.last() == '/' {
                dir + name@
            } else {
                dir + seq!['/'] + name@
            })
        },
{
    reveal_strlit("manifest.toml");
    if name@ == "manifest.toml"@ {
        assert(!has_dot_dot(name@));
    }
    if let Ok(EntryAction::Extract { dest }) = action {
        let dir = u@.dest_dir;
        assert(dir.push('/') + name@ =~= dir + seq!['/'] + name@);
    }
}

/// Whether a step checks the file at `path` against `entry`.
pub open spec fn is_check(step: UnpackStep, path: Seq<char>, entry: FileEntry) -> bool {
    &&& step matches UnpackStep::Verify { path: p, entry: e }
    &&& p@ == path
    &&& e.path@ == entry.path@
    &&& e.size == entry.size
    &&& e.sha256@ == entry.sha256@
}

/// Whether a step relocates the metadata in `dir`.
pub open spec fn is_relocation(step: UnpackStep, dir: Seq<char>) -> bool {
    step matches UnpackStep::Relocate { dir: d } && d@ == dir
}

/// How many steps come before those of link `i`: one for each file of the links before it, and one for each
/// of these links.
pub open spec fn steps_before(chain: Seq<manifest::ChainLinkMeta>, i: int) -> int
    decreases i,
{
    if i <= 0 {
        0
    } else {
        steps_before(chain, i - 1) + chain[i - 1].files@.len() + 1
    }
}

/// Whether the steps of a link stand at `at`: a check for each of its files, and then its relocation.
spec fn has_link_steps(steps: Seq<StepView>, at: int, dest_dir: Seq<char>, link: manifest::ChainLinkMeta) -> bool {
    let dir = path::joined(dest_dir, link.tag@);
    let n = link.files@.len() as int;
    &&& 0 <= at
    &&& at + n < steps.len()
    &&& forall|f: int|
        0 <= f < n ==> steps[at + f] == (StepView::Verify {
            path: path::joined(dir, (#[trigger] link.files@[f]).path@),
            entry: link.files@[f]@,
        })
    &&& steps[at + n] == (StepView::Relocate { dir })
}

#[verifier::spinoff_prover]
#[verifier::rlimit(50)]
proof fn lemma_chain_steps(dest_dir: Seq<char>, chain: Seq<manifest::ChainLinkMeta>, n: int)
    requires
        0 <= n <= chain.len(),
    ensures
        ({
            let steps = chain_steps(dest_dir, manifest::links_of(chain).take(n));
            &&& steps.len() == steps_before(chain, n)
            &&& forall|i: int|
                0 <= i < n ==> has_link_steps(steps, steps_before(chain, i), dest_dir, #[trigger] chain[i])
        }),
    decreases n,
{
    let links = manifest::links_of(chain);
    let steps = chain_steps(dest_dir, links.take(n));
    if n > 0 {
        lemma_chain_steps(dest_dir, chain, n - 1);
        let before = chain_steps(dest_dir, links.take(n - 1));
        let last = chain[n - 1];
        assert(links.take(n).drop_last() =~= links.take(n - 1));
        assert(links.take(n).last() == last@);
        let own = dir_steps(path::joined(dest_dir, last.tag@), manifest::entries_of(last.files@));
        assert(steps == before + own);
        assert(own.len() == last.files@.len() + 1);
        assert forall|i: int| 0 <= i < n implies has_link_steps(
            steps,
            steps_before(chain, i),
            dest_dir,
            #[trigger] chain[i],
        ) by {
            if i < n - 1 {
                lemma_steps_stay(before, own, steps_before(chain, i), dest_dir, chain[i]);
            } else {
                lemma_own_steps(before, dest_dir, last);
            }
        }
    } else {
        assert(links.take(0) =~= Seq::<manifest::ChainLinkView>::empty());
    }
}

proof fn lemma_steps_stay(
    before: Seq<StepView>,
    own: Seq<StepView>,
    at: int,
    dest_dir: Seq<char>,
    link: manifest::ChainLinkMeta,
)
    requires
        has_link_steps(before, at, dest_dir, link),
    ensures
        has_link_steps(before + own, at, dest_dir, link),
{
    let steps = before + own;
    let dir = path::joined(dest_dir, link.tag@);
    assert forall|f: int| 0 <= f < link.files@.len() implies steps[at + f] == (StepView::Verify {
        path: path::joined(dir, (#[trigger] link.files@[f]).path@),
        entry: link.files@[f]@,
    }) by {
        assert(steps[at + f] == before[at + f]);
    }
}

proof fn lemma_own_steps(before: Seq<StepView>, dest_dir: Seq<char>, link: manifest::ChainLinkMeta)
    ensures
        has_link_steps(
            before + dir_steps(path::joined(dest_dir, link.tag@), manifest::entries_of(link.files@)),
            before.len() as int,
            dest_dir,
            link,
        ),
{
    let dir = path::joined(dest_dir, link.tag@);
    let own = dir_steps(dir, manifest::entries_of(link.files@));
    let steps = before + own;
    let at = before.len() as int;
    assert forall|f: int| 0 <= f < link.files@.len() implies steps[at + f] == (StepView::Verify {
        path: path::joined(dir, (#[trigger] link.files@[f]).path@),
        entry: link.files@[f]@,
    }) by {
        assert(steps[at + f] == own[f]);
        assert(manifest::entries_of(link.files@)[f] == link.files@[f]@);
    }
    assert(steps[at + link.files@.len()] == own[link.files@.len() as int]);
}

/// When all entries have been dealt with, a pack without a manifest is refused. For one with a manifest each
/// file that this declares is checked, once and in order, in the directory of its snapshot, and after those
/// of a snapshot its metadata is relocated: once for each link of a chain, or once for the directory itself.
#[verifier::spinoff_prover]
#[verifier::rlimit(50)]
pub proof fn law_every_declared_file_is_checked(u: Unpacking, done: Result<(Manifest, Vec<UnpackStep>), UnpackError>)
    requires
        call_ensures(Unpacking::finish, (u,), done),
    ensures
        done is Ok <==> u@.manifest is Some,
        done matches Err(e) ==> (e matches UnpackError::MissingManifest { extracted } && extracted == u@.extracted),
        done matches Ok(d) ==> {
            let dest = u@.dest_dir;
            let files = d.0.files@;
            let chain = d.0.chain@;
            let steps = d.1@;
            &&& Some(d.0@) == u@.manifest
            &&& chain.len() == 0 ==> {
                &&& steps.len() == files.len() + 1
                &&& forall|f: int|
                    0 <= f < files.len() ==> is_check(
                        steps[f],
                        path::joined(dest, (#[trigger] files[f]).path@),
                        files[f],
                    )
                &&& is_relocation(steps[files.len() as int], dest)
            }
            &&& chain.len() > 0 ==> {
                &&& steps.len() == steps_before(chain, chain.len() as int)
                &&& forall|i: int, f: int|
                    0 <= i < chain.len() && 0 <= f < chain[i].files@.len() ==> is_check(
                        steps[steps_before(chain, i) + f],
                        path::joined(path::joined(dest, chain[i].tag@), (#[trigger] chain[i].files@[f]).path@),
                        chain[i].files@[f],
                    )
                &&& forall|i: int|
                    0 <= i < chain.len() ==> is_relocation(
                        steps[steps_before(chain, i) + (#[trigger] chain[i]).files@.len()],
                        path::joined(dest, chain[i].tag@),
                    )
            }
        },
{
    if let Ok(d) = done {
        let dest = u@.dest_dir;
        let m = d.0@;
        let files = d.0.files@;
        let chain = d.0.chain@;
        let steps = d.1@;
        let views = closing_steps(dest, m);
        assert(steps_of(steps) == views);
        assert forall|k: int| 0 <= k < steps.len() implies (#[trigger] steps[k])@ == views[k] by {
            assert(steps_of(steps)[k] == steps[k]@);
        }
        assert(steps.len() == views.len());
        if chain.len() == 0 {
            assert forall|f: int| 0 <= f < files.len() implies is_check(
                steps[f],
                path::joined(dest, (#[trigger] files[f]).path@),
                files[f],
            ) by {
                assert(m.files[f] == files[f]@);
                assert(steps[f]@ == views[f]);
            }
            assert(steps[files.len() as int]@ == views[files.len() as int]);
        } else {
            let n = chain.len() as int;
            lemma_chain_steps(dest, chain, n);
            assert(manifest::links_of(chain).take(n) =~= m.chain);
            assert forall|i: int, f: int| 0 <= i < chain.len() && 0 <= f < chain[i].files@.len() implies is_check(
                steps[steps_before(chain, i) + f],
                path::joined(path::joined(dest, chain[i].tag@), (#[trigger] chain[i].files@[f]).path@),
                chain[i].files@[f],
            ) by {
                assert(has_link_steps(views, steps_before(chain, i), dest, chain[i]));
                let k = steps_before(chain, i) + f;
                assert(steps[k]@ == views[k]);
            }
            assert forall|i: int| 0 <= i < chain.len() implies is_relocation(
                steps[steps_before(chain, i) + (#[trigger] chain[i]).files@.len()],
                path::joined(dest, chain[i].tag@),
            ) by {
                assert(has_link_steps(views, steps_before(chain, i), dest, chain[i]));
                let k = steps_before(chain, i) + chain[i].files@.len();
                assert(steps[k]@ == views[k]);
            }
        }
    }
}

/// Where hashing a file always gives the same result, a file is accepted if and only if it can be hashed and
/// has the hash that the manifest declares.
pub proof fn law_file_is_accepted_iff_its_hash_is_declared<H: Fn(&str) -> Result<String, String>>(
    path: &str,
    entry: &FileEntry,
    sha256_file: &H,
    checked: Result<(), VerifyError>,
    digest_of: Map<Seq<char>, Seq<char>>,
)
    requires
        call_ensures(verify_one::<H>, (path, entry, sha256_file), checked),
        forall|p: &str, r: Result<String, String>| #[trigger]
            call_ensures(*sha256_file, (p,), r) ==> match r {
                Ok(d) => digest_of.contains_key(p@) && d@ == digest_of[p@],
                Err(_) => !digest_of.contains_key(p@),
            },
    ensures
        checked is Ok <==> digest_of.contains_key(path@) && digest_of[path@] == entry.sha256@,
        checked matches Err(e) ==> match e {
            VerifyError::Unreadable { path: p, reason } => {
                &&& p@ == path@ && !digest_of.contains_key(path@)
                &&& exists|q: &str, e: String|
                    q@ == path@ && e@ == reason@ && #[trigger] call_ensures(
                        *sha256_file,
                        (q,),
                        Err::<String, String>(e),
                    )
            },
            VerifyError::Mismatch { entry_path, actual, declared } => {
                &&& digest_of.contains_key(path@)
                &&& entry_path@ == entry.path@
                &&& actual@ == digest_of[path@]
                &&& declared@ == entry.sha256@
            },
        },
{
}

/// The error for a manifest that could not be read tells how many bytes its text takes, the longest beginning
/// of it with no more than forty characters, and why.
pub proof fn law_bad_manifest_is_described(body: &str, reason: String, error: UnpackError)
    requires
        call_ensures(bad_manifest, (body, reason), error),
    ensures
        error matches UnpackError::BadManifest { bytes, start, reason: r } && {
            &&& bytes == text::utf8_len(body@)
            &&& start@.is_prefix_of(body@)
            &&& start@.len() == body@.len() || (start@.len() == 40 && body@.len() > 40)
            &&& start@.len() <= 40
            &&& r@ == reason@
        },
{
}

/// The message of an error tells all that the error holds.
pub proof fn law_unpack_errors_name_what_failed(e: &UnpackError, m: String)
    requires
        call_ensures(UnpackError::message, (e,), m),
    ensures
        match *e {
            UnpackError::Traversal { name } => text::mentions(m@, name@),
            UnpackError::BadManifest { bytes, start, reason } => {
                &&& text::mentions_number(m@, bytes as nat)
                &&& text::mentions(m@, debug_text(start@))
                &&& text::mentions(m@, reason@)
            },
            UnpackError::TooNew { version } => text::mentions_number(m@, version as nat),
            UnpackError::UnsafeTag { tag } => text::mentions(m@, debug_text(tag@)),
            UnpackError::MissingManifest { extracted } => text::mentions_number(m@, extracted as nat),
        },
{
    match *e {
        UnpackError::Traversal { name } => {
            text::lemma_mentions(
                "malformed pack: refusing entry with traversal path: "@,
                name@,
                Seq::<char>::empty(),
                m@,
            );
        },
        UnpackError::BadManifest { bytes, start, reason } => {
            text::lemma_mentions_number(
                "parse manifest.toml inside the pack (it is "@,
                bytes as nat,
                " bytes, starts with "@ + debug_text(start@) + "): "@ + reason@,
                m@,
            );
            text::lemma_mentions(
                "parse manifest.toml inside the pack (it is "@ + text::decimal(bytes as nat)
                    + " bytes, starts with "@,
                debug_text(start@),
                "): "@ + reason@,
                m@,
            );
            text::lemma_mentions(
                "parse manifest.toml inside the pack (it is "@ + text::decimal(bytes as nat)
                    + " bytes, starts with "@ + debug_text(start@) + "): "@,
                reason@,
                Seq::<char>::empty(),
                m@,
            );
        },
        UnpackError::TooNew { version } => {
            text::lemma_mentions_number(
                "pack format version "@,
                version as nat,
                " is newer than this forkd supports (max 2). Upgrade forkd or repack with an older version."@,
                m@,
            );
        },
        UnpackError::UnsafeTag { tag } => {
            text::lemma_mentions(
                "v2 pack chain link declares unsafe tag "@,
                debug_text(tag@),
                " — refusing to extract"@,
                m@,
            );
        },
        UnpackError::MissingManifest { extracted } => {
            text::lemma_mentions_number(
                "pack is missing manifest.toml — not a valid forkd snapshot pack (extracted "@,
                extracted as nat,
                " entries before noticing)"@,
                m@,
            );
        },
    }
}

/// The message of an error tells all that the error holds.
pub proof fn law_check_errors_name_what_failed(e: &VerifyError, m: String)
    requires
        call_ensures(VerifyError::message, (e,), m),
    ensures
        match *e {
            VerifyError::Unreadable { path, reason } => {
                &&& text::mentions(m@, path@)
                &&& text::mentions(m@, reason@)
            },
            VerifyError::Mismatch { entry_path, actual, declared } => {
                &&& text::mentions(m@, entry_path@)
                &&& text::mentions(m@, actual@)
                &&& text::mentions(m@, declared@)
            },
        },
{
    match *e {
        VerifyError::Unreadable { path, reason } => {
            text::lemma_mentions("hash "@, path@, " for integrity check (declared in manifest): "@ + reason@, m@);
            text::lemma_mentions(
                "hash "@ + path@ + " for integrity check (declared in manifest): "@,
                reason@,
                Seq::<char>::empty(),
                m@,
            );
        },
        VerifyError::Mismatch { entry_path, actual, declared } => {
            text::lemma_mentions(
                "integrity check failed for "@,
                entry_path@,
                ": file sha256="@ + actual@ + " but manifest says "@ + declared@
                    + ". The pack is corrupted (truncated download? bit rot? tampered?)."@,
                m@,
            );
            text::lemma_mentions(
                "integrity check failed for "@ + entry_path@ + ": file sha256="@,
                actual@,
                " but manifest says "@ + declared@
                    + ". The pack is corrupted (truncated download? bit rot? tampered?)."@,
                m@,
            );
            text::lemma_mentions(
                "integrity check failed for "@ + entry_path@ + ": file sha256="@ + actual@ + " but manifest says "@,
                declared@,
                ". The pack is corrupted (truncated download? bit rot? tampered?)."@,
                m@,
            );
        },
    }
}

} // verus!
