//! What a pack says of itself: the contents of its `manifest.toml`.

use crate::snapshot;
use vstd::prelude::*;

verus! {

/// The pack format that chained snapshots are written in.
pub const PACK_FORMAT_VERSION: u32 = 2;

/// The newest pack format that can be read.
pub const MAX_SUPPORTED_PACK_VERSION: u32 = 2;

/// The pack format that a base is written in, so that older readers can read it.
pub const PACK_FORMAT_VERSION_V1: u32 = 1;

/// The contents of `manifest.toml`.
#[derive(Clone, Debug)]
pub struct Manifest {
    /// The pack format.
    pub forkd_pack_version: u32,
    /// The tag of the snapshot, or of the last link of the chain.
    pub tag: String,
    /// What the snapshot is, in words.
    pub description: Option<String>,
    /// The image the snapshot was made from.
    pub base_image: Option<String>,
    /// When the pack was made.
    pub created_at: String,
    /// The version of the program that made it.
    pub forkd_version: String,
    /// The parent of the head of the chain. `None` for a base.
    pub parent_tag: Option<String>,
    /// The files of a pack with a single snapshot.
    pub files: Vec<FileEntry>,
    /// The links of a pack with a chain, root first. Empty for a single snapshot.
    pub chain: Vec<ChainLinkMeta>,
}

/// A file of a pack.
#[derive(Clone, Debug)]
pub struct FileEntry {
    pub path: String,
    pub size: u64,
    pub sha256: String,
}

/// A link of a chain. Its files lie under `<tag>/` in the pack.
#[derive(Clone, Debug)]
pub struct ChainLinkMeta {
    pub tag: String,
    /// The link before this one. `None` for the root.
    pub parent_tag: Option<String>,
    /// SHA-256 of the parent's memory when this link was taken.
    pub parent_content_hash: Option<String>,
    pub files: Vec<FileEntry>,
}

/// What a [`FileEntry`] holds.
#[verifier::ext_equal]
pub struct FileEntryView {
    pub path: Seq<char>,
    pub size: u64,
    pub sha256: Seq<char>,
}

/// What a [`ChainLinkMeta`] holds.
#[verifier::ext_equal]
pub struct ChainLinkView {
    pub tag: Seq<char>,
    pub parent_tag: Option<Seq<char>>,
    pub parent_content_hash: Option<Seq<char>>,
    pub files: Seq<FileEntryView>,
}

/// What a [`Manifest`] holds.
#[verifier::ext_equal]
pub struct ManifestView {
    pub forkd_pack_version: u32,
    pub tag: Seq<char>,
    pub description: Option<Seq<char>>,
    pub base_image: Option<Seq<char>>,
    pub created_at: Seq<char>,
    pub forkd_version: Seq<char>,
    pub parent_tag: Option<Seq<char>>,
    pub files: Seq<FileEntryView>,
    pub chain: Seq<ChainLinkView>,
}

/// What a list of files holds.
pub open spec fn entries_of(files: Seq<FileEntry>) -> Seq<FileEntryView> {
    files.map_values(|f: FileEntry| f@)
}

/// What a list of links holds.
pub open spec fn links_of(chain: Seq<ChainLinkMeta>) -> Seq<ChainLinkView> {
    chain.map_values(|l: ChainLinkMeta| l@)
}

impl View for FileEntry {
    type V = FileEntryView;

    open spec fn view(&self) -> FileEntryView {
        FileEntryView { path: self.path@, size: self.size, sha256: self.sha256@ }
    }
}

impl View for ChainLinkMeta {
    type V = ChainLinkView;

    open spec fn view(&self) -> ChainLinkView {
        ChainLinkView {
            tag: self.tag@,
            parent_tag: snapshot::opt_text(self.parent_tag),
            parent_content_hash: snapshot::opt_text(self.parent_content_hash),
            files: entries_of(self.files@),
        }
    }
}

impl View for Manifest {
    type V = ManifestView;

    open spec fn view(&self) -> ManifestView {
        ManifestView {
            forkd_pack_version: self.forkd_pack_version,
            tag: self.tag@,
            description: snapshot::opt_text(self.description),
            base_image: snapshot::opt_text(self.base_image),
            created_at: self.created_at@,
            forkd_version: self.forkd_version@,
            parent_tag: snapshot::opt_text(self.parent_tag),
            files: entries_of(self.files@),
            chain: links_of(self.chain@),
        }
    }
}

/// Where a file of a link lies in a pack.
pub open spec fn link_file(tag: Seq<char>, path: Seq<char>) -> Seq<char> {
    tag + "/"@ + path
}

/// Where the files of a link lie in a pack, in order.
pub open spec fn link_names(link: ChainLinkView) -> Seq<Seq<char>> {
    Seq::new(link.files.len(), |i: int| link_file(link.tag, link.files[i].path))
}

/// Where the files of some links lie in a pack, in order.
pub open spec fn chain_names(chain: Seq<ChainLinkView>) -> Seq<Seq<char>>
    decreases chain.len(),
{
    if chain.len() == 0 {
        Seq::empty()
    } else {
        chain_names(chain.drop_last()) + link_names(chain.last())
    }
}

impl ManifestView {
    /// Where the files that the manifest declares lie in the pack, in order.
    pub open spec fn declared(self) -> Seq<Seq<char>> {
        if self.chain.len() == 0 {
            Seq::new(self.files.len(), |i: int| self.files[i].path)
        } else {
            chain_names(self.chain)
        }
    }
}

/// Whether two lists of files are the same, file by file.
pub open spec fn same_files(a: Seq<FileEntry>, b: Seq<FileEntry>) -> bool {
    &&& a.len() == b.len()
    &&& forall|i: int|
        0 <= i < a.len() ==> (#[trigger] a[i]).path@ == b[i].path@ && a[i].size == b[i].size && a[i].sha256@ == b[i].sha256@
}

proof fn lemma_same_files(a: Seq<FileEntry>, b: Seq<FileEntry>)
    ensures
        entries_of(a) == entries_of(b) <==> same_files(a, b),
{
    if entries_of(a) == entries_of(b) {
        assert(entries_of(a).len() == a.len() && entries_of(b).len() == b.len());
        assert forall|i: int| 0 <= i < a.len() implies (#[trigger] a[i]).path@ == b[i].path@ && a[i].size == b[i].size
            && a[i].sha256@ == b[i].sha256@ by {
            assert(entries_of(a)[i] == entries_of(b)[i]);
        }
    }
    if same_files(a, b) {
        assert forall|i: int| 0 <= i < a.len() implies entries_of(a)[i] == entries_of(b)[i] by {
            assert(a[i].path@ == b[i].path@);
        }
        assert(entries_of(a) =~= entries_of(b));
    }
}

/// Whether two links are the same, field by field.
pub open spec fn same_link(a: ChainLinkMeta, b: ChainLinkMeta) -> bool {
    &&& a.tag@ == b.tag@
    &&& snapshot::same_opt(a.parent_tag, b.parent_tag)
    &&& snapshot::same_opt(a.parent_content_hash, b.parent_content_hash)
    &&& same_files(a.files@, b.files@)
}

proof fn lemma_same_link(a: ChainLinkMeta, b: ChainLinkMeta)
    ensures
        a@ == b@ <==> same_link(a, b),
{
    lemma_same_files(a.files@, b.files@);
}

/// What manifests hold is the same if and only if each of their fields is, down to the files of each link.
pub proof fn law_manifests_are_told_apart(a: Manifest, b: Manifest)
    ensures
        a@ == b@ <==> {
            &&& a.forkd_pack_version == b.forkd_pack_version
            &&& a.tag@ == b.tag@
            &&& snapshot::same_opt(a.description, b.description)
            &&& snapshot::same_opt(a.base_image, b.base_image)
            &&& a.created_at@ == b.created_at@
            &&& a.forkd_version@ == b.forkd_version@
            &&& snapshot::same_opt(a.parent_tag, b.parent_tag)
            &&& same_files(a.files@, b.files@)
            &&& a.chain@.len() == b.chain@.len()
            &&& forall|i: int| 0 <= i < a.chain@.len() ==> same_link(#[trigger] a.chain@[i], b.chain@[i])
        },
{
    lemma_same_files(a.files@, b.files@);
    assert(a@.chain.len() == a.chain@.len() && b@.chain.len() == b.chain@.len());
    if a@ == b@ {
        assert forall|i: int| 0 <= i < a.chain@.len() implies same_link(#[trigger] a.chain@[i], b.chain@[i]) by {
            assert(a@.chain[i] == b@.chain[i]);
            lemma_same_link(a.chain@[i], b.chain@[i]);
        }
    }
    if a.chain@.len() == b.chain@.len() && forall|i: int|
        0 <= i < a.chain@.len() ==> same_link(#[trigger] a.chain@[i], b.chain@[i]) {
        assert forall|i: int| 0 <= i < a.chain@.len() implies a@.chain[i] == b@.chain[i] by {
            assert(same_link(a.chain@[i], b.chain@[i]));
            lemma_same_link(a.chain@[i], b.chain@[i]);
        }
        assert(a@.chain =~= b@.chain);
    }
}

} // verus!
