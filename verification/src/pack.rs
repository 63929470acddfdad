//! Packs: what goes into one, and under which names.

use crate::calendar;
use crate::manifest;
use crate::manifest::{ChainLinkMeta, FileEntry, FileEntryView, Manifest, ManifestView, PACK_FORMAT_VERSION, PACK_FORMAT_VERSION_V1};
use crate::path;
use crate::sequence::reversed;
use crate::snapshot;
use crate::snapshot::{copy_opt, Snapshot, SnapshotView};
use crate::text;
use vstd::prelude::*;

verus! {

/// The files of a snapshot directory, the largest last.
pub open spec fn snapshot_files() -> Seq<Seq<char>> {
    seq!["snapshot.json"@, "vmstate"@, "rootfs.ext4"@, "memory.bin"@]
}

/// The name of a file of a snapshot directory.
pub fn snapshot_file(i: usize) -> (name: &'static str)
    requires
        i < 4,
    ensures
        name@ == snapshot_files()[i as int],
{
    if i == 0 {
        "snapshot.json"
    } else if i == 1 {
        "vmstate"
    } else if i == 2 {
        "rootfs.ext4"
    } else {
        "memory.bin"
    }
}

/// What there is on disk: the metadata a directory holds, whether there is a file at a path, and
/// size and hash of the file there, or why it cannot be read.
pub struct Disk {
    pub meta: spec_fn(Seq<char>) -> Option<SnapshotView>,
    pub present: spec_fn(Seq<char>) -> bool,
    pub file: spec_fn(Seq<char>) -> Result<(u64, Seq<char>), Seq<char>>,
}

/// What an optional snapshot holds.
pub open spec fn opt_snapshot(s: Option<Snapshot>) -> Option<SnapshotView> {
    match s {
        Some(v) => Some(v@),
        None => None,
    }
}

/// What a description of a file holds.
pub open spec fn described(r: Result<(u64, String), String>) -> Result<(u64, Seq<char>), Seq<char>> {
    match r {
        Ok(f) => Ok((f.0, f.1@)),
        Err(e) => Err(e@),
    }
}

/// Whether `exists` and `describe` show what is on `disk`.
pub open spec fn shows_files<E: Fn(&str) -> bool, D: Fn(&str) -> Result<(u64, String), String>>(
    exists: E,
    describe: D,
    disk: Disk,
) -> bool {
    &&& forall|p: &str, r: bool| #[trigger] call_ensures(exists, (p,), r) ==> r == (disk.present)(p@)
    &&& forall|p: &str, r: Result<(u64, String), String>| #[trigger]
        call_ensures(describe, (p,), r) ==> described(r) == (disk.file)(p@)
}

/// Whether `read_meta`, `exists` and `describe` show what is on `disk`.
pub open spec fn shows<
    R: Fn(&str) -> Option<Snapshot>,
    E: Fn(&str) -> bool,
    D: Fn(&str) -> Result<(u64, String), String>,
>(read_meta: R, exists: E, describe: D, disk: Disk) -> bool {
    &&& forall|p: &str, r: Option<Snapshot>| #[trigger]
        call_ensures(read_meta, (p,), r) ==> opt_snapshot(r) == (disk.meta)(p@)
    &&& shows_files(exists, describe, disk)
}

/// The first `n` kinds of file of a snapshot directory that are there, with size and hash, or why one
/// of them cannot be read.
pub open spec fn listing(disk: Disk, dir: Seq<char>, n: nat) -> Result<Seq<FileEntryView>, Seq<char>>
    decreases n,
{
    if n == 0 {
        Ok(Seq::empty())
    } else {
        let name = snapshot_files()[n - 1];
        let at = path::joined(dir, name);
        match listing(disk, dir, (n - 1) as nat) {
            Err(e) => Err(e),
            Ok(files) => if !(disk.present)(at) {
                Ok(files)
            } else {
                match (disk.file)(at) {
                    Ok(f) => Ok(files.push(FileEntryView { path: name, size: f.0, sha256: f.1 })),
                    Err(e) => Err(e),
                }
            },
        }
    }
}

/// Lists the files of a snapshot directory. Those that are not there are left out.
fn list_files<E: Fn(&str) -> bool, D: Fn(&str) -> Result<(u64, String), String>>(
    dir: &str,
    exists: &E,
    describe: &D,
) -> (listed: Result<Vec<FileEntry>, String>)
    requires
        forall|p: &str| call_requires(*exists, (p,)),
        forall|p: &str| call_requires(*describe, (p,)),
    ensures
        forall|disk: Disk| #[trigger]
            shows_files(*exists, *describe, disk) ==> match listed {
                Ok(files) => listing(disk, dir@, 4) == Ok::<Seq<FileEntryView>, Seq<char>>(
                    manifest::entries_of(files@),
                ),
                Err(e) => listing(disk, dir@, 4) == Err::<Seq<FileEntryView>, Seq<char>>(e@),
            },
{
    let mut files: Vec<FileEntry> = Vec::new();
    let mut i: usize = 0;
    assert(manifest::entries_of(files@) =~= Seq::<FileEntryView>::empty());
    while i < 4
        invariant
            i <= 4,
            forall|p: &str| call_requires(*exists, (p,)),
            forall|p: &str| call_requires(*describe, (p,)),
            forall|disk: Disk| #[trigger]
                shows_files(*exists, *describe, disk) ==> listing(disk, dir@, i as nat) == Ok::<
                    Seq<FileEntryView>,
                    Seq<char>,
                >(manifest::entries_of(files@)),
        decreases 4 - i,
    {
        let name = snapshot_file(i);
        let at = path::join(dir, name);
        let ghost before = manifest::entries_of(files@);
        if (*exists)(at.as_str()) {
            let answer = (*describe)(at.as_str());
            match answer {
                Ok(f) => {
                    files.push(FileEntry { path: name.to_owned(), size: f.0, sha256: f.1 });
                    assert(manifest::entries_of(files@) =~= before.push(files@.last()@));
                },
                Err(e) => {
                    proof {
                        assert forall|disk: Disk| #[trigger] shows_files(*exists, *describe, disk) implies listing(
                            disk,
                            dir@,
                            4,
                        ) == Err::<Seq<FileEntryView>, Seq<char>>(e@) by {
                            assert(listing(disk, dir@, (i + 1) as nat) == Err::<Seq<FileEntryView>, Seq<char>>(e@));
                            lemma_listing_stops(disk, dir@, (i + 1) as nat, 4);
                        }
                    }
                    return Err(e);
                },
            }
        }
        i = i + 1;
    }
    Ok(files)
}

proof fn lemma_listing_stops(disk: Disk, dir: Seq<char>, n: nat, m: nat)
    requires
        n <= m,
        listing(disk, dir, n) is Err,
    ensures
        listing(disk, dir, m) == listing(disk, dir, n),
    decreases m,
{
    if n < m {
        lemma_listing_stops(disk, dir, n, (m - 1) as nat);
    }
}

/// A file to put into a pack: its name there, and where it lies now.
#[derive(Clone, Debug)]
pub struct PackSource {
    pub name: String,
    pub path: String,
}

/// What is to be packed: the manifest, which comes first, and the files after it, in order.
#[derive(Clone, Debug)]
pub struct PackPlan {
    pub manifest: Manifest,
    pub sources: Vec<PackSource>,
}

/// Name and place of each file to put into a pack.
pub open spec fn sources_of(sources: Seq<PackSource>) -> Seq<(Seq<char>, Seq<char>)> {
    sources.map_values(|s: PackSource| (s.name@, s.path@))
}

/// Why nothing could be packed.
#[derive(Clone, Debug)]
pub enum PackError {
    /// A chained snapshot whose directory is in no other has nowhere to look for its parents.
    NoParentDir { dir: String },
    NoVmstate { dir: String },
    NoMemory { dir: String },
    /// A file could not be measured or hashed.
    Unreadable { reason: String },
    NoDirName { dir: String },
    HeadWithoutMeta { dir: String },
    Cycle { head_tag: String, parent_tag: String },
    MissingParent { head_tag: String, parent_tag: String, dir: String },
    ParentWithoutMeta { parent_tag: String, dir: String },
    LinkWithoutMemory { link_tag: String, dir: String },
}

/// What the caller says of a pack.
pub struct PackInfo {
    /// What a pack of a single snapshot goes by, and what errors call the head of a chain.
    pub tag: Seq<char>,
    pub description: Option<Seq<char>>,
    pub base_image: Option<Seq<char>>,
    pub created_at: Seq<char>,
    pub forkd_version: Seq<char>,
}

/// The manifest of a single snapshot.
pub open spec fn single_manifest(info: PackInfo, files: Seq<FileEntryView>) -> ManifestView {
    ManifestView {
        forkd_pack_version: PACK_FORMAT_VERSION_V1,
        tag: info.tag,
        description: info.description,
        base_image: info.base_image,
        created_at: info.created_at,
        forkd_version: info.forkd_version,
        parent_tag: None,
        files,
        chain: Seq::empty(),
    }
}

/// The manifest of a chain, which has at least one link. It goes by the tag of its last link.
pub open spec fn chain_manifest(info: PackInfo, chain: Seq<manifest::ChainLinkView>) -> ManifestView {
    ManifestView {
        forkd_pack_version: PACK_FORMAT_VERSION,
        tag: chain.last().tag,
        description: info.description,
        base_image: info.base_image,
        created_at: info.created_at,
        forkd_version: info.forkd_version,
        parent_tag: chain.last().parent_tag,
        files: Seq::empty(),
        chain,
    }
}

/// The files of a single snapshot: at the top of the pack, from the snapshot's directory.
pub open spec fn single_sources(dir: Seq<char>, files: Seq<FileEntryView>) -> Seq<(Seq<char>, Seq<char>)> {
    Seq::new(files.len(), |i: int| (files[i].path, path::joined(dir, files[i].path)))
}

/// A snapshot of a chain: its tag, its directory, and what that says of it.
pub struct PackLink {
    pub tag: Seq<char>,
    pub dir: Seq<char>,
    pub snap: SnapshotView,
}

/// The files of a link: under its tag in the pack, from its directory.
pub open spec fn link_sources(link: PackLink, files: Seq<FileEntryView>) -> Seq<(Seq<char>, Seq<char>)> {
    Seq::new(
        files.len(),
        |i: int| (manifest::link_file(link.tag, files[i].path), path::joined(link.dir, files[i].path)),
    )
}

/// The files of a snapshot directory that can be read.
pub open spec fn files_in(disk: Disk, dir: Seq<char>) -> Seq<FileEntryView> {
    listing(disk, dir, 4)->Ok_0
}

/// Whether some files include the memory.
pub open spec fn has_memory(files: Seq<FileEntryView>) -> bool {
    exists|i: int| 0 <= i < files.len() && (#[trigger] files[i]).path == "memory.bin"@
}

/// Whether a link can be packed.
pub open spec fn is_packable(disk: Disk, link: PackLink) -> bool {
    listing(disk, link.dir, 4) is Ok && has_memory(files_in(disk, link.dir))
}

/// What the manifest says of a link.
pub open spec fn link_meta(disk: Disk, link: PackLink) -> manifest::ChainLinkView {
    manifest::ChainLinkView {
        tag: link.tag,
        parent_tag: link.snap.parent_tag,
        parent_content_hash: link.snap.parent_content_hash,
        files: files_in(disk, link.dir),
    }
}

/// What the manifest says of some links.
pub open spec fn link_metas(disk: Disk, links: Seq<PackLink>) -> Seq<manifest::ChainLinkView> {
    Seq::new(links.len(), |i: int| link_meta(disk, links[i]))
}

/// The files of some links, in order.
pub open spec fn chain_sources(disk: Disk, links: Seq<PackLink>) -> Seq<(Seq<char>, Seq<char>)>
    decreases links.len(),
{
    if links.len() == 0 {
        Seq::empty()
    } else {
        chain_sources(disk, links.drop_last()) + link_sources(links.last(), files_in(disk, links.last().dir))
    }
}

/// Whether `tag` is the tag of a link of `walk`.
pub open spec fn has_tag(walk: Seq<PackLink>, tag: Seq<char>) -> bool {
    exists|i: int| 0 <= i < walk.len() && (#[trigger] walk[i]).tag == tag
}

/// Whether `walk` follows the parents from `head` on, each in a directory of its own in `root`, and
/// comes by no tag twice.
pub open spec fn is_ancestry(disk: Disk, root: Seq<char>, head: PackLink, walk: Seq<PackLink>) -> bool {
    &&& walk.len() > 0
    &&& walk[0] == head
    &&& forall|i: int|
        0 < i < walk.len() ==> {
            &&& walk[i - 1].snap.parent_tag == Some((#[trigger] walk[i]).tag)
            &&& walk[i].dir == path::joined(root, walk[i].tag)
            &&& (disk.present)(path::joined(walk[i].dir, "vmstate"@))
            &&& (disk.meta)(walk[i].dir) == Some(walk[i].snap)
        }
    &&& forall|i: int, j: int| 0 <= i < j < walk.len() ==> (#[trigger] walk[i]).tag != (#[trigger] walk[j]).tag
}

/// Whether link `k`, root first, is the first that cannot be packed, for the given reason.
pub open spec fn is_first_unpackable(disk: Disk, links: Seq<PackLink>, k: int, error: PackError) -> bool {
    &&& 0 <= k < links.len()
    &&& forall|j: int| 0 <= j < k ==> is_packable(disk, #[trigger] links[j])
    &&& match error {
        PackError::Unreadable { reason } => listing(disk, links[k].dir, 4) == Err::<Seq<FileEntryView>, Seq<char>>(
            reason@,
        ),
        PackError::LinkWithoutMemory { link_tag, dir } => {
            &&& listing(disk, links[k].dir, 4) is Ok
            &&& !has_memory(files_in(disk, links[k].dir))
            &&& link_tag@ == links[k].tag
            &&& dir@ == links[k].dir
        },
        _ => false,
    }
}

/// Whether `walk`, as far as it goes, makes `outcome` the result of packing a chain.
pub open spec fn chain_explains(
    disk: Disk,
    info: PackInfo,
    root: Seq<char>,
    walk: Seq<PackLink>,
    outcome: Result<PackPlan, PackError>,
) -> bool {
    let next = walk.last().snap.parent_tag;
    let links = walk.reverse();
    match outcome {
        Ok(plan) => {
            &&& next is None
            &&& forall|i: int| 0 <= i < links.len() ==> is_packable(disk, #[trigger] links[i])
            &&& plan.manifest@ == chain_manifest(info, link_metas(disk, links))
            &&& sources_of(plan.sources@) == chain_sources(disk, links)
        },
        Err(PackError::Cycle { head_tag, parent_tag }) => {
            &&& next == Some(parent_tag@)
            &&& has_tag(walk, parent_tag@)
            &&& head_tag@ == info.tag
        },
        Err(PackError::MissingParent { head_tag, parent_tag, dir }) => {
            &&& next == Some(parent_tag@)
            &&& !has_tag(walk, parent_tag@)
            &&& head_tag@ == info.tag
            &&& dir@ == path::joined(root, parent_tag@)
            &&& !(disk.present)(path::joined(dir@, "vmstate"@))
        },
        Err(PackError::ParentWithoutMeta { parent_tag, dir }) => {
            &&& next == Some(parent_tag@)
            &&& !has_tag(walk, parent_tag@)
            &&& dir@ == path::joined(root, parent_tag@)
            &&& (disk.present)(path::joined(dir@, "vmstate"@))
            &&& (disk.meta)(dir@) is None
        },
        Err(error) => {
            &&& next is None
            &&& exists|k: int| #[trigger] is_first_unpackable(disk, links, k, error)
        },
    }
}

/// What packing the chain of the snapshot in `head_dir` comes to.
pub open spec fn is_chain_outcome(
    disk: Disk,
    info: PackInfo,
    root: Seq<char>,
    head_dir: Seq<char>,
    outcome: Result<PackPlan, PackError>,
) -> bool {
    match (path::file_name_of(head_dir), (disk.meta)(head_dir)) {
        (None, _) => outcome matches Err(PackError::NoDirName { dir }) && dir@ == head_dir,
        (_, None) => outcome matches Err(PackError::HeadWithoutMeta { dir }) && dir@ == head_dir,
        (Some(tag), Some(snap)) => exists|walk: Seq<PackLink>|
            is_ancestry(disk, root, PackLink { tag, dir: head_dir, snap }, walk) && #[trigger] chain_explains(
                disk,
                info,
                root,
                walk,
                outcome,
            ),
    }
}

/// What packing the snapshot in `snap_dir` comes to: a single snapshot where it has no parent, else
/// the whole chain.
pub open spec fn is_pack_outcome(
    disk: Disk,
    info: PackInfo,
    snap_dir: Seq<char>,
    outcome: Result<PackPlan, PackError>,
) -> bool {
    let chained = (disk.meta)(snap_dir) is Some && (disk.meta)(snap_dir)->0.parent_tag is Some;
    let has_vmstate = (disk.present)(path::joined(snap_dir, "vmstate"@));
    if chained && path::parent_of(snap_dir) is None {
        outcome matches Err(PackError::NoParentDir { dir }) && dir@ == snap_dir
    } else if !has_vmstate {
        outcome matches Err(PackError::NoVmstate { dir }) && dir@ == snap_dir
    } else if chained {
        is_chain_outcome(disk, info, path::parent_of(snap_dir)->0, snap_dir, outcome)
    } else if !(disk.present)(path::joined(snap_dir, "memory.bin"@)) {
        outcome matches Err(PackError::NoMemory { dir }) && dir@ == snap_dir
    } else {
        match outcome {
            Ok(plan) => {
                &&& listing(disk, snap_dir, 4) is Ok
                &&& plan.manifest@ == single_manifest(info, files_in(disk, snap_dir))
                &&& sources_of(plan.sources@) == single_sources(snap_dir, files_in(disk, snap_dir))
            },
            Err(PackError::Unreadable { reason }) => listing(disk, snap_dir, 4) == Err::<
                Seq<FileEntryView>,
                Seq<char>,
            >(reason@),
            Err(_) => false,
        }
    }
}

/// Whether `outcome` is what packing a chain comes to, for every disk that the three functions show.
pub open spec fn is_chain_outcome_of<
    R: Fn(&str) -> Option<Snapshot>,
    E: Fn(&str) -> bool,
    D: Fn(&str) -> Result<(u64, String), String>,
>(
    read_meta: R,
    exists: E,
    describe: D,
    info: PackInfo,
    root: Seq<char>,
    head_dir: Seq<char>,
    outcome: Result<PackPlan, PackError>,
) -> bool {
    forall|disk: Disk| #[trigger]
        shows(read_meta, exists, describe, disk) ==> is_chain_outcome(disk, info, root, head_dir, outcome)
}

/// Whether `outcome` is what packing a snapshot comes to, for every disk that the three functions show.
pub open spec fn is_pack_outcome_of<
    R: Fn(&str) -> Option<Snapshot>,
    E: Fn(&str) -> bool,
    D: Fn(&str) -> Result<(u64, String), String>,
>(
    read_meta: R,
    exists: E,
    describe: D,
    info: PackInfo,
    snap_dir: Seq<char>,
    outcome: Result<PackPlan, PackError>,
) -> bool {
    forall|disk: Disk| #[trigger]
        shows(read_meta, exists, describe, disk) ==> is_pack_outcome(disk, info, snap_dir, outcome)
}

/// A snapshot of a chain.
struct Link {
    tag: String,
    dir: String,
    snap: Snapshot,
}

spec fn pack_links(links: Seq<Link>) -> Seq<PackLink> {
    links.map_values(|l: Link| PackLink { tag: l.tag@, dir: l.dir@, snap: l.snap@ })
}

fn contains_tag(links: &Vec<Link>, tag: &str) -> (found: bool)
    ensures
        found == has_tag(pack_links(links@), tag@),
{
    let mut i: usize = 0;
    while i < links.len()
        invariant
            i <= links@.len(),
            forall|j: int| 0 <= j < i ==> (#[trigger] pack_links(links@)[j]).tag != tag@,
        decreases links@.len() - i,
    {
        assert(pack_links(links@)[i as int].tag == links@[i as int].tag@);
        if text::same_text(links[i].tag.as_str(), tag) {
            return true;
        }
        i = i + 1;
    }
    false
}

fn includes_memory(files: &Vec<FileEntry>) -> (found: bool)
    ensures
        found == has_memory(manifest::entries_of(files@)),
{
    let mut i: usize = 0;
    while i < files.len()
        invariant
            i <= files@.len(),
            forall|j: int| 0 <= j < i ==> (#[trigger] manifest::entries_of(files@)[j]).path != "memory.bin"@,
        decreases files@.len() - i,
    {
        assert(manifest::entries_of(files@)[i as int].path == files@[i as int].path@);
        if text::same_text(files[i].path.as_str(), "memory.bin") {
            return true;
        }
        i = i + 1;
    }
    false
}

/// The name of a snapshot's directory, by which the snapshot goes in a chain.
fn local_tag_of(snap_dir: &str) -> (tag: Result<String, PackError>)
    ensures
        match tag {
            Ok(t) => path::file_name_of(snap_dir@) == Some(t@),
            Err(e) => path::file_name_of(snap_dir@) is None && (e matches PackError::NoDirName { dir } && dir@
                == snap_dir@),
        },
{
    match path::file_name(snap_dir) {
        Some(name) => Ok(name),
        None => Err(PackError::NoDirName { dir: snap_dir.to_owned() }),
    }
}

/// Follows the parents of `head` to the root, which comes last.
fn find_ancestry<R, E, D>(
    head_tag: &str,
    root: &str,
    head: Link,
    read_meta: &R,
    exists: &E,
    describe: &D,
    Ghost(info): Ghost<PackInfo>,
) -> (found: Result<Vec<Link>, PackError>)
where
    R: Fn(&str) -> Option<Snapshot>,
    E: Fn(&str) -> bool,
    D: Fn(&str) -> Result<(u64, String), String>,
    requires
        forall|p: &str| call_requires(*read_meta, (p,)),
        forall|p: &str| call_requires(*exists, (p,)),
        head_tag@ == info.tag,
    ensures
        forall|disk: Disk| #[trigger]
            shows(*read_meta, *exists, *describe, disk) ==> match found {
                Ok(links) => {
                    &&& is_ancestry(disk, root@, pack_links(seq![head])[0], pack_links(links@))
                    &&& pack_links(links@).last().snap.parent_tag is None
                },
                Err(error) => exists|walk: Seq<PackLink>|
                    is_ancestry(disk, root@, pack_links(seq![head])[0], walk) && #[trigger] chain_explains(
                        disk,
                        info,
                        root@,
                        walk,
                        Err(error),
                    ),
            },
{
    let ghost first = pack_links(seq![head])[0];
    let mut links: Vec<Link> = Vec::new();
    links.push(head);
    loop
        invariant
            links@.len() > 0,
            forall|p: &str| call_requires(*read_meta, (p,)),
            forall|p: &str| call_requires(*exists, (p,)),
            head_tag@ == info.tag,
            first == pack_links(seq![head])[0],
            forall|disk: Disk| #[trigger]
                shows(*read_meta, *exists, *describe, disk) ==> is_ancestry(disk, root@, first, pack_links(links@)),
        decreases usize::MAX - links@.len(),
    {
        let ghost walk = pack_links(links@);
        let tip = &links[links.len() - 1];
        assert(walk.last() == (PackLink { tag: tip.tag@, dir: tip.dir@, snap: tip.snap@ }));
        let parent_tag = match copy_opt(&tip.snap.parent_tag) {
            Some(p) => p,
            None => {
                return Ok(links);
            },
        };
        if contains_tag(&links, parent_tag.as_str()) {
            let error = PackError::Cycle { head_tag: head_tag.to_owned(), parent_tag };
            assert forall|disk: Disk| #[trigger] shows(*read_meta, *exists, *describe, disk) implies chain_explains(
                disk,
                info,
                root@,
                walk,
                Err(error),
            ) by {}
            return Err(error);
        }
        let dir = path::join(root, parent_tag.as_str());
        let vmstate = path::join(dir.as_str(), "vmstate");
        if !(*exists)(vmstate.as_str()) {
            let error = PackError::MissingParent { head_tag: head_tag.to_owned(), parent_tag, dir };
            assert forall|disk: Disk| #[trigger] shows(*read_meta, *exists, *describe, disk) implies chain_explains(
                disk,
                info,
                root@,
                walk,
                Err(error),
            ) by {}
            return Err(error);
        }
        let snap = match (*read_meta)(dir.as_str()) {
            Some(m) => m,
            None => {
                let error = PackError::ParentWithoutMeta { parent_tag, dir };
                assert forall|disk: Disk| #[trigger]
                    shows(*read_meta, *exists, *describe, disk) implies chain_explains(
                    disk,
                    info,
                    root@,
                    walk,
                    Err(error),
                ) by {}
                return Err(error);
            },
        };
        let ghost link = PackLink { tag: parent_tag@, dir: dir@, snap: snap@ };
        links.push(Link { tag: parent_tag, dir, snap });
        proof {
            let longer = pack_links(links@);
            assert(longer =~= walk.push(link));
            assert(links.len() == links@.len());
            assert forall|disk: Disk| #[trigger] shows(*read_meta, *exists, *describe, disk) implies is_ancestry(
                disk,
                root@,
                first,
                longer,
            ) by {
                lemma_ancestry_goes_on(disk, root@, first, walk, link);
            }
        }
    }
}

proof fn lemma_ancestry_goes_on(disk: Disk, root: Seq<char>, head: PackLink, walk: Seq<PackLink>, link: PackLink)
    requires
        is_ancestry(disk, root, head, walk),
        walk.last().snap.parent_tag == Some(link.tag),
        !has_tag(walk, link.tag),
        link.dir == path::joined(root, link.tag),
        (disk.present)(path::joined(link.dir, "vmstate"@)),
        (disk.meta)(link.dir) == Some(link.snap),
    ensures
        is_ancestry(disk, root, head, walk.push(link)),
{
    let longer = walk.push(link);
    assert forall|i: int| 0 < i < longer.len() implies {
        &&& longer[i - 1].snap.parent_tag == Some((#[trigger] longer[i]).tag)
        &&& longer[i].dir == path::joined(root, longer[i].tag)
        &&& (disk.present)(path::joined(longer[i].dir, "vmstate"@))
        &&& (disk.meta)(longer[i].dir) == Some(longer[i].snap)
    } by {
        if i < walk.len() {
            assert(longer[i] == walk[i]);
        }
    }
    assert forall|i: int, j: int| 0 <= i < j < longer.len() implies (#[trigger] longer[i]).tag != (#[trigger] longer[j]).tag by {
        assert(longer[i] == walk[i]);
        if j < walk.len() {
            assert(longer[j] == walk[j]);
        }
    }
}

/// Appends the files of a link to `sources`.
fn push_sources(sources: &mut Vec<PackSource>, link: &Link, files: &Vec<FileEntry>)
    ensures
        sources_of(final(sources)@) == sources_of(old(sources)@) + link_sources(
            PackLink { tag: link.tag@, dir: link.dir@, snap: link.snap@ },
            manifest::entries_of(files@),
        ),
{
    let ghost view = PackLink { tag: link.tag@, dir: link.dir@, snap: link.snap@ };
    let ghost before = sources_of(sources@);
    let ghost all = link_sources(view, manifest::entries_of(files@));
    let mut i: usize = 0;
    while i < files.len()
        invariant
            i <= files@.len(),
            view == (PackLink { tag: link.tag@, dir: link.dir@, snap: link.snap@ }),
            all == link_sources(view, manifest::entries_of(files@)),
            sources_of(sources@) == before + all.take(i as int),
        decreases files@.len() - i,
    {
        let mut name = link.tag.clone();
        name.append("/");
        name.append(files[i].path.as_str());
        let at = path::join(link.dir.as_str(), files[i].path.as_str());
        let ghost so_far = sources_of(sources@);
        sources.push(PackSource { name, path: at });
        i = i + 1;
        assert(sources_of(sources@) =~= so_far.push(all[i - 1]));
        assert(all.take(i as int) =~= all.take(i - 1).push(all[i - 1]));
        assert(sources_of(sources@) =~= before + all.take(i as int));
    }
    assert(all.take(i as int) =~= all);
}

/// Lists the files of each link, root first.
fn list_links<E, D>(links: &Vec<Link>, exists: &E, describe: &D) -> (listed: Result<
    (Vec<ChainLinkMeta>, Vec<PackSource>),
    PackError,
>)
where
    E: Fn(&str) -> bool,
    D: Fn(&str) -> Result<(u64, String), String>,
    requires
        forall|p: &str| call_requires(*exists, (p,)),
        forall|p: &str| call_requires(*describe, (p,)),
    ensures
        forall|disk: Disk| #[trigger]
            shows_files(*exists, *describe, disk) ==> match listed {
                Ok((chain, sources)) => {
                    &&& forall|i: int|
                        0 <= i < links@.len() ==> is_packable(disk, #[trigger] pack_links(links@)[i])
                    &&& manifest::links_of(chain@) == link_metas(disk, pack_links(links@))
                    &&& sources_of(sources@) == chain_sources(disk, pack_links(links@))
                },
                Err(error) => exists|k: int| #[trigger] is_first_unpackable(disk, pack_links(links@), k, error),
            },
{
    let ghost all = pack_links(links@);
    let mut chain: Vec<ChainLinkMeta> = Vec::new();
    let mut sources: Vec<PackSource> = Vec::new();
    let mut i: usize = 0;
    proof {
        assert(all.take(0) =~= Seq::<PackLink>::empty());
        assert(sources_of(sources@) =~= Seq::<(Seq<char>, Seq<char>)>::empty());
        assert forall|disk: Disk| #[trigger] shows_files(*exists, *describe, disk) implies manifest::links_of(chain@)
            == link_metas(disk, all.take(0)) by {
            assert(manifest::links_of(chain@) =~= link_metas(disk, all.take(0)));
        }
    }
    while i < links.len()
        invariant
            i <= links@.len(),
            all == pack_links(links@),
            forall|p: &str| call_requires(*exists, (p,)),
            forall|p: &str| call_requires(*describe, (p,)),
            forall|disk: Disk| #[trigger]
                shows_files(*exists, *describe, disk) ==> {
                    &&& forall|j: int| 0 <= j < i ==> is_packable(disk, #[trigger] all[j])
                    &&& manifest::links_of(chain@) == link_metas(disk, all.take(i as int))
                    &&& sources_of(sources@) == chain_sources(disk, all.take(i as int))
                },
        decreases links@.len() - i,
    {
        let link = &links[i];
        let ghost view = all[i as int];
        let ghost metas = manifest::links_of(chain@);
        let ghost so_far = sources_of(sources@);
        let files = match list_files(link.dir.as_str(), exists, describe) {
            Ok(files) => files,
            Err(reason) => {
                let error = PackError::Unreadable { reason };
                assert forall|disk: Disk| #[trigger] shows_files(*exists, *describe, disk) implies exists|k: int|
                    #[trigger] is_first_unpackable(disk, all, k, error) by {
                    assert(is_first_unpackable(disk, all, i as int, error));
                }
                return Err(error);
            },
        };
        if !includes_memory(&files) {
            let error = PackError::LinkWithoutMemory { link_tag: link.tag.clone(), dir: link.dir.clone() };
            assert forall|disk: Disk| #[trigger] shows_files(*exists, *describe, disk) implies exists|k: int|
                #[trigger] is_first_unpackable(disk, all, k, error) by {
                assert(is_first_unpackable(disk, all, i as int, error));
            }
            return Err(error);
        }
        push_sources(&mut sources, link, &files);
        let ghost entries = manifest::entries_of(files@);
        chain.push(
            ChainLinkMeta {
                tag: link.tag.clone(),
                parent_tag: copy_opt(&link.snap.parent_tag),
                parent_content_hash: copy_opt(&link.snap.parent_content_hash),
                files,
            },
        );
        proof {
            assert(all.take(i + 1) =~= all.take(i as int).push(view));
            assert(all.take(i + 1).drop_last() =~= all.take(i as int));
            assert(manifest::links_of(chain@) =~= metas.push(chain@.last()@));
            assert forall|disk: Disk| #[trigger] shows_files(*exists, *describe, disk) implies {
                &&& forall|j: int| 0 <= j < i + 1 ==> is_packable(disk, #[trigger] all[j])
                &&& manifest::links_of(chain@) == link_metas(disk, all.take(i + 1))
                &&& sources_of(sources@) == chain_sources(disk, all.take(i + 1))
            } by {
                assert(entries == files_in(disk, view.dir));
                assert(chain@.last()@ == link_meta(disk, view));
                assert(manifest::links_of(chain@) =~= link_metas(disk, all.take(i + 1)));
            }
        }
        i = i + 1;
    }
    assert(all.take(i as int) =~= all);
    Ok((chain, sources))
}

/// Plans a pack of the whole chain of the snapshot in `head_dir`, whose parents lie in `snap_root`.
/// The pack goes by the name of `head_dir`, and errors call the snapshot `head_tag`. It is stamped
/// `created_at`.
pub fn pack_chain_at<R, E, D>(
    head_tag: &str,
    description: Option<String>,
    base_image: Option<String>,
    created_at: String,
    forkd_version: String,
    snap_root: &str,
    head_dir: &str,
    read_meta: &R,
    exists: &E,
    describe: &D,
) -> (outcome: Result<PackPlan, PackError>)
where
    R: Fn(&str) -> Option<Snapshot>,
    E: Fn(&str) -> bool,
    D: Fn(&str) -> Result<(u64, String), String>,
    requires
        forall|p: &str| call_requires(*read_meta, (p,)),
        forall|p: &str| call_requires(*exists, (p,)),
        forall|p: &str| call_requires(*describe, (p,)),
    ensures
        is_chain_outcome_of(
            *read_meta,
            *exists,
            *describe,
            (PackInfo {
                tag: head_tag@,
                description: snapshot::opt_text(description),
                base_image: snapshot::opt_text(base_image),
                created_at: created_at@,
                forkd_version: forkd_version@,
            }),
            snap_root@,
            head_dir@,
            outcome,
        ),
{
    let ghost info = PackInfo {
        tag: head_tag@,
        description: snapshot::opt_text(description),
        base_image: snapshot::opt_text(base_image),
        created_at: created_at@,
        forkd_version: forkd_version@,
    };
    let tag = match local_tag_of(head_dir) {
        Ok(t) => t,
        Err(e) => {
            return Err(e);
        },
    };
    let snap = match (*read_meta)(head_dir) {
        Some(m) => m,
        None => {
            return Err(PackError::HeadWithoutMeta { dir: head_dir.to_owned() });
        },
    };
    let head = Link { tag: tag.clone(), dir: head_dir.to_owned(), snap };
    let ghost first = PackLink { tag: tag@, dir: head_dir@, snap: snap@ };
    assert(pack_links(seq![head])[0] == first);
    let back = match find_ancestry(head_tag, snap_root, head, read_meta, exists, describe, Ghost(info)) {
        Ok(links) => links,
        Err(error) => {
            return Err(error);
        },
    };
    let ghost walk = pack_links(back@);
    let links = reversed(back);
    assert(pack_links(links@) =~= walk.reverse());
    let (chain, sources) = match list_links(&links, exists, describe) {
        Ok(listed) => listed,
        Err(error) => {
            let outcome: Result<PackPlan, PackError> = Err(error);
            assert forall|disk: Disk| #[trigger] shows(*read_meta, *exists, *describe, disk) implies chain_explains(
                disk,
                info,
                snap_root@,
                walk,
                outcome,
            ) by {
                assert(shows_files(*exists, *describe, disk));
            }
            return outcome;
        },
    };
    let ghost metas = manifest::links_of(chain@);
    let parent_tag = if chain.len() > 0 {
        copy_opt(&chain[chain.len() - 1].parent_tag)
    } else {
        None
    };
    let files: Vec<FileEntry> = Vec::new();
    assert(manifest::entries_of(files@) =~= Seq::<FileEntryView>::empty());
    let plan = PackPlan {
        manifest: Manifest {
            forkd_pack_version: PACK_FORMAT_VERSION,
            tag,
            description,
            base_image,
            created_at,
            forkd_version,
            parent_tag,
            files,
            chain,
        },
        sources,
    };
    let outcome: Result<PackPlan, PackError> = Ok(plan);
    assert forall|disk: Disk| #[trigger] shows(*read_meta, *exists, *describe, disk) implies chain_explains(
        disk,
        info,
        snap_root@,
        walk,
        outcome,
    ) by {
        assert(shows_files(*exists, *describe, disk));
        assert(metas.len() == walk.len());
        assert(metas.last() == chain@.last()@);
        assert(metas.last() == link_meta(disk, walk.reverse().last()));
        assert(walk.reverse().last() == first);
        assert(plan.manifest@ =~= chain_manifest(info, link_metas(disk, walk.reverse())));
    }
    outcome
}

/// Plans a pack of the whole chain of the snapshot in `head_dir`, whose parents lie in `snap_root`.
/// The pack goes by the name of `head_dir`, and errors call the snapshot `head_tag`. It is stamped with
/// what the system clock shows.
///
/// `read_meta` reads the metadata in a directory, `exists` says whether there is a file at a path, and
/// `describe` gives its size and SHA-256 in hexadecimal, or says why it cannot.
pub fn pack_chain<R, E, D>(
    head_tag: &str,
    description: Option<String>,
    base_image: Option<String>,
    forkd_version: String,
    snap_root: &str,
    head_dir: &str,
    read_meta: &R,
    exists: &E,
    describe: &D,
) -> (outcome: Result<PackPlan, PackError>)
where
    R: Fn(&str) -> Option<Snapshot>,
    E: Fn(&str) -> bool,
    D: Fn(&str) -> Result<(u64, String), String>,
    requires
        forall|p: &str| call_requires(*read_meta, (p,)),
        forall|p: &str| call_requires(*exists, (p,)),
        forall|p: &str| call_requires(*describe, (p,)),
    ensures
        exists|t: std::time::SystemTime, created_at: Seq<char>| #[trigger]
            calendar::is_stamp(created_at, calendar::unix_secs_of(t) as int) && is_chain_outcome_of(
                *read_meta,
                *exists,
                *describe,
                (PackInfo {
                    tag: head_tag@,
                    description: snapshot::opt_text(description),
                    base_image: snapshot::opt_text(base_image),
                    created_at,
                    forkd_version: forkd_version@,
                }),
                snap_root@,
                head_dir@,
                outcome,
            ),
{
    let created_at = calendar::chrono_like_now();
    pack_chain_at(
        head_tag,
        description,
        base_image,
        created_at,
        forkd_version,
        snap_root,
        head_dir,
        read_meta,
        exists,
        describe,
    )
}

/// Plans a pack of the snapshot in `snap_dir`: of it alone where it has no parent, else of its whole
/// chain. The pack is stamped `created_at`.
pub fn pack_at<R, E, D>(
    tag: &str,
    description: Option<String>,
    base_image: Option<String>,
    created_at: String,
    forkd_version: String,
    snap_dir: &str,
    read_meta: &R,
    exists: &E,
    describe: &D,
) -> (outcome: Result<PackPlan, PackError>)
where
    R: Fn(&str) -> Option<Snapshot>,
    E: Fn(&str) -> bool,
    D: Fn(&str) -> Result<(u64, String), String>,
    requires
        forall|p: &str| call_requires(*read_meta, (p,)),
        forall|p: &str| call_requires(*exists, (p,)),
        forall|p: &str| call_requires(*describe, (p,)),
    ensures
        is_pack_outcome_of(
            *read_meta,
            *exists,
            *describe,
            (PackInfo {
                tag: tag@,
                description: snapshot::opt_text(description),
                base_image: snapshot::opt_text(base_image),
                created_at: created_at@,
                forkd_version: forkd_version@,
            }),
            snap_dir@,
            outcome,
        ),
{
    let ghost info = PackInfo {
        tag: tag@,
        description: snapshot::opt_text(description),
        base_image: snapshot::opt_text(base_image),
        created_at: created_at@,
        forkd_version: forkd_version@,
    };
    let chained = match (*read_meta)(snap_dir) {
        Some(m) => m.parent_tag.is_some(),
        None => false,
    };
    let root = if chained {
        match path::parent(snap_dir) {
            Some(root) => root,
            None => {
                return Err(PackError::NoParentDir { dir: snap_dir.to_owned() });
            },
        }
    } else {
        String::new()
    };
    let vmstate = path::join(snap_dir, "vmstate");
    if !(*exists)(vmstate.as_str()) {
        return Err(PackError::NoVmstate { dir: snap_dir.to_owned() });
    }
    if chained {
        return pack_chain_at(
            tag,
            description,
            base_image,
            created_at,
            forkd_version,
            root.as_str(),
            snap_dir,
            read_meta,
            exists,
            describe,
        );
    }
    let memory = path::join(snap_dir, "memory.bin");
    if !(*exists)(memory.as_str()) {
        return Err(PackError::NoMemory { dir: snap_dir.to_owned() });
    }
    let files = match list_files(snap_dir, exists, describe) {
        Ok(files) => files,
        Err(reason) => {
            let outcome: Result<PackPlan, PackError> = Err(PackError::Unreadable { reason });
            assert forall|disk: Disk| #[trigger] shows(*read_meta, *exists, *describe, disk) implies is_pack_outcome(
                disk,
                info,
                snap_dir@,
                outcome,
            ) by {
                assert(shows_files(*exists, *describe, disk));
            }
            return outcome;
        },
    };
    let ghost entries = manifest::entries_of(files@);
    let mut sources: Vec<PackSource> = Vec::new();
    let mut i: usize = 0;
    while i < files.len()
        invariant
            i <= files@.len(),
            entries == manifest::entries_of(files@),
            sources@.len() == i,
            forall|j: int|
                0 <= j < i ==> sources_of(sources@)[j] == #[trigger] single_sources(snap_dir@, entries)[j],
        decreases files@.len() - i,
    {
        let ghost so_far = sources_of(sources@);
        sources.push(PackSource { name: files[i].path.clone(), path: path::join(snap_dir, files[i].path.as_str()) });
        assert(sources_of(sources@) =~= so_far.push(single_sources(snap_dir@, entries)[i as int]));
        i = i + 1;
    }
    assert(sources_of(sources@) =~= single_sources(snap_dir@, entries));
    let chain: Vec<ChainLinkMeta> = Vec::new();
    assert(manifest::links_of(chain@) =~= Seq::<manifest::ChainLinkView>::empty());
    let plan = PackPlan {
        manifest: Manifest {
            forkd_pack_version: PACK_FORMAT_VERSION_V1,
            tag: tag.to_owned(),
            description,
            base_image,
            created_at,
            forkd_version,
            parent_tag: None,
            files,
            chain,
        },
        sources,
    };
    let outcome: Result<PackPlan, PackError> = Ok(plan);
    assert forall|disk: Disk| #[trigger] shows(*read_meta, *exists, *describe, disk) implies is_pack_outcome(
        disk,
        info,
        snap_dir@,
        outcome,
    ) by {
        assert(shows_files(*exists, *describe, disk));
        assert(entries == files_in(disk, snap_dir@));
        assert(plan.manifest@ =~= single_manifest(info, entries));
    }
    outcome
}

/// Plans a pack of the snapshot in `snap_dir`: of it alone where it has no parent, else of its whole
/// chain. The pack is stamped with what the system clock shows.
///
/// `read_meta` reads the metadata in a directory, `exists` says whether there is a file at a path, and
/// `describe` gives its size and SHA-256 in hexadecimal, or says why it cannot.
pub fn pack<R, E, D>(
    tag: &str,
    description: Option<String>,
    base_image: Option<String>,
    forkd_version: String,
    snap_dir: &str,
    read_meta: &R,
    exists: &E,
    describe: &D,
) -> (outcome: Result<PackPlan, PackError>)
where
    R: Fn(&str) -> Option<Snapshot>,
    E: Fn(&str) -> bool,
    D: Fn(&str) -> Result<(u64, String), String>,
    requires
        forall|p: &str| call_requires(*read_meta, (p,)),
        forall|p: &str| call_requires(*exists, (p,)),
        forall|p: &str| call_requires(*describe, (p,)),
    ensures
        exists|t: std::time::SystemTime, created_at: Seq<char>| #[trigger]
            calendar::is_stamp(created_at, calendar::unix_secs_of(t) as int) && is_pack_outcome_of(
                *read_meta,
                *exists,
                *describe,
                (PackInfo {
                    tag: tag@,
                    description: snapshot::opt_text(description),
                    base_image: snapshot::opt_text(base_image),
                    created_at,
                    forkd_version: forkd_version@,
                }),
                snap_dir@,
                outcome,
            ),
{
    let created_at = calendar::chrono_like_now();
    pack_at(tag, description, base_image, created_at, forkd_version, snap_dir, read_meta, exists, describe)
}

impl PackError {
    /// The message for the user.
    pub open spec fn text(self) -> Seq<char> {
        match self {
            PackError::NoParentDir { dir } => "snap_dir "@ + dir@
                + " has no parent — cannot resolve chain ancestors"@,
            PackError::NoVmstate { dir } => "snapshot directory "@ + dir@ + " has no `vmstate`; nothing to pack"@,
            PackError::NoMemory { dir } => "snapshot directory "@ + dir@ + " has no `memory.bin`; nothing to pack"@,
            PackError::Unreadable { reason } => reason@,
            PackError::NoDirName { dir } => "snap_dir "@ + dir@ + " has no usable file name"@,
            PackError::HeadWithoutMeta { dir } => "head "@ + dir@ + " has no snapshot.json — cannot pack chain"@,
            PackError::Cycle { head_tag, parent_tag } => "chain for `"@ + head_tag@ + "` reaches `"@ + parent_tag@
                + "` twice — cycle"@,
            PackError::MissingParent { head_tag, parent_tag, dir } => "chain for `"@ + head_tag@
                + "` references parent `"@ + parent_tag@ + "` at "@ + dir@
                + " which doesn't exist locally. Pack failed — pull or rebuild the parent first."@,
            PackError::ParentWithoutMeta { parent_tag, dir } => "parent `"@ + parent_tag@
                + "` has no snapshot.json at "@ + dir@,
            PackError::LinkWithoutMemory { link_tag, dir } => "chain link `"@ + link_tag@ + "` at "@ + dir@
                + " has no memory.bin — pack would produce a broken bundle"@,
        }
    }

    /// The message for the user.
    pub fn message(&self) -> (m: String)
        ensures
            m@ == self.text(),
    {
        match self {
            PackError::NoParentDir { dir } => {
                let mut m = "snap_dir ".to_owned();
                m.append(dir.as_str());
                m.append(" has no parent — cannot resolve chain ancestors");
                m
            },
            PackError::NoVmstate { dir } => {
                let mut m = "snapshot directory ".to_owned();
                m.append(dir.as_str());
                m.append(" has no `vmstate`; nothing to pack");
                m
            },
            PackError::NoMemory { dir } => {
                let mut m = "snapshot directory ".to_owned();
                m.append(dir.as_str());
                m.append(" has no `memory.bin`; nothing to pack");
                m
            },
            PackError::Unreadable { reason } => reason.clone(),
            PackError::NoDirName { dir } => {
                let mut m = "snap_dir ".to_owned();
                m.append(dir.as_str());
                m.append(" has no usable file name");
                m
            },
            PackError::HeadWithoutMeta { dir } => {
                let mut m = "head ".to_owned();
                m.append(dir.as_str());
                m.append(" has no snapshot.json — cannot pack chain");
                m
            },
            PackError::Cycle { head_tag, parent_tag } => {
                let mut m = "chain for `".to_owned();
                m.append(head_tag.as_str());
                m.append("` reaches `");
                m.append(parent_tag.as_str());
                m.append("` twice — cycle");
                m
            },
            PackError::MissingParent { head_tag, parent_tag, dir } => {
                let mut m = "chain for `".to_owned();
                m.append(head_tag.as_str());
                m.append("` references parent `");
                m.append(parent_tag.as_str());
                m.append("` at ");
                m.append(dir.as_str());
                m.append(" which doesn't exist locally. Pack failed — pull or rebuild the parent first.");
                m
            },
            PackError::ParentWithoutMeta { parent_tag, dir } => {
                let mut m = "parent `".to_owned();
                m.append(parent_tag.as_str());
                m.append("` has no snapshot.json at ");
                m.append(dir.as_str());
                m
            },
            PackError::LinkWithoutMemory { link_tag, dir } => {
                let mut m = "chain link `".to_owned();
                m.append(link_tag.as_str());
                m.append("` at ");
                m.append(dir.as_str());
                m.append(" has no memory.bin — pack would produce a broken bundle");
                m
            },
        }
    }
}

/// The names of some files to put into a pack.
pub open spec fn names_of(sources: Seq<(Seq<char>, Seq<char>)>) -> Seq<Seq<char>> {
    sources.map_values(|s: (Seq<char>, Seq<char>)| s.0)
}

proof fn lemma_names_add(a: Seq<(Seq<char>, Seq<char>)>, b: Seq<(Seq<char>, Seq<char>)>)
    ensures
        names_of(a + b) == names_of(a) + names_of(b),
{
    assert(names_of(a + b) =~= names_of(a) + names_of(b));
}

proof fn lemma_chain_names(disk: Disk, links: Seq<PackLink>)
    ensures
        names_of(chain_sources(disk, links)) == manifest::chain_names(link_metas(disk, links)),
    decreases links.len(),
{
    let metas = link_metas(disk, links);
    if links.len() == 0 {
        assert(names_of(chain_sources(disk, links)) =~= manifest::chain_names(metas));
    } else {
        let rest = links.drop_last();
        let last = links.last();
        lemma_chain_names(disk, rest);
        assert(metas.drop_last() =~= link_metas(disk, rest));
        let sources = link_sources(last, files_in(disk, last.dir));
        lemma_names_add(chain_sources(disk, rest), sources);
        assert(names_of(sources) =~= manifest::link_names(metas.last()));
    }
}

/// What goes into a pack is, name by name and in order, what its manifest declares.
pub proof fn law_packed_is_declared(disk: Disk, info: PackInfo, snap_dir: Seq<char>, plan: PackPlan)
    requires
        is_pack_outcome(disk, info, snap_dir, Ok(plan)),
    ensures
        names_of(sources_of(plan.sources@)) == plan.manifest@.declared(),
{
    if plan.manifest@.chain.len() == 0 {
        assert(names_of(sources_of(plan.sources@)) =~= plan.manifest@.declared());
    } else {
        let walk = lemma_packed_walk(disk, info, snap_dir, plan);
        lemma_chain_names(disk, walk.reverse());
    }
}

/// What goes into a pack of a chain, from whatever directory its parents come, is what its manifest
/// declares.
pub proof fn law_packed_chain_is_declared(
    disk: Disk,
    info: PackInfo,
    root: Seq<char>,
    head_dir: Seq<char>,
    plan: PackPlan,
)
    requires
        is_chain_outcome(disk, info, root, head_dir, Ok(plan)),
    ensures
        names_of(sources_of(plan.sources@)) == plan.manifest@.declared(),
{
    let walk = lemma_chain_walk(disk, info, root, head_dir, plan);
    lemma_chain_names(disk, walk.reverse());
}

/// The links behind a pack of a chain.
proof fn lemma_chain_walk(
    disk: Disk,
    info: PackInfo,
    root: Seq<char>,
    head_dir: Seq<char>,
    plan: PackPlan,
) -> (walk: Seq<PackLink>)
    requires
        is_chain_outcome(disk, info, root, head_dir, Ok(plan)),
    ensures
        path::file_name_of(head_dir) is Some,
        (disk.meta)(head_dir) is Some,
        is_ancestry(
            disk,
            root,
            PackLink { tag: path::file_name_of(head_dir)->0, dir: head_dir, snap: (disk.meta)(head_dir)->0 },
            walk,
        ),
        chain_explains(disk, info, root, walk, Ok(plan)),
{
    let outcome: Result<PackPlan, PackError> = Ok(plan);
    choose|walk: Seq<PackLink>|
        is_ancestry(
            disk,
            root,
            PackLink { tag: path::file_name_of(head_dir)->0, dir: head_dir, snap: (disk.meta)(head_dir)->0 },
            walk,
        ) && #[trigger] chain_explains(disk, info, root, walk, outcome)
}

/// The links behind a pack of a snapshot with a parent.
proof fn lemma_packed_walk(disk: Disk, info: PackInfo, snap_dir: Seq<char>, plan: PackPlan) -> (walk: Seq<PackLink>)
    requires
        is_pack_outcome(disk, info, snap_dir, Ok(plan)),
        plan.manifest@.chain.len() > 0,
    ensures
        path::parent_of(snap_dir) is Some,
        path::file_name_of(snap_dir) is Some,
        (disk.meta)(snap_dir) is Some,
        (disk.present)(path::joined(snap_dir, "vmstate"@)),
        is_ancestry(
            disk,
            path::parent_of(snap_dir)->0,
            PackLink {
                tag: path::file_name_of(snap_dir)->0,
                dir: snap_dir,
                snap: (disk.meta)(snap_dir)->0,
            },
            walk,
        ),
        (disk.meta)(snap_dir)->0.parent_tag is Some,
        chain_explains(disk, info, path::parent_of(snap_dir)->0, walk, Ok(plan)),
{
    lemma_chain_walk(disk, info, path::parent_of(snap_dir)->0, snap_dir, plan)
}

/// A snapshot without a parent is packed alone, in the older format, and one with a parent together
/// with all its ancestors, in the newer one: at least two links, and no file outside of them. The first
/// goes by the tag that the caller gave, the second by the name of its directory.
pub proof fn law_format_follows_chain(disk: Disk, info: PackInfo, snap_dir: Seq<char>, plan: PackPlan)
    requires
        is_pack_outcome(disk, info, snap_dir, Ok(plan)),
    ensures
        ({
            let m = plan.manifest@;
            let chained = (disk.meta)(snap_dir) is Some && (disk.meta)(snap_dir)->0.parent_tag is Some;
            &&& !chained ==> m.tag == info.tag
            &&& chained ==> path::file_name_of(snap_dir) == Some(m.tag)
            &&& m.forkd_pack_version <= manifest::MAX_SUPPORTED_PACK_VERSION
            &&& !chained ==> m.forkd_pack_version == PACK_FORMAT_VERSION_V1 && m.chain.len() == 0
            &&& chained ==> m.forkd_pack_version == PACK_FORMAT_VERSION && m.chain.len() >= 2 && m.files.len() == 0
            &&& chained ==> m.parent_tag == (disk.meta)(snap_dir)->0.parent_tag
        }),
{
    let m = plan.manifest@;
    let chained = (disk.meta)(snap_dir) is Some && (disk.meta)(snap_dir)->0.parent_tag is Some;
    if chained {
        let walk = lemma_chain_walk(disk, info, path::parent_of(snap_dir)->0, snap_dir, plan);
        assert(walk.last().snap.parent_tag is None);
        assert(walk.len() >= 2);
        assert(m.chain.last() == link_meta(disk, walk.reverse().last()));
        assert(walk.reverse().last() == walk[0]);
    }
}

/// A packed chain comes root first: the first link has no parent, each other has the one before it, no
/// tag comes twice, and the last is the snapshot that was packed, by the name of its directory. The pack
/// goes by the tag of the last.
pub proof fn law_packed_chain_is_root_first(
    disk: Disk,
    info: PackInfo,
    root: Seq<char>,
    head_dir: Seq<char>,
    plan: PackPlan,
)
    requires
        is_chain_outcome(disk, info, root, head_dir, Ok(plan)),
    ensures
        ({
            let chain = plan.manifest@.chain;
            &&& chain.len() > 0
            &&& chain.first().parent_tag is None
            &&& path::file_name_of(head_dir) == Some(chain.last().tag)
            &&& plan.manifest@.tag == chain.last().tag
            &&& forall|i: int| 0 < i < chain.len() ==> (#[trigger] chain[i]).parent_tag == Some(chain[i - 1].tag)
            &&& forall|i: int, j: int|
                0 <= i < j < chain.len() ==> (#[trigger] chain[i]).tag != (#[trigger] chain[j]).tag
        }),
{
    let walk = lemma_chain_walk(disk, info, root, head_dir, plan);
    let chain = plan.manifest@.chain;
    let links = walk.reverse();
    let n = walk.len();
    assert(chain == link_metas(disk, links));
    assert(links[0] == walk.last());
    assert(links.last() == walk[0]);
    assert forall|i: int| 0 < i < n implies (#[trigger] chain[i]).parent_tag == Some(chain[i - 1].tag) by {
        let k = n - i;
        assert(walk[k - 1].snap.parent_tag == Some(walk[k].tag));
        assert(links[i] == walk[k - 1]);
        assert(links[i - 1] == walk[k]);
    }
    assert forall|i: int, j: int| 0 <= i < j < n implies (#[trigger] chain[i]).tag != (#[trigger] chain[j]).tag by {
        assert(links[i] == walk[n - 1 - i]);
        assert(links[j] == walk[n - 1 - j]);
    }
}

/// Whether a file called `name` is among `files`.
pub open spec fn lists(files: Seq<FileEntryView>, name: Seq<char>) -> bool {
    exists|i: int| 0 <= i < files.len() && (#[trigger] files[i]).path == name
}

proof fn lemma_listing_has(disk: Disk, dir: Seq<char>, n: nat, k: int)
    requires
        0 <= k < n <= 4,
        listing(disk, dir, n) is Ok,
        (disk.present)(path::joined(dir, snapshot_files()[k])),
    ensures
        lists(listing(disk, dir, n)->Ok_0, snapshot_files()[k]),
    decreases n,
{
    let before = listing(disk, dir, (n - 1) as nat)->Ok_0;
    let files = listing(disk, dir, n)->Ok_0;
    if k == n - 1 {
        assert(files.last().path == snapshot_files()[k]);
    } else {
        lemma_listing_has(disk, dir, (n - 1) as nat, k);
        let i = choose|i: int| 0 <= i < before.len() && (#[trigger] before[i]).path == snapshot_files()[k];
        assert(files[i] == before[i]);
    }
}

/// Each snapshot of a pack has at least its `vmstate` and its `memory.bin`.
pub proof fn law_pack_has_minimum(disk: Disk, info: PackInfo, snap_dir: Seq<char>, plan: PackPlan)
    requires
        is_pack_outcome(disk, info, snap_dir, Ok(plan)),
    ensures
        ({
            let m = plan.manifest@;
            &&& m.chain.len() == 0 ==> lists(m.files, "vmstate"@) && lists(m.files, "memory.bin"@)
            &&& forall|i: int|
                0 <= i < m.chain.len() ==> lists((#[trigger] m.chain[i]).files, "vmstate"@) && lists(
                    m.chain[i].files,
                    "memory.bin"@,
                )
        }),
{
    let m = plan.manifest@;
    if m.chain.len() == 0 {
        law_format_follows_chain(disk, info, snap_dir, plan);
        lemma_listing_has(disk, snap_dir, 4, 1);
        lemma_listing_has(disk, snap_dir, 4, 3);
    } else {
        let walk = lemma_packed_walk(disk, info, snap_dir, plan);
        let links = walk.reverse();
        assert forall|i: int| 0 <= i < m.chain.len() implies lists((#[trigger] m.chain[i]).files, "vmstate"@) && lists(
            m.chain[i].files,
            "memory.bin"@,
        ) by {
            let link = links[i];
            let k = walk.len() - 1 - i;
            assert(link == walk[k]);
            assert(is_packable(disk, links[i]));
            assert((disk.present)(path::joined(link.dir, "vmstate"@)));
            lemma_listing_has(disk, link.dir, 4, 1);
        }
    }
}

/// Whether two outcomes say the same.
pub open spec fn same_outcome(a: Result<PackPlan, PackError>, b: Result<PackPlan, PackError>) -> bool {
    match (a, b) {
        (Ok(x), Ok(y)) => x.manifest@ == y.manifest@ && sources_of(x.sources@) == sources_of(y.sources@),
        (Err(x), Err(y)) => x.text() == y.text(),
        _ => false,
    }
}

/// Of two ancestries of one head, the shorter is the beginning of the longer.
proof fn lemma_ancestries_agree(disk: Disk, root: Seq<char>, head: PackLink, a: Seq<PackLink>, b: Seq<PackLink>, n: int)
    requires
        is_ancestry(disk, root, head, a),
        is_ancestry(disk, root, head, b),
        1 <= n <= a.len(),
        n <= b.len(),
    ensures
        a.take(n) == b.take(n),
    decreases n,
{
    if n > 1 {
        lemma_ancestries_agree(disk, root, head, a, b, n - 1);
        assert(a[n - 2] == a.take(n - 1)[n - 2]);
        assert(b[n - 2] == b.take(n - 1)[n - 2]);
        assert(a[n - 1].tag == b[n - 1].tag);
        assert(a[n - 1] == b[n - 1]);
        assert forall|i: int| 0 <= i < n implies a[i] == b[i] by {
            if i < n - 1 {
                assert(a[i] == a.take(n - 1)[i]);
                assert(b[i] == b.take(n - 1)[i]);
            }
        }
        assert(a.take(n) =~= b.take(n));
    } else {
        assert(a.take(1) =~= b.take(1));
    }
}

/// A walk that goes on leaves no room for an outcome before its end.
proof fn lemma_walk_goes_on(
    disk: Disk,
    info: PackInfo,
    root: Seq<char>,
    head: PackLink,
    walk: Seq<PackLink>,
    longer: Seq<PackLink>,
    outcome: Result<PackPlan, PackError>,
)
    requires
        is_ancestry(disk, root, head, walk),
        is_ancestry(disk, root, head, longer),
        walk.len() < longer.len(),
    ensures
        !chain_explains(disk, info, root, walk, outcome),
{
    let n = walk.len() as int;
    lemma_ancestries_agree(disk, root, head, walk, longer, n);
    assert(walk.take(n) =~= walk);
    assert(longer[n - 1] == longer.take(n)[n - 1]);
    let next = longer[n];
    assert(walk.last().snap.parent_tag == Some(next.tag));
    assert forall|i: int| 0 <= i < n implies (#[trigger] walk[i]).tag != next.tag by {
        assert(walk[i] == longer.take(n)[i]);
        assert(longer[i].tag != longer[n].tag);
    }
}

proof fn lemma_explained_once(
    disk: Disk,
    info: PackInfo,
    root: Seq<char>,
    walk: Seq<PackLink>,
    a: Result<PackPlan, PackError>,
    b: Result<PackPlan, PackError>,
)
    requires
        chain_explains(disk, info, root, walk, a),
        chain_explains(disk, info, root, walk, b),
    ensures
        same_outcome(a, b),
{
    let links = walk.reverse();
    match (a, b) {
        (Err(x), Err(y)) => {
            if walk.last().snap.parent_tag is None {
                let j = choose|k: int| #[trigger] is_first_unpackable(disk, links, k, x);
                let k = choose|k: int| #[trigger] is_first_unpackable(disk, links, k, y);
                assert(!is_packable(disk, links[j]));
                assert(!is_packable(disk, links[k]));
            }
        },
        (Ok(_), Err(y)) => {
            let k = choose|k: int| #[trigger] is_first_unpackable(disk, links, k, y);
            assert(!is_packable(disk, links[k]));
        },
        (Err(x), Ok(_)) => {
            let k = choose|k: int| #[trigger] is_first_unpackable(disk, links, k, x);
            assert(!is_packable(disk, links[k]));
        },
        _ => {},
    }
}

/// What is on disk, and what the caller says, leave one outcome only.
pub proof fn law_pack_outcome_is_unique(
    disk: Disk,
    info: PackInfo,
    snap_dir: Seq<char>,
    a: Result<PackPlan, PackError>,
    b: Result<PackPlan, PackError>,
)
    requires
        is_pack_outcome(disk, info, snap_dir, a),
        is_pack_outcome(disk, info, snap_dir, b),
    ensures
        same_outcome(a, b),
{
    let chained = (disk.meta)(snap_dir) is Some && (disk.meta)(snap_dir)->0.parent_tag is Some;
    let root = path::parent_of(snap_dir)->0;
    if chained && path::parent_of(snap_dir) is Some && (disk.present)(path::joined(snap_dir, "vmstate"@))
        && path::file_name_of(snap_dir) is Some {
        let head = PackLink { tag: path::file_name_of(snap_dir)->0, dir: snap_dir, snap: (disk.meta)(snap_dir)->0 };
        let v = choose|walk: Seq<PackLink>|
            is_ancestry(disk, root, head, walk) && #[trigger] chain_explains(disk, info, root, walk, a);
        let w = choose|walk: Seq<PackLink>|
            is_ancestry(disk, root, head, walk) && #[trigger] chain_explains(disk, info, root, walk, b);
        if v.len() < w.len() {
            lemma_walk_goes_on(disk, info, root, head, v, w, a);
        } else if w.len() < v.len() {
            lemma_walk_goes_on(disk, info, root, head, w, v, b);
        } else {
            lemma_ancestries_agree(disk, root, head, v, w, v.len() as int);
            assert(v.take(v.len() as int) =~= v);
            assert(w.take(w.len() as int) =~= w);
            lemma_explained_once(disk, info, root, v, a, b);
        }
    }
}

/// Whether the three functions answer what is on `disk`.
pub open spec fn answer_by<
    R: Fn(&str) -> Option<Snapshot>,
    E: Fn(&str) -> bool,
    D: Fn(&str) -> Result<(u64, String), String>,
>(read_meta: R, exists: E, describe: D, disk: Disk) -> bool {
    &&& forall|p: &str, r: Option<Snapshot>| #[trigger]
        call_ensures(read_meta, (p,), r) ==> match r {
            Some(s) => (disk.meta)(p@) == Some(s@),
            None => (disk.meta)(p@) is None,
        }
    &&& forall|p: &str, r: bool| #[trigger] call_ensures(exists, (p,), r) ==> r == (disk.present)(p@)
    &&& forall|p: &str, r: Result<(u64, String), String>| #[trigger]
        call_ensures(describe, (p,), r) ==> match r {
            Ok(f) => (disk.file)(p@) == Ok::<(u64, Seq<char>), Seq<char>>((f.0, f.1@)),
            Err(e) => (disk.file)(p@) == Err::<(u64, Seq<char>), Seq<char>>(e@),
        }
}

/// The place of a file among those of a snapshot directory, and 4 for what is none of them.
pub open spec fn rank_of(name: Seq<char>) -> int {
    if name == "snapshot.json"@ {
        0
    } else if name == "vmstate"@ {
        1
    } else if name == "rootfs.ext4"@ {
        2
    } else if name == "memory.bin"@ {
        3
    } else {
        4
    }
}

/// Whether there is a file of that name in `dir`.
pub open spec fn has_file(disk: Disk, dir: Seq<char>, name: Seq<char>) -> bool {
    (disk.present)(path::joined(dir, name))
}

/// Whether each of the four files that is in `dir` can be read.
pub open spec fn can_be_read(disk: Disk, dir: Seq<char>) -> bool {
    forall|name: Seq<char>|
        rank_of(name) < 4 && #[trigger] has_file(disk, dir, name) ==> (disk.file)(path::joined(dir, name)) is Ok
}

/// What some entries hold.
pub open spec fn plain_entries(files: Seq<FileEntry>) -> Seq<FileEntryView> {
    Seq::new(
        files.len(),
        |i: int| FileEntryView { path: files[i].path@, size: files[i].size, sha256: files[i].sha256@ },
    )
}

/// Whether the list has each of the four files that is in `dir`, once and in order, with its size and its
/// hash, and nothing else.
pub open spec fn lists_what_is_there(disk: Disk, dir: Seq<char>, files: Seq<FileEntryView>) -> bool {
    &&& forall|name: Seq<char>|
        rank_of(name) < 4 && #[trigger] has_file(disk, dir, name) ==> exists|i: int|
            0 <= i < files.len() && (#[trigger] files[i]).path == name
    &&& forall|i: int|
        0 <= i < files.len() ==> {
            let file = #[trigger] files[i];
            &&& rank_of(file.path) < 4
            &&& has_file(disk, dir, file.path)
            &&& (disk.file)(path::joined(dir, file.path)) == Ok::<(u64, Seq<char>), Seq<char>>((file.size, file.sha256))
        }
    &&& forall|i: int, j: int|
        0 <= i < j < files.len() ==> rank_of((#[trigger] files[i]).path) < rank_of((#[trigger] files[j]).path)
}

proof fn lemma_ranks(k: int)
    requires
        0 <= k < 4,
    ensures
        rank_of(snapshot_files()[k]) == k,
{
    reveal_strlit("snapshot.json");
    reveal_strlit("vmstate");
    reveal_strlit("rootfs.ext4");
    reveal_strlit("memory.bin");
    assert("snapshot.json"@.len() == 13 && "vmstate"@.len() == 7);
    assert("rootfs.ext4"@.len() == 11 && "memory.bin"@.len() == 10);
}

proof fn lemma_ranked_name(name: Seq<char>)
    requires
        rank_of(name) < 4,
    ensures
        0 <= rank_of(name),
        snapshot_files()[rank_of(name)] == name,
{
}

proof fn lemma_listing_lists(disk: Disk, dir: Seq<char>, n: nat)
    requires
        n <= 4,
    ensures
        listing(disk, dir, n) is Ok <==> forall|name: Seq<char>|
            rank_of(name) < n && #[trigger] has_file(disk, dir, name) ==> (disk.file)(path::joined(dir, name)) is Ok,
        listing(disk, dir, n) matches Ok(files) ==> {
            &&& forall|name: Seq<char>|
                rank_of(name) < n && #[trigger] has_file(disk, dir, name) ==> exists|i: int|
                    0 <= i < files.len() && (#[trigger] files[i]).path == name
            &&& forall|i: int|
                0 <= i < files.len() ==> {
                    let file = #[trigger] files[i];
                    &&& rank_of(file.path) < n
                    &&& has_file(disk, dir, file.path)
                    &&& (disk.file)(path::joined(dir, file.path)) == Ok::<(u64, Seq<char>), Seq<char>>(
                        (file.size, file.sha256),
                    )
                }
            &&& forall|i: int, j: int|
                0 <= i < j < files.len() ==> rank_of((#[trigger] files[i]).path) < rank_of((#[trigger] files[j]).path)
        },
        listing(disk, dir, n) matches Err(e) ==> exists|name: Seq<char>|
            {
                &&& 0 <= rank_of(name) < n
                &&& #[trigger] has_file(disk, dir, name)
                &&& (disk.file)(path::joined(dir, name)) == Err::<(u64, Seq<char>), Seq<char>>(e)
                &&& forall|other: Seq<char>|
                    rank_of(other) < rank_of(name) && #[trigger] has_file(disk, dir, other) ==> (disk.file)(
                        path::joined(dir, other),
                    ) is Ok
            },
    decreases n,
{
    if n > 0 {
        let m = (n - 1) as nat;
        lemma_listing_lists(disk, dir, m);
        lemma_ranks(m as int);
        let name = snapshot_files()[m as int];
        let at = path::joined(dir, name);
        assert forall|other: Seq<char>| rank_of(other) == m implies other == name by {
            if rank_of(other) == m {
                lemma_ranked_name(other);
            }
        }
        match listing(disk, dir, m) {
            Err(e) => {
                let bad = choose|name: Seq<char>|
                    {
                        &&& 0 <= rank_of(name) < m
                        &&& #[trigger] has_file(disk, dir, name)
                        &&& (disk.file)(path::joined(dir, name)) == Err::<(u64, Seq<char>), Seq<char>>(e)
                        &&& forall|other: Seq<char>|
                            rank_of(other) < rank_of(name) && #[trigger] has_file(disk, dir, other) ==> (disk.file)(
                                path::joined(dir, other),
                            ) is Ok
                    };
                assert(has_file(disk, dir, bad));
            },
            Ok(before) => {
                if has_file(disk, dir, name) {
                    match (disk.file)(at) {
                        Ok(f) => {
                            let files = listing(disk, dir, n)->Ok_0;
                            assert(files == before.push(FileEntryView { path: name, size: f.0, sha256: f.1 }));
                            assert forall|other: Seq<char>|
                                rank_of(other) < n && #[trigger] has_file(disk, dir, other) implies exists|i: int|
                                0 <= i < files.len() && (#[trigger] files[i]).path == other by {
                                if other == name {
                                    assert(files[before.len() as int].path == name);
                                } else {
                                    let i = choose|i: int| 0 <= i < before.len() && (#[trigger] before[i]).path == other;
                                    assert(files[i] == before[i]);
                                }
                            }
                            assert forall|i: int| 0 <= i < files.len() implies {
                                let file = #[trigger] files[i];
                                &&& rank_of(file.path) < n
                                &&& has_file(disk, dir, file.path)
                                &&& (disk.file)(path::joined(dir, file.path)) == Ok::<(u64, Seq<char>), Seq<char>>(
                                    (file.size, file.sha256),
                                )
                            } by {
                                if i < before.len() {
                                    assert(files[i] == before[i]);
                                }
                            }
                            assert forall|i: int, j: int| 0 <= i < j < files.len() implies rank_of(
                                (#[trigger] files[i]).path,
                            ) < rank_of((#[trigger] files[j]).path) by {
                                assert(files[i] == before[i]);
                                if j < before.len() {
                                    assert(files[j] == before[j]);
                                }
                            }
                        },
                        Err(e) => {
                            assert(has_file(disk, dir, name));
                        },
                    }
                }
            },
        }
    }
}

proof fn lemma_files_in(disk: Disk, dir: Seq<char>)
    ensures
        listing(disk, dir, 4) is Ok <==> can_be_read(disk, dir),
        listing(disk, dir, 4) is Ok ==> lists_what_is_there(disk, dir, files_in(disk, dir)),
        listing(disk, dir, 4) is Ok ==> (has_memory(files_in(disk, dir)) <==> has_file(disk, dir, "memory.bin"@)),
{
    lemma_listing_lists(disk, dir, 4);
    lemma_ranks(3);
    if listing(disk, dir, 4) is Ok {
        let files = files_in(disk, dir);
        if has_memory(files) {
            let i = choose|i: int| 0 <= i < files.len() && (#[trigger] files[i]).path == "memory.bin"@;
            assert(has_file(disk, dir, files[i].path));
        }
    }
}

/// Why a file of `dir` that is there cannot be read: what is said of the first of the four of which that is
/// so.
pub open spec fn is_first_unreadable(disk: Disk, dir: Seq<char>, reason: Seq<char>) -> bool {
    exists|name: Seq<char>|
        {
            &&& 0 <= rank_of(name) < 4
            &&& #[trigger] has_file(disk, dir, name)
            &&& (disk.file)(path::joined(dir, name)) == Err::<(u64, Seq<char>), Seq<char>>(reason)
            &&& forall|other: Seq<char>|
                rank_of(other) < rank_of(name) && #[trigger] has_file(disk, dir, other) ==> (disk.file)(
                    path::joined(dir, other),
                ) is Ok
        }
}

/// Whether the manifest says what the caller said of the pack.
pub open spec fn keeps_info(m: Manifest, info: PackInfo) -> bool {
    &&& m.description matches Some(d) ==> info.description == Some(d@)
    &&& m.description is None ==> info.description is None
    &&& m.base_image matches Some(b) ==> info.base_image == Some(b@)
    &&& m.base_image is None ==> info.base_image is None
    &&& m.created_at@ == info.created_at
    &&& m.forkd_version@ == info.forkd_version
}

/// Whether `outcome` is right for a snapshot without a parent: an error where its state or its memory is not
/// there, or a file that is there cannot be read, and else a pack of the first format with the files that are
/// there and nothing else, each by its own name and from the directory.
pub open spec fn is_packed_alone(
    disk: Disk,
    info: PackInfo,
    dir: Seq<char>,
    outcome: Result<PackPlan, PackError>,
) -> bool {
    let has_vmstate = has_file(disk, dir, "vmstate"@);
    let has_memory = has_file(disk, dir, "memory.bin"@);
    &&& outcome is Ok <==> has_vmstate && has_memory && can_be_read(disk, dir)
    &&& match outcome {
        Ok(plan) => {
            let m = plan.manifest;
            let files = plain_entries(m.files@);
            &&& m.forkd_pack_version == 1
            &&& m.tag@ == info.tag
            &&& keeps_info(m, info)
            &&& m.parent_tag is None
            &&& m.chain@.len() == 0
            &&& lists_what_is_there(disk, dir, files)
            &&& plan.sources@.len() == files.len()
            &&& forall|i: int|
                0 <= i < files.len() ==> (#[trigger] plan.sources@[i]).name@ == files[i].path && plan.sources@[i].path@
                    == path::joined(dir, files[i].path)
        },
        Err(PackError::NoVmstate { dir: d }) => d@ == dir && !has_vmstate,
        Err(PackError::NoMemory { dir: d }) => d@ == dir && has_vmstate && !has_memory,
        Err(PackError::Unreadable { reason }) => {
            &&& has_vmstate && has_memory
            &&& is_first_unreadable(disk, dir, reason@)
        },
        Err(_) => false,
    }
}

proof fn lemma_packed_alone(disk: Disk, info: PackInfo, dir: Seq<char>, outcome: Result<PackPlan, PackError>)
    requires
        is_pack_outcome(disk, info, dir, outcome),
        (disk.meta)(dir) matches Some(meta) ==> meta.parent_tag is None,
    ensures
        is_packed_alone(disk, info, dir, outcome),
{
    lemma_files_in(disk, dir);
    lemma_listing_lists(disk, dir, 4);
    if let Ok(plan) = outcome {
        let m = plan.manifest;
        let files = plain_entries(m.files@);
        assert(m.chain@.len() == m@.chain.len());
        assert(files =~= m@.files);
        assert(files == files_in(disk, dir));
        assert(sources_of(plan.sources@).len() == plan.sources@.len());
        assert forall|i: int| 0 <= i < files.len() implies (#[trigger] plan.sources@[i]).name@ == files[i].path
            && plan.sources@[i].path@ == path::joined(dir, files[i].path) by {
            assert(sources_of(plan.sources@)[i] == (plan.sources@[i].name@, plan.sources@[i].path@));
            assert(sources_of(plan.sources@)[i] == single_sources(dir, files)[i]);
        }
    }
}

/// A snapshot without a parent is packed, or not, as [`is_packed_alone`] says: success is owed whenever its
/// state and its memory are there and what is there can be read.
pub proof fn law_base_is_packed_alone<
    R: Fn(&str) -> Option<Snapshot>,
    E: Fn(&str) -> bool,
    D: Fn(&str) -> Result<(u64, String), String>,
>(
    tag: &str,
    description: Option<String>,
    base_image: Option<String>,
    created_at: String,
    forkd_version: String,
    snap_dir: &str,
    read_meta: &R,
    exists: &E,
    describe: &D,
    outcome: Result<PackPlan, PackError>,
    disk: Disk,
)
    requires
        call_ensures(
            pack_at::<R, E, D>,
            (tag, description, base_image, created_at, forkd_version, snap_dir, read_meta, exists, describe),
            outcome,
        ),
        answer_by(*read_meta, *exists, *describe, disk),
        (disk.meta)(snap_dir@) matches Some(meta) ==> meta.parent_tag is None,
    ensures
        is_packed_alone(
            disk,
            PackInfo {
                tag: tag@,
                description: snapshot::opt_text(description),
                base_image: snapshot::opt_text(base_image),
                created_at: created_at@,
                forkd_version: forkd_version@,
            },
            snap_dir@,
            outcome,
        ),
{
    assert(shows(*read_meta, *exists, *describe, disk));
    let info = PackInfo {
        tag: tag@,
        description: snapshot::opt_text(description),
        base_image: snapshot::opt_text(base_image),
        created_at: created_at@,
        forkd_version: forkd_version@,
    };
    assert(is_pack_outcome(disk, info, snap_dir@, outcome));
    lemma_packed_alone(disk, info, snap_dir@, outcome);
}

/// Whether `walk` leads from the snapshot in `head_dir`, which goes by the name of that directory, from
/// parent to parent: each in the directory of its tag in `root`, with its state and its metadata, and none
/// twice.
pub open spec fn is_line(disk: Disk, root: Seq<char>, head_dir: Seq<char>, walk: Seq<PackLink>) -> bool {
    &&& walk.len() > 0
    &&& walk[0].dir == head_dir
    &&& path::file_name_of(head_dir) == Some(walk[0].tag)
    &&& (disk.meta)(head_dir) == Some(walk[0].snap)
    &&& forall|i: int|
        0 <= i < walk.len() - 1 ==> (#[trigger] walk[i]).snap.parent_tag == Some(walk[i + 1].tag)
    &&& forall|i: int|
        1 <= i < walk.len() ==> {
            let link = #[trigger] walk[i];
            &&& link.dir == path::joined(root, link.tag)
            &&& has_file(disk, link.dir, "vmstate"@)
            &&& (disk.meta)(link.dir) == Some(link.snap)
        }
    &&& forall|i: int, j: int| 0 <= i < j < walk.len() ==> (#[trigger] walk[i]).tag != (#[trigger] walk[j]).tag
}

/// Whether the memory of a link is there, and all that is there of it can be read.
pub open spec fn is_complete(disk: Disk, link: PackLink) -> bool {
    has_file(disk, link.dir, "memory.bin"@) && can_be_read(disk, link.dir)
}

/// How many files the links before link `i` have.
pub open spec fn files_before(chain: Seq<ChainLinkMeta>, i: int) -> int
    decreases i,
{
    if i <= 0 {
        0
    } else {
        files_before(chain, i - 1) + chain[i - 1].files@.len()
    }
}

/// Whether the plan is one of all the links of `walk`, the last of them first: in the second format, by the
/// tag of the head, each link with its tag, its parent, its parent's hash and the files that are there, and
/// each of these from its own directory and under its own tag.
pub open spec fn is_packed_line(disk: Disk, info: PackInfo, walk: Seq<PackLink>, plan: PackPlan) -> bool {
    let m = plan.manifest;
    let chain = m.chain@;
    let n = walk.len();
    &&& m.forkd_pack_version == 2
    &&& m.tag@ == walk[0].tag
    &&& keeps_info(m, info)
    &&& snapshot::opt_text(m.parent_tag) == walk[0].snap.parent_tag
    &&& m.files@.len() == 0
    &&& chain.len() == n
    &&& forall|i: int|
        0 <= i < n ==> {
            let meta = #[trigger] chain[i];
            let link = walk[n - 1 - i];
            &&& meta.tag@ == link.tag
            &&& snapshot::opt_text(meta.parent_tag) == link.snap.parent_tag
            &&& snapshot::opt_text(meta.parent_content_hash) == link.snap.parent_content_hash
            &&& lists_what_is_there(disk, link.dir, plain_entries(meta.files@))
        }
    &&& plan.sources@.len() == files_before(chain, n as int)
    &&& forall|i: int, f: int|
        0 <= i < n && 0 <= f < chain[i].files@.len() ==> {
            let name = (#[trigger] chain[i].files@[f]).path@;
            let link = walk[n - 1 - i];
            let source = plan.sources@[files_before(chain, i) + f];
            &&& source.name@ == link.tag + seq!['/'] + name
            &&& source.path@ == path::joined(link.dir, name)
        }
}

/// Whether link `k`, counted from the root, is the first that is not complete, and `error` says why.
pub open spec fn is_first_incomplete(disk: Disk, walk: Seq<PackLink>, k: int, error: PackError) -> bool {
    let link = walk[walk.len() - 1 - k];
    &&& 0 <= k < walk.len()
    &&& !is_complete(disk, link)
    &&& forall|j: int| walk.len() - 1 - k < j < walk.len() ==> is_complete(disk, #[trigger] walk[j])
    &&& match error {
        PackError::Unreadable { reason } => is_first_unreadable(disk, link.dir, reason@),
        PackError::LinkWithoutMemory { link_tag, dir } => {
            &&& can_be_read(disk, link.dir)
            &&& !has_file(disk, link.dir, "memory.bin"@)
            &&& link_tag@ == link.tag
            &&& dir@ == link.dir
        },
        _ => false,
    }
}

/// Whether `outcome` is right for a chain that `walk` is a line of. Where the line ends at a root, that is a
/// pack if all its links are complete, and else an error for the first that is not. Where the next parent is
/// on the line already, is not there or has no metadata, it is an error that says so.
pub open spec fn is_packed_chain(
    disk: Disk,
    info: PackInfo,
    root: Seq<char>,
    walk: Seq<PackLink>,
    outcome: Result<PackPlan, PackError>,
) -> bool {
    match walk.last().snap.parent_tag {
        None => {
            &&& outcome is Ok <==> forall|i: int| 0 <= i < walk.len() ==> is_complete(disk, #[trigger] walk[i])
            &&& match outcome {
                Ok(plan) => is_packed_line(disk, info, walk, plan),
                Err(error) => exists|k: int| #[trigger] is_first_incomplete(disk, walk, k, error),
            }
        },
        Some(next) => {
            let next_dir = path::joined(root, next);
            if exists|i: int| 0 <= i < walk.len() && (#[trigger] walk[i]).tag == next {
                outcome matches Err(PackError::Cycle { head_tag, parent_tag }) && head_tag@ == info.tag && parent_tag@
                    == next
            } else if !has_file(disk, next_dir, "vmstate"@) {
                &&& outcome matches Err(PackError::MissingParent { head_tag, parent_tag, dir })
                &&& head_tag@ == info.tag && parent_tag@ == next && dir@ == next_dir
            } else {
                (disk.meta)(next_dir) is None ==> {
                    &&& outcome matches Err(PackError::ParentWithoutMeta { parent_tag, dir })
                    &&& parent_tag@ == next && dir@ == next_dir
                }
            }
        },
    }
}

/// Whether the files of a link stand at `at`.
spec fn has_link_sources(sources: Seq<(Seq<char>, Seq<char>)>, at: int, link: PackLink, files: Seq<FileEntryView>) -> bool {
    &&& 0 <= at
    &&& at + files.len() <= sources.len()
    &&& forall|f: int|
        0 <= f < files.len() ==> sources[at + f] == (
            manifest::link_file(link.tag, (#[trigger] files[f]).path),
            path::joined(link.dir, files[f].path),
        )
}

proof fn lemma_sources_stay(
    before: Seq<(Seq<char>, Seq<char>)>,
    own: Seq<(Seq<char>, Seq<char>)>,
    at: int,
    link: PackLink,
    files: Seq<FileEntryView>,
)
    requires
        has_link_sources(before, at, link, files),
    ensures
        has_link_sources(before + own, at, link, files),
{
    let sources = before + own;
    assert forall|f: int| 0 <= f < files.len() implies sources[at + f] == (
        manifest::link_file(link.tag, (#[trigger] files[f]).path),
        path::joined(link.dir, files[f].path),
    ) by {
        assert(sources[at + f] == before[at + f]);
    }
}

proof fn lemma_own_sources(before: Seq<(Seq<char>, Seq<char>)>, link: PackLink, files: Seq<FileEntryView>)
    ensures
        has_link_sources(before + link_sources(link, files), before.len() as int, link, files),
{
    let own = link_sources(link, files);
    let sources = before + own;
    assert forall|f: int| 0 <= f < files.len() implies sources[before.len() + f] == (
        manifest::link_file(link.tag, (#[trigger] files[f]).path),
        path::joined(link.dir, files[f].path),
    ) by {
        assert(sources[before.len() + f] == own[f]);
    }
}

proof fn lemma_all_sources(disk: Disk, links: Seq<PackLink>, chain: Seq<ChainLinkMeta>, n: int)
    requires
        0 <= n <= links.len(),
        chain.len() == links.len(),
        forall|i: int| 0 <= i < links.len() ==> (#[trigger] chain[i]).files@.len() == files_in(disk, links[i].dir).len(),
    ensures
        ({
            let sources = chain_sources(disk, links.take(n));
            &&& sources.len() == files_before(chain, n)
            &&& forall|i: int|
                0 <= i < n ==> has_link_sources(
                    sources,
                    files_before(chain, i),
                    #[trigger] links[i],
                    files_in(disk, links[i].dir),
                )
        }),
    decreases n,
{
    if n > 0 {
        lemma_all_sources(disk, links, chain, n - 1);
        let before = chain_sources(disk, links.take(n - 1));
        let last = links[n - 1];
        let files = files_in(disk, last.dir);
        assert(links.take(n).drop_last() =~= links.take(n - 1));
        assert(links.take(n).last() == last);
        let sources = chain_sources(disk, links.take(n));
        assert(sources == before + link_sources(last, files));
        assert(chain[n - 1].files@.len() == files.len());
        assert forall|i: int| 0 <= i < n implies has_link_sources(
            sources,
            files_before(chain, i),
            #[trigger] links[i],
            files_in(disk, links[i].dir),
        ) by {
            if i < n - 1 {
                lemma_sources_stay(
                    before,
                    link_sources(last, files),
                    files_before(chain, i),
                    links[i],
                    files_in(disk, links[i].dir),
                );
            } else {
                lemma_own_sources(before, last, files);
            }
        }
    }
}

proof fn lemma_packed_line(disk: Disk, info: PackInfo, root: Seq<char>, walk: Seq<PackLink>, plan: PackPlan)
    requires
        walk.len() > 0,
        chain_explains(disk, info, root, walk, Ok(plan)),
    ensures
        is_packed_line(disk, info, walk, plan),
{
    let m = plan.manifest;
    let chain = m.chain@;
    let n = walk.len() as int;
    let links = walk.reverse();
    let metas = link_metas(disk, links);
    assert(m@.chain == metas);
    assert(m@.chain.len() == chain.len());
    assert(m@.files.len() == m.files@.len());
    assert(chain.len() == n);
    assert(links.last() == walk[0]);
    assert(metas.last() == link_meta(disk, links.last()));
    assert forall|i: int| 0 <= i < n implies {
        let meta = #[trigger] chain[i];
        let link = walk[n - 1 - i];
        &&& meta.tag@ == link.tag
        &&& snapshot::opt_text(meta.parent_tag) == link.snap.parent_tag
        &&& snapshot::opt_text(meta.parent_content_hash) == link.snap.parent_content_hash
        &&& plain_entries(meta.files@) == files_in(disk, link.dir)
        &&& lists_what_is_there(disk, link.dir, plain_entries(meta.files@))
    } by {
        let meta = chain[i];
        let link = links[i];
        assert(manifest::links_of(chain)[i] == meta@);
        assert(meta@ == link_meta(disk, link));
        assert(plain_entries(meta.files@) =~= meta@.files);
        assert(is_packable(disk, links[i]));
        lemma_files_in(disk, link.dir);
    }
    assert forall|i: int| 0 <= i < links.len() implies (#[trigger] chain[i]).files@.len() == files_in(
        disk,
        links[i].dir,
    ).len() by {
        assert(plain_entries(chain[i].files@).len() == chain[i].files@.len());
    }
    lemma_all_sources(disk, links, chain, n);
    assert(links.take(n) =~= links);
    let sources = sources_of(plan.sources@);
    assert(sources.len() == plan.sources@.len());
    assert forall|i: int, f: int| 0 <= i < n && 0 <= f < chain[i].files@.len() implies {
        let name = (#[trigger] chain[i].files@[f]).path@;
        let link = walk[n - 1 - i];
        let source = plan.sources@[files_before(chain, i) + f];
        &&& source.name@ == link.tag + seq!['/'] + name
        &&& source.path@ == path::joined(link.dir, name)
    } by {
        let link = links[i];
        let files = files_in(disk, link.dir);
        assert(has_link_sources(sources, files_before(chain, i), links[i], files));
        assert(plain_entries(chain[i].files@) == files);
        assert(files[f].path == chain[i].files@[f].path@);
        let k = files_before(chain, i) + f;
        assert(sources[k] == (plan.sources@[k].name@, plan.sources@[k].path@));
        reveal_strlit("/");
        assert("/"@ =~= seq!['/']);
    }
}

/// A line is the ancestry that a chain is packed by.
proof fn lemma_line_is_ancestry(disk: Disk, root: Seq<char>, head_dir: Seq<char>, walk: Seq<PackLink>)
    requires
        is_line(disk, root, head_dir, walk),
    ensures
        is_ancestry(disk, root, walk[0], walk),
{
    assert forall|i: int| 0 < i < walk.len() implies {
        &&& walk[i - 1].snap.parent_tag == Some((#[trigger] walk[i]).tag)
        &&& walk[i].dir == path::joined(root, walk[i].tag)
        &&& (disk.present)(path::joined(walk[i].dir, "vmstate"@))
        &&& (disk.meta)(walk[i].dir) == Some(walk[i].snap)
    } by {
        assert(walk[i - 1].snap.parent_tag == Some(walk[i - 1 + 1].tag));
        assert(has_file(disk, walk[i].dir, "vmstate"@));
    }
}

proof fn lemma_packed_chain(
    disk: Disk,
    info: PackInfo,
    root: Seq<char>,
    head_dir: Seq<char>,
    outcome: Result<PackPlan, PackError>,
    walk: Seq<PackLink>,
)
    requires
        is_chain_outcome(disk, info, root, head_dir, outcome),
        is_line(disk, root, head_dir, walk),
    ensures
        is_packed_chain(disk, info, root, walk, outcome),
{
    let head = walk[0];
    lemma_line_is_ancestry(disk, root, head_dir, walk);
    assert(head == PackLink { tag: head.tag, dir: head_dir, snap: head.snap });
    let w = choose|w: Seq<PackLink>|
        is_ancestry(disk, root, PackLink { tag: head.tag, dir: head_dir, snap: head.snap }, w)
            && #[trigger] chain_explains(disk, info, root, w, outcome);
    let next = walk.last().snap.parent_tag;
    let goes_on = next is Some && !has_tag(walk, next->0) && has_file(disk, path::joined(root, next->0), "vmstate"@)
        && (disk.meta)(path::joined(root, next->0)) is Some;
    if !goes_on {
        if w.len() < walk.len() {
            lemma_walk_goes_on(disk, info, root, head, w, walk, outcome);
        } else if walk.len() < w.len() {
            let n = walk.len() as int;
            lemma_ancestries_agree(disk, root, head, walk, w, n);
            assert(walk.take(n) =~= walk);
            assert(w[n - 1] == w.take(n)[n - 1]);
            assert(walk.last().snap.parent_tag == Some(w[n].tag));
            assert forall|i: int| 0 <= i < n implies (#[trigger] walk[i]).tag != w[n].tag by {
                assert(walk[i] == w.take(n)[i]);
                assert(w[i].tag != w[n].tag);
            }
        } else {
            lemma_ancestries_agree(disk, root, head, walk, w, walk.len() as int);
            assert(walk.take(walk.len() as int) =~= walk);
            assert(w.take(w.len() as int) =~= w);
        }
        assert(chain_explains(disk, info, root, walk, outcome));
        if next is None {
            let links = walk.reverse();
            assert forall|i: int| 0 <= i < walk.len() implies (is_packable(disk, links[walk.len() - 1 - i])
                <==> is_complete(disk, #[trigger] walk[i])) by {
                assert(links[walk.len() - 1 - i] == walk[i]);
                lemma_files_in(disk, walk[i].dir);
            }
            match outcome {
                Ok(plan) => {
                    lemma_packed_line(disk, info, root, walk, plan);
                    assert forall|i: int| 0 <= i < walk.len() implies is_complete(disk, #[trigger] walk[i]) by {
                        assert(is_packable(disk, links[walk.len() - 1 - i]));
                    }
                },
                Err(error) => {
                    let k = choose|k: int| #[trigger] is_first_unpackable(disk, links, k, error);
                    let link = walk[walk.len() - 1 - k];
                    assert(links[k] == link);
                    lemma_files_in(disk, link.dir);
                    lemma_listing_lists(disk, link.dir, 4);
                    assert(!is_complete(disk, link));
                    assert forall|j: int| walk.len() - 1 - k < j < walk.len() implies is_complete(
                        disk,
                        #[trigger] walk[j],
                    ) by {
                        assert(is_packable(disk, links[walk.len() - 1 - j]));
                    }
                    assert(is_first_incomplete(disk, walk, k, error));
                },
            }
        }
    }
}

/// A chain is packed, or not, as [`is_packed_chain`] says of any line that leads from its head: success is
/// owed whenever the line ends at a root and all its links are complete.
pub proof fn law_chain_is_packed_whole<
    R: Fn(&str) -> Option<Snapshot>,
    E: Fn(&str) -> bool,
    D: Fn(&str) -> Result<(u64, String), String>,
>(
    head_tag: &str,
    description: Option<String>,
    base_image: Option<String>,
    created_at: String,
    forkd_version: String,
    snap_root: &str,
    head_dir: &str,
    read_meta: &R,
    exists: &E,
    describe: &D,
    outcome: Result<PackPlan, PackError>,
    disk: Disk,
)
    requires
        call_ensures(
            pack_chain_at::<R, E, D>,
            (
                head_tag,
                description,
                base_image,
                created_at,
                forkd_version,
                snap_root,
                head_dir,
                read_meta,
                exists,
                describe,
            ),
            outcome,
        ),
        answer_by(*read_meta, *exists, *describe, disk),
    ensures
        path::file_name_of(head_dir@) is None ==> (outcome matches Err(PackError::NoDirName { dir }) && dir@ == head_dir@),
        path::file_name_of(head_dir@) is Some && (disk.meta)(head_dir@) is None ==> (
        outcome matches Err(PackError::HeadWithoutMeta { dir }) && dir@ == head_dir@),
        forall|walk: Seq<PackLink>| #[trigger]
            is_line(disk, snap_root@, head_dir@, walk) ==> is_packed_chain(
                disk,
                PackInfo {
                    tag: head_tag@,
                    description: snapshot::opt_text(description),
                    base_image: snapshot::opt_text(base_image),
                    created_at: created_at@,
                    forkd_version: forkd_version@,
                },
                snap_root@,
                walk,
                outcome,
            ),
        outcome is Ok ==> exists|walk: Seq<PackLink>| #[trigger] is_line(disk, snap_root@, head_dir@, walk)
            && walk.last().snap.parent_tag is None,
{
    assert(shows(*read_meta, *exists, *describe, disk));
    let info = PackInfo {
        tag: head_tag@,
        description: snapshot::opt_text(description),
        base_image: snapshot::opt_text(base_image),
        created_at: created_at@,
        forkd_version: forkd_version@,
    };
    assert(is_chain_outcome(disk, info, snap_root@, head_dir@, outcome));
    assert forall|walk: Seq<PackLink>| #[trigger] is_line(disk, snap_root@, head_dir@, walk) implies is_packed_chain(
        disk,
        info,
        snap_root@,
        walk,
        outcome,
    ) by {
        lemma_packed_chain(disk, info, snap_root@, head_dir@, outcome, walk);
    }
    if let Ok(plan) = outcome {
        let walk = lemma_chain_walk(disk, info, snap_root@, head_dir@, plan);
        lemma_ancestry_is_line(disk, snap_root@, head_dir@, walk);
    }
}

proof fn lemma_ancestry_is_line(disk: Disk, root: Seq<char>, head_dir: Seq<char>, walk: Seq<PackLink>)
    requires
        path::file_name_of(head_dir) is Some,
        (disk.meta)(head_dir) is Some,
        is_ancestry(
            disk,
            root,
            PackLink { tag: path::file_name_of(head_dir)->0, dir: head_dir, snap: (disk.meta)(head_dir)->0 },
            walk,
        ),
    ensures
        is_line(disk, root, head_dir, walk),
{
    assert forall|i: int| 0 <= i < walk.len() - 1 implies (#[trigger] walk[i]).snap.parent_tag == Some(walk[i + 1].tag) by {
        assert(walk[i + 1 - 1].snap.parent_tag == Some(walk[i + 1].tag));
    }
}

/// A snapshot with a parent is packed together with all its ancestors, which lie beside it: as
/// [`law_chain_is_packed_whole`] says, where its directory is in another and its state is there.
pub proof fn law_chained_snapshot_is_packed_whole<
    R: Fn(&str) -> Option<Snapshot>,
    E: Fn(&str) -> bool,
    D: Fn(&str) -> Result<(u64, String), String>,
>(
    tag: &str,
    description: Option<String>,
    base_image: Option<String>,
    created_at: String,
    forkd_version: String,
    snap_dir: &str,
    read_meta: &R,
    exists: &E,
    describe: &D,
    outcome: Result<PackPlan, PackError>,
    disk: Disk,
)
    requires
        call_ensures(
            pack_at::<R, E, D>,
            (tag, description, base_image, created_at, forkd_version, snap_dir, read_meta, exists, describe),
            outcome,
        ),
        answer_by(*read_meta, *exists, *describe, disk),
        (disk.meta)(snap_dir@) matches Some(meta) && meta.parent_tag is Some,
    ensures
        path::parent_of(snap_dir@) is None ==> (outcome matches Err(PackError::NoParentDir { dir }) && dir@ == snap_dir@),
        path::parent_of(snap_dir@) is Some && !has_file(disk, snap_dir@, "vmstate"@) ==> (
        outcome matches Err(PackError::NoVmstate { dir }) && dir@ == snap_dir@),
        path::parent_of(snap_dir@) is Some && has_file(disk, snap_dir@, "vmstate"@) ==> {
            let root = path::parent_of(snap_dir@)->0;
            &&& path::file_name_of(snap_dir@) is None ==> (outcome matches Err(PackError::NoDirName { dir }) && dir@
                == snap_dir@)
            &&& forall|walk: Seq<PackLink>| #[trigger]
                is_line(disk, root, snap_dir@, walk) ==> is_packed_chain(
                    disk,
                    PackInfo {
                        tag: tag@,
                        description: snapshot::opt_text(description),
                        base_image: snapshot::opt_text(base_image),
                        created_at: created_at@,
                        forkd_version: forkd_version@,
                    },
                    root,
                    walk,
                    outcome,
                )
            &&& outcome is Ok ==> exists|walk: Seq<PackLink>| #[trigger] is_line(disk, root, snap_dir@, walk)
                && walk.last().snap.parent_tag is None
        },
{
    assert(shows(*read_meta, *exists, *describe, disk));
    let info = PackInfo {
        tag: tag@,
        description: snapshot::opt_text(description),
        base_image: snapshot::opt_text(base_image),
        created_at: created_at@,
        forkd_version: forkd_version@,
    };
    assert(is_pack_outcome(disk, info, snap_dir@, outcome));
    if path::parent_of(snap_dir@) is Some && has_file(disk, snap_dir@, "vmstate"@) {
        let root = path::parent_of(snap_dir@)->0;
        assert(is_chain_outcome(disk, info, root, snap_dir@, outcome));
        assert forall|walk: Seq<PackLink>| #[trigger] is_line(disk, root, snap_dir@, walk) implies is_packed_chain(
            disk,
            info,
            root,
            walk,
            outcome,
        ) by {
            lemma_packed_chain(disk, info, root, snap_dir@, outcome, walk);
        }
        if let Ok(plan) = outcome {
            let walk = lemma_chain_walk(disk, info, root, snap_dir@, plan);
            lemma_ancestry_is_line(disk, root, snap_dir@, walk);
        }
    }
}

/// Whether `outcome` is right for the snapshot in `snap_dir`: alone where it has no parent, else with all its
/// ancestors, which lie beside it.
pub open spec fn is_packed(disk: Disk, info: PackInfo, snap_dir: Seq<char>, outcome: Result<PackPlan, PackError>) -> bool {
    let chained = (disk.meta)(snap_dir) matches Some(meta) && meta.parent_tag is Some;
    &&& !chained ==> is_packed_alone(disk, info, snap_dir, outcome)
    &&& chained && path::parent_of(snap_dir) is Some && has_file(disk, snap_dir, "vmstate"@) ==> forall|
        walk: Seq<PackLink>,
    | #[trigger]
        is_line(disk, path::parent_of(snap_dir)->0, snap_dir, walk) ==> is_packed_chain(
            disk,
            info,
            path::parent_of(snap_dir)->0,
            walk,
            outcome,
        )
}

/// Packing by the clock is packing with a stamp that tells what some reading of the clock shows.
pub proof fn law_pack_is_stamped_by_the_clock<
    R: Fn(&str) -> Option<Snapshot>,
    E: Fn(&str) -> bool,
    D: Fn(&str) -> Result<(u64, String), String>,
>(
    tag: &str,
    description: Option<String>,
    base_image: Option<String>,
    forkd_version: String,
    snap_dir: &str,
    read_meta: &R,
    exists: &E,
    describe: &D,
    outcome: Result<PackPlan, PackError>,
    disk: Disk,
)
    requires
        call_ensures(
            pack::<R, E, D>,
            (tag, description, base_image, forkd_version, snap_dir, read_meta, exists, describe),
            outcome,
        ),
        answer_by(*read_meta, *exists, *describe, disk),
    ensures
        exists|created_at: Seq<char>| #[trigger]
            calendar::tells_a_reading(created_at) && is_packed(
                disk,
                PackInfo {
                    tag: tag@,
                    description: snapshot::opt_text(description),
                    base_image: snapshot::opt_text(base_image),
                    created_at,
                    forkd_version: forkd_version@,
                },
                snap_dir@,
                outcome,
            ),
{
    assert(shows(*read_meta, *exists, *describe, disk));
    let (t, created_at) = choose|t: std::time::SystemTime, created_at: Seq<char>| #[trigger]
        calendar::is_stamp(created_at, calendar::unix_secs_of(t) as int) && is_pack_outcome_of(
            *read_meta,
            *exists,
            *describe,
            (PackInfo {
                tag: tag@,
                description: snapshot::opt_text(description),
                base_image: snapshot::opt_text(base_image),
                created_at,
                forkd_version: forkd_version@,
            }),
            snap_dir@,
            outcome,
        );
    let info = PackInfo {
        tag: tag@,
        description: snapshot::opt_text(description),
        base_image: snapshot::opt_text(base_image),
        created_at,
        forkd_version: forkd_version@,
    };
    assert(is_pack_outcome(disk, info, snap_dir@, outcome));
    calendar::lemma_stamp_tells_a_reading(created_at, t);
    let chained = (disk.meta)(snap_dir@) matches Some(meta) && meta.parent_tag is Some;
    if !chained {
        lemma_packed_alone(disk, info, snap_dir@, outcome);
    } else if path::parent_of(snap_dir@) is Some && has_file(disk, snap_dir@, "vmstate"@) {
        let root = path::parent_of(snap_dir@)->0;
        assert forall|walk: Seq<PackLink>| #[trigger] is_line(disk, root, snap_dir@, walk) implies is_packed_chain(
            disk,
            info,
            root,
            walk,
            outcome,
        ) by {
            lemma_packed_chain(disk, info, root, snap_dir@, outcome, walk);
        }
    }
    assert(is_packed(disk, info, snap_dir@, outcome));
}

/// Packing a chain by the clock is packing it with a stamp that tells what some reading of the clock shows.
pub proof fn law_chain_is_stamped_by_the_clock<
    R: Fn(&str) -> Option<Snapshot>,
    E: Fn(&str) -> bool,
    D: Fn(&str) -> Result<(u64, String), String>,
>(
    head_tag: &str,
    description: Option<String>,
    base_image: Option<String>,
    forkd_version: String,
    snap_root: &str,
    head_dir: &str,
    read_meta: &R,
    exists: &E,
    describe: &D,
    outcome: Result<PackPlan, PackError>,
    disk: Disk,
    walk: Seq<PackLink>,
)
    requires
        call_ensures(
            pack_chain::<R, E, D>,
            (head_tag, description, base_image, forkd_version, snap_root, head_dir, read_meta, exists, describe),
            outcome,
        ),
        answer_by(*read_meta, *exists, *describe, disk),
        is_line(disk, snap_root@, head_dir@, walk),
    ensures
        exists|created_at: Seq<char>| #[trigger]
            calendar::tells_a_reading(created_at) && is_packed_chain(
                disk,
                PackInfo {
                    tag: head_tag@,
                    description: snapshot::opt_text(description),
                    base_image: snapshot::opt_text(base_image),
                    created_at,
                    forkd_version: forkd_version@,
                },
                snap_root@,
                walk,
                outcome,
            ),
{
    assert(shows(*read_meta, *exists, *describe, disk));
    let (t, created_at) = choose|t: std::time::SystemTime, created_at: Seq<char>| #[trigger]
        calendar::is_stamp(created_at, calendar::unix_secs_of(t) as int) && is_chain_outcome_of(
            *read_meta,
            *exists,
            *describe,
            (PackInfo {
                tag: head_tag@,
                description: snapshot::opt_text(description),
                base_image: snapshot::opt_text(base_image),
                created_at,
                forkd_version: forkd_version@,
            }),
            snap_root@,
            head_dir@,
            outcome,
        );
    let info = PackInfo {
        tag: head_tag@,
        description: snapshot::opt_text(description),
        base_image: snapshot::opt_text(base_image),
        created_at,
        forkd_version: forkd_version@,
    };
    assert(is_chain_outcome(disk, info, snap_root@, head_dir@, outcome));
    calendar::lemma_stamp_tells_a_reading(created_at, t);
    lemma_packed_chain(disk, info, snap_root@, head_dir@, outcome, walk);
}

/// The message of an error tells all that the error holds.
pub proof fn law_pack_errors_name_what_failed(e: &PackError, m: String)
    requires
        call_ensures(PackError::message, (e,), m),
    ensures
        match *e {
            PackError::NoParentDir { dir } => text::mentions(m@, dir@),
            PackError::NoVmstate { dir } => text::mentions(m@, dir@),
            PackError::NoMemory { dir } => text::mentions(m@, dir@),
            PackError::Unreadable { reason } => text::mentions(m@, reason@),
            PackError::NoDirName { dir } => text::mentions(m@, dir@),
            PackError::HeadWithoutMeta { dir } => text::mentions(m@, dir@),
            PackError::Cycle { head_tag, parent_tag } => {
                &&& text::mentions(m@, head_tag@)
                &&& text::mentions(m@, parent_tag@)
            },
            PackError::MissingParent { head_tag, parent_tag, dir } => {
                &&& text::mentions(m@, head_tag@)
                &&& text::mentions(m@, parent_tag@)
                &&& text::mentions(m@, dir@)
            },
            PackError::ParentWithoutMeta { parent_tag, dir } => {
                &&& text::mentions(m@, parent_tag@)
                &&& text::mentions(m@, dir@)
            },
            PackError::LinkWithoutMemory { link_tag, dir } => {
                &&& text::mentions(m@, link_tag@)
                &&& text::mentions(m@, dir@)
            },
        },
{
    match *e {
        PackError::NoParentDir { dir } => {
            text::lemma_mentions("snap_dir "@, dir@, " has no parent — cannot resolve chain ancestors"@, m@);
        },
        PackError::NoVmstate { dir } => {
            text::lemma_mentions("snapshot directory "@, dir@, " has no `vmstate`; nothing to pack"@, m@);
        },
        PackError::NoMemory { dir } => {
            text::lemma_mentions("snapshot directory "@, dir@, " has no `memory.bin`; nothing to pack"@, m@);
        },
        PackError::Unreadable { reason } => {
            text::lemma_mentions(Seq::<char>::empty(), reason@, Seq::<char>::empty(), m@);
        },
        PackError::NoDirName { dir } => {
            text::lemma_mentions("snap_dir "@, dir@, " has no usable file name"@, m@);
        },
        PackError::HeadWithoutMeta { dir } => {
            text::lemma_mentions("head "@, dir@, " has no snapshot.json — cannot pack chain"@, m@);
        },
        PackError::Cycle { head_tag, parent_tag } => {
            text::lemma_mentions("chain for `"@, head_tag@, "` reaches `"@ + parent_tag@ + "` twice — cycle"@, m@);
            text::lemma_mentions("chain for `"@ + head_tag@ + "` reaches `"@, parent_tag@, "` twice — cycle"@, m@);
        },
        PackError::MissingParent { head_tag, parent_tag, dir } => {
            text::lemma_mentions(
                "chain for `"@,
                head_tag@,
                "` references parent `"@ + parent_tag@ + "` at "@ + dir@
                    + " which doesn't exist locally. Pack failed — pull or rebuild the parent first."@,
                m@,
            );
            text::lemma_mentions(
                "chain for `"@ + head_tag@ + "` references parent `"@,
                parent_tag@,
                "` at "@ + dir@ + " which doesn't exist locally. Pack failed — pull or rebuild the parent first."@,
                m@,
            );
            text::lemma_mentions(
                "chain for `"@ + head_tag@ + "` references parent `"@ + parent_tag@ + "` at "@,
                dir@,
                " which doesn't exist locally. Pack failed — pull or rebuild the parent first."@,
                m@,
            );
        },
        PackError::ParentWithoutMeta { parent_tag, dir } => {
            text::lemma_mentions("parent `"@, parent_tag@, "` has no snapshot.json at "@ + dir@, m@);
            text::lemma_mentions(
                "parent `"@ + parent_tag@ + "` has no snapshot.json at "@,
                dir@,
                Seq::<char>::empty(),
                m@,
            );
        },
        PackError::LinkWithoutMemory { link_tag, dir } => {
            text::lemma_mentions(
                "chain link `"@,
                link_tag@,
                "` at "@ + dir@ + " has no memory.bin — pack would produce a broken bundle"@,
                m@,
            );
            text::lemma_mentions(
                "chain link `"@ + link_tag@ + "` at "@,
                dir@,
                " has no memory.bin — pack would produce a broken bundle"@,
                m@,
            );
        },
    }
}

/// The files of a snapshot directory are, in order, its metadata, its state, its root file system and its
/// memory.
pub proof fn law_snapshot_files_are_these(i: usize, name: &'static str)
    requires
        call_ensures(snapshot_file, (i,), name),
        i < 4,
    ensures
        rank_of(name@) == i,
{
    lemma_ranks(i as int);
}

} // verus!
