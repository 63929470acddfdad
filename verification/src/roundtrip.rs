//! What unpacking gives back of what was packed.

use crate::digest;
use crate::manifest;
use crate::pack;
use crate::path;
use crate::unpack;
use vstd::prelude::*;

verus! {

/// The paths that some steps check, each with the hash that the file there must have, in order.
pub open spec fn checks_of(steps: Seq<unpack::StepView>) -> Seq<(Seq<char>, Seq<char>)>
    decreases steps.len(),
{
    if steps.len() == 0 {
        Seq::empty()
    } else {
        let before = checks_of(steps.drop_last());
        match steps.last() {
            unpack::StepView::Verify { path, entry } => before.push((path, entry.sha256)),
            unpack::StepView::Relocate { .. } => before,
        }
    }
}

/// Where each packed file goes in `dest_dir`, with the hash of what was packed.
pub open spec fn arrivals(disk: pack::Disk, dest_dir: Seq<char>, sources: Seq<(Seq<char>, Seq<char>)>) -> Seq<
    (Seq<char>, Seq<char>),
> {
    Seq::new(
        sources.len(),
        |i: int| (path::joined(dest_dir, sources[i].0), ((disk.file)(sources[i].1)->Ok_0).1),
    )
}

proof fn lemma_checks_add(a: Seq<unpack::StepView>, b: Seq<unpack::StepView>)
    ensures
        checks_of(a + b) == checks_of(a) + checks_of(b),
    decreases b.len(),
{
    if b.len() == 0 {
        assert(a + b =~= a);
        assert(checks_of(a) + checks_of(b) =~= checks_of(a));
    } else {
        lemma_checks_add(a, b.drop_last());
        assert((a + b).drop_last() =~= a + b.drop_last());
        assert((a + b).last() == b.last());
        assert(checks_of(a + b) =~= checks_of(a) + checks_of(b));
    }
}

proof fn lemma_checks_of_verify(dir: Seq<char>, files: Seq<manifest::FileEntryView>)
    ensures
        checks_of(unpack::verify_steps(dir, files)) == Seq::new(
            files.len(),
            |i: int| (path::joined(dir, files[i].path), files[i].sha256),
        ),
    decreases files.len(),
{
    let steps = unpack::verify_steps(dir, files);
    let all = Seq::new(files.len(), |i: int| (path::joined(dir, files[i].path), files[i].sha256));
    if files.len() == 0 {
        assert(checks_of(steps) =~= all);
    } else {
        lemma_checks_of_verify(dir, files.drop_last());
        assert(steps.drop_last() =~= unpack::verify_steps(dir, files.drop_last()));
        assert(checks_of(steps) =~= all);
    }
}

proof fn lemma_checks_of_dir(dir: Seq<char>, files: Seq<manifest::FileEntryView>)
    ensures
        checks_of(unpack::dir_steps(dir, files)) == Seq::new(
            files.len(),
            |i: int| (path::joined(dir, files[i].path), files[i].sha256),
        ),
{
    lemma_checks_of_verify(dir, files);
    let steps = unpack::dir_steps(dir, files);
    assert(steps.drop_last() =~= unpack::verify_steps(dir, files));
}

/// Each listed file is one of the files of a snapshot directory, with the hash it has on disk.
proof fn lemma_listed_file(disk: pack::Disk, dir: Seq<char>, n: nat, i: int)
    requires
        n <= 4,
        pack::listing(disk, dir, n) is Ok,
        0 <= i < (pack::listing(disk, dir, n)->Ok_0).len(),
    ensures
        ({
            let file = (pack::listing(disk, dir, n)->Ok_0)[i];
            &&& exists|k: int| 0 <= k < 4 && file.path == #[trigger] pack::snapshot_files()[k]
            &&& (disk.file)(path::joined(dir, file.path)) == Ok::<(u64, Seq<char>), Seq<char>>(
                (file.size, file.sha256),
            )
        }),
    decreases n,
{
    let files = pack::listing(disk, dir, n)->Ok_0;
    let before = pack::listing(disk, dir, (n - 1) as nat)->Ok_0;
    if i < before.len() {
        lemma_listed_file(disk, dir, (n - 1) as nat, i);
        assert(files[i] == before[i]);
    } else {
        assert(files[i].path == pack::snapshot_files()[n - 1]);
    }
}

/// The names of the files of a snapshot directory have no separators and no two dots in a row.
proof fn lemma_snapshot_files(k: int)
    requires
        0 <= k < 4,
    ensures
        ({
            let name = pack::snapshot_files()[k];
            &&& name.len() >= 7
            &&& forall|i: int| 0 <= i < name.len() ==> name[i] != '/'
            &&& !unpack::has_dot_dot(name)
            &&& name != "manifest.toml"@
        }),
{
    reveal_strlit("snapshot.json");
    reveal_strlit("vmstate");
    reveal_strlit("rootfs.ext4");
    reveal_strlit("memory.bin");
    reveal_strlit("manifest.toml");
    let name = pack::snapshot_files()[k];
    if k == 0 {
        assert(name[0] == 's');
        assert("manifest.toml"@[0] == 'm');
    }
}

/// Whether a path leads on from the directory it is joined to.
pub open spec fn is_relative(name: Seq<char>) -> bool {
    name.len() == 0 || name[0] != '/'
}

/// A name below a link's directory is the link's tag, a separator and the name below the directory
/// above.
proof fn lemma_link_path(dest_dir: Seq<char>, tag: Seq<char>, name: Seq<char>)
    requires
        unpack::is_safe_tag(tag),
        is_relative(name),
    ensures
        path::joined(path::joined(dest_dir, tag), name) == path::joined(dest_dir, manifest::link_file(tag, name)),
{
    reveal_strlit("/");
    let file = manifest::link_file(tag, name);
    assert(unpack::is_tag_char(tag[0]));
    assert(unpack::is_tag_char(tag.last()));
    assert(file[0] == tag[0]);
    let dir = path::joined(dest_dir, tag);
    assert(dir.last() == tag.last());
    assert(path::joined(dir, name) =~= path::joined(dest_dir, file));
}

proof fn lemma_link_name_is_plain(tag: Seq<char>, name: Seq<char>)
    requires
        unpack::is_safe_tag(tag),
        name.len() > 0,
        !unpack::has_dot_dot(name),
    ensures
        !unpack::is_traversal(manifest::link_file(tag, name)),
        manifest::link_file(tag, name) != "manifest.toml"@,
{
    reveal_strlit("/");
    reveal_strlit("manifest.toml");
    let file = manifest::link_file(tag, name);
    assert(unpack::is_tag_char(tag[0]));
    assert(file[0] == tag[0]);
    assert(file[tag.len() as int] == '/');
    if unpack::has_dot_dot(file) {
        let i = choose|i: int| 0 <= i < file.len() - 1 && #[trigger] file[i] == '.' && file[i + 1] == '.';
        if i < tag.len() {
            assert(unpack::is_tag_char(tag[i]));
        } else {
            let k = i - tag.len() - 1;
            assert(name[k] == '.' && name[k + 1] == '.');
        }
    }
    let reserved = "manifest.toml"@;
    assert(forall|i: int| 0 <= i < reserved.len() ==> reserved[i] != '/');
}

proof fn lemma_chain_arrivals(disk: pack::Disk, dest_dir: Seq<char>, links: Seq<pack::PackLink>)
    requires
        forall|i: int| 0 <= i < links.len() ==> pack::is_packable(disk, #[trigger] links[i]),
        forall|i: int| 0 <= i < links.len() ==> unpack::is_safe_tag((#[trigger] links[i]).tag),
    ensures
        checks_of(unpack::chain_steps(dest_dir, pack::link_metas(disk, links))) == arrivals(
            disk,
            dest_dir,
            pack::chain_sources(disk, links),
        ),
        forall|i: int|
            0 <= i < pack::chain_sources(disk, links).len() ==> {
                let name = (#[trigger] pack::chain_sources(disk, links)[i]).0;
                !unpack::is_traversal(name) && name != "manifest.toml"@
            },
    decreases links.len(),
{
    let metas = pack::link_metas(disk, links);
    let sources = pack::chain_sources(disk, links);
    if links.len() == 0 {
        assert(checks_of(unpack::chain_steps(dest_dir, metas)) =~= arrivals(disk, dest_dir, sources));
    } else {
        let rest = links.drop_last();
        let link = links.last();
        let files = pack::files_in(disk, link.dir);
        assert forall|i: int| 0 <= i < rest.len() implies pack::is_packable(disk, #[trigger] rest[i])
            && unpack::is_safe_tag(rest[i].tag) by {
            assert(rest[i] == links[i]);
        }
        lemma_chain_arrivals(disk, dest_dir, rest);
        assert(metas.drop_last() =~= pack::link_metas(disk, rest));
        let dir = path::joined(dest_dir, link.tag);
        lemma_checks_add(
            unpack::chain_steps(dest_dir, metas.drop_last()),
            unpack::dir_steps(dir, files),
        );
        lemma_checks_of_dir(dir, files);
        let before = pack::chain_sources(disk, rest);
        let own = pack::link_sources(link, files);
        assert(pack::is_packable(disk, link));
        assert forall|i: int| 0 <= i < files.len() implies {
            &&& checks_of(unpack::dir_steps(dir, files))[i] == #[trigger] arrivals(disk, dest_dir, own)[i]
            &&& !unpack::is_traversal(own[i].0)
            &&& own[i].0 != "manifest.toml"@
        } by {
            lemma_listed_file(disk, link.dir, 4, i);
            let k = choose|k: int| 0 <= k < 4 && files[i].path == #[trigger] pack::snapshot_files()[k];
            lemma_snapshot_files(k);
            lemma_link_path(dest_dir, link.tag, files[i].path);
            lemma_link_name_is_plain(link.tag, files[i].path);
        }
        assert(checks_of(unpack::dir_steps(dir, files)) =~= arrivals(disk, dest_dir, own));
        assert(arrivals(disk, dest_dir, sources) =~= arrivals(disk, dest_dir, before) + arrivals(disk, dest_dir, own));
        assert forall|i: int| 0 <= i < sources.len() implies {
            let name = (#[trigger] sources[i]).0;
            !unpack::is_traversal(name) && name != "manifest.toml"@
        } by {
            if i < before.len() {
                assert(sources[i] == before[i]);
            } else {
                assert(sources[i] == own[i - before.len()]);
                assert(arrivals(disk, dest_dir, own)[i - before.len()] == arrivals(disk, dest_dir, own)[i - before.len()]);
            }
        }
    }
}

/// What the files hold: the bytes at each path.
pub type Contents = spec_fn(Seq<char>) -> Seq<u8>;

/// What becomes of metadata when it is relocated to a directory, `None` where it cannot be.
pub type Rewriting = spec_fn(Seq<char>, Seq<u8>) -> Option<Seq<u8>>;

/// The SHA-256 of some bytes, in hexadecimal.
pub open spec fn hash_of(bytes: Seq<u8>) -> Seq<char> {
    digest::hex_text(digest::sha256(bytes))
}

/// Whether `disk` gives the hashes of what the files hold.
pub open spec fn holds(disk: pack::Disk, content: Contents) -> bool {
    forall|p: Seq<char>| (#[trigger] (disk.file)(p)) matches Ok(f) ==> f.1 == hash_of(content(p))
}

/// The files in a fresh directory after some packed files have been extracted into it, in order.
pub open spec fn extracted(content: Contents, dest_dir: Seq<char>, sources: Seq<(Seq<char>, Seq<char>)>) -> Map<
    Seq<char>,
    Seq<u8>,
>
    decreases sources.len(),
{
    if sources.len() == 0 {
        Map::empty()
    } else {
        extracted(content, dest_dir, sources.drop_last()).insert(
            path::joined(dest_dir, sources.last().0),
            content(sources.last().1),
        )
    }
}

/// The files after one of the closing steps, `None` where it fails: a check fails where the file is not
/// there or has another hash, a relocation where the metadata is there and cannot be rewritten.
pub open spec fn after_step(files: Map<Seq<char>, Seq<u8>>, step: unpack::StepView, rewrite: Rewriting) -> Option<
    Map<Seq<char>, Seq<u8>>,
> {
    match step {
        unpack::StepView::Verify { path, entry } => if files.contains_key(path) && hash_of(files[path])
            == entry.sha256 {
            Some(files)
        } else {
            None
        },
        unpack::StepView::Relocate { dir } => {
            let at = path::joined(dir, "snapshot.json"@);
            if !files.contains_key(at) {
                Some(files)
            } else {
                match rewrite(dir, files[at]) {
                    Some(bytes) => Some(files.insert(at, bytes)),
                    None => None,
                }
            }
        },
    }
}

/// The files after some of the closing steps, `None` where one of them fails.
pub open spec fn after_steps(
    files: Map<Seq<char>, Seq<u8>>,
    steps: Seq<unpack::StepView>,
    rewrite: Rewriting,
) -> Option<Map<Seq<char>, Seq<u8>>>
    decreases steps.len(),
{
    if steps.len() == 0 {
        Some(files)
    } else {
        match after_steps(files, steps.drop_last(), rewrite) {
            Some(m) => after_step(m, steps.last(), rewrite),
            None => None,
        }
    }
}

/// Whether a packed file of that name is the metadata of a snapshot.
pub open spec fn is_metadata(name: Seq<char>) -> bool {
    path::file_name_of(name) == Some("snapshot.json"@)
}

/// Whether `bytes` is what `rewrite` makes of metadata in the directory where `at` is.
pub open spec fn is_rewritten(rewrite: Rewriting, at: Seq<char>, before: Seq<u8>, bytes: Seq<u8>) -> bool {
    exists|dir: Seq<char>|
        at == path::joined(dir, "snapshot.json"@) && #[trigger] rewrite(dir, before) == Some(bytes)
}

/// Whether `files` has what was packed: each file as it went in, and the metadata rewritten.
pub open spec fn has_arrived(
    content: Contents,
    rewrite: Rewriting,
    dest_dir: Seq<char>,
    source: (Seq<char>, Seq<char>),
    files: Map<Seq<char>, Seq<u8>>,
) -> bool {
    let at = path::joined(dest_dir, source.0);
    &&& files.contains_key(at)
    &&& if is_metadata(source.0) {
        is_rewritten(rewrite, at, content(source.1), files[at])
    } else {
        files[at] == content(source.1)
    }
}

/// Whether a pack comes back whole when it is read into the fresh directory `dest_dir`: its manifest is
/// accepted; each file is extracted; each is checked, in order and leaving none out, where it was
/// extracted and against the hash of what went in; all the closing steps succeed, and leave each file as
/// it went in, but for the metadata, which is rewritten; and each link has a directory of its own.
pub open spec fn comes_back(
    disk: pack::Disk,
    content: Contents,
    rewrite: Rewriting,
    plan: pack::PackPlan,
    dest_dir: Seq<char>,
) -> bool {
    let m = plan.manifest@;
    let sources = pack::sources_of(plan.sources@);
    let steps = unpack::closing_steps(dest_dir, m);
    let end = after_steps(extracted(content, dest_dir, sources), steps, rewrite);
    &&& unpack::is_readable(m)
    &&& forall|i: int| 0 <= i < sources.len() ==> is_extracted((#[trigger] sources[i]).0)
    &&& checks_of(steps) == arrivals(disk, dest_dir, sources)
    &&& end is Some
    &&& forall|i: int|
        0 <= i < sources.len() ==> has_arrived(content, rewrite, dest_dir, #[trigger] sources[i], end->0)
    &&& forall|i: int, j: int|
        0 <= i < j < m.chain.len() ==> path::joined(dest_dir, (#[trigger] m.chain[i]).tag) != path::joined(
            dest_dir,
            (#[trigger] m.chain[j]).tag,
        )
}

/// Whether an entry of that name is extracted.
pub open spec fn is_extracted(name: Seq<char>) -> bool {
    !unpack::is_traversal(name) && name != "manifest.toml"@
}

/// Whether all the metadata that was packed can be rewritten.
pub open spec fn is_rewritable(content: Contents, rewrite: Rewriting, sources: Seq<(Seq<char>, Seq<char>)>) -> bool {
    forall|i: int, dir: Seq<char>|
        0 <= i < sources.len() && is_metadata((#[trigger] sources[i]).0) ==> (#[trigger] rewrite(
            dir,
            content(sources[i].1),
        )) is Some
}

/// Joining different relative names to one directory gives different paths.
proof fn lemma_join_injective(dir: Seq<char>, a: Seq<char>, b: Seq<char>)
    requires
        path::joined(dir, a) == path::joined(dir, b),
        a.len() > 0 && a[0] != '/',
        b.len() > 0 && b[0] != '/',
    ensures
        a == b,
{
    let p = path::joined(dir, a);
    let n = if dir.len() > 0 && dir.last() != '/' { dir.len() + 1 } else { dir.len() };
    assert(p.skip(n as int) =~= a);
    assert(p.skip(n as int) =~= b);
}

/// Files of links with different tags, or with different names, lie at different places.
proof fn lemma_link_files_differ(tag1: Seq<char>, name1: Seq<char>, tag2: Seq<char>, name2: Seq<char>)
    requires
        unpack::is_safe_tag(tag1),
        unpack::is_safe_tag(tag2),
        manifest::link_file(tag1, name1) == manifest::link_file(tag2, name2),
    ensures
        tag1 == tag2,
        name1 == name2,
{
    reveal_strlit("/");
    let f = manifest::link_file(tag1, name1);
    assert(f[tag1.len() as int] == '/');
    assert(f[tag2.len() as int] == '/');
    if tag1.len() < tag2.len() {
        assert(f[tag1.len() as int] == tag2[tag1.len() as int]);
        assert(unpack::is_tag_char(tag2[tag1.len() as int]));
    }
    if tag2.len() < tag1.len() {
        assert(f[tag2.len() as int] == tag1[tag2.len() as int]);
        assert(unpack::is_tag_char(tag1[tag2.len() as int]));
    }
    assert(tag1 =~= f.take(tag1.len() as int));
    assert(tag2 =~= f.take(tag1.len() as int));
    assert(name1 =~= f.skip(tag1.len() as int + 1));
    assert(name2 =~= f.skip(tag1.len() as int + 1));
}

/// The files of a snapshot directory have different names.
proof fn lemma_snapshot_files_differ(j: int, k: int)
    requires
        0 <= j < 4,
        0 <= k < 4,
        pack::snapshot_files()[j] == pack::snapshot_files()[k],
    ensures
        j == k,
{
    reveal_strlit("snapshot.json");
    reveal_strlit("vmstate");
    reveal_strlit("rootfs.ext4");
    reveal_strlit("memory.bin");
    assert(pack::snapshot_files()[0].len() == 13);
    assert(pack::snapshot_files()[1].len() == 7);
    assert(pack::snapshot_files()[2].len() == 11);
    assert(pack::snapshot_files()[3].len() == 10);
}

/// A listed file is among the first `n` kinds, and different listed files have different names.
proof fn lemma_listed_files_differ(disk: pack::Disk, dir: Seq<char>, n: nat)
    requires
        n <= 4,
        pack::listing(disk, dir, n) is Ok,
    ensures
        ({
            let files = pack::listing(disk, dir, n)->Ok_0;
            &&& forall|i: int|
                0 <= i < files.len() ==> exists|k: int|
                    0 <= k < n && (#[trigger] files[i]).path == #[trigger] pack::snapshot_files()[k]
            &&& forall|i: int, j: int|
                0 <= i < j < files.len() ==> (#[trigger] files[i]).path != (#[trigger] files[j]).path
        }),
    decreases n,
{
    if n > 0 {
        lemma_listed_files_differ(disk, dir, (n - 1) as nat);
        let files = pack::listing(disk, dir, n)->Ok_0;
        let before = pack::listing(disk, dir, (n - 1) as nat)->Ok_0;
        assert forall|i: int| 0 <= i < files.len() implies exists|k: int|
            0 <= k < n && (#[trigger] files[i]).path == #[trigger] pack::snapshot_files()[k] by {
            if i < before.len() {
                assert(files[i] == before[i]);
                let k = choose|k: int| 0 <= k < n - 1 && before[i].path == #[trigger] pack::snapshot_files()[k];
                assert(files[i].path == pack::snapshot_files()[k]);
            } else {
                assert(files[i].path == pack::snapshot_files()[n - 1]);
            }
        }
        assert forall|i: int, j: int| 0 <= i < j < files.len() implies (#[trigger] files[i]).path != (
        #[trigger] files[j]).path by {
            assert(files[i] == before[i]);
            if j < before.len() {
                assert(files[j] == before[j]);
            } else {
                let k = choose|k: int| 0 <= k < n - 1 && before[i].path == #[trigger] pack::snapshot_files()[k];
                assert(files[j].path == pack::snapshot_files()[n - 1]);
                if files[i].path == files[j].path {
                    lemma_snapshot_files_differ(k, n - 1);
                }
            }
        }
    }
}

/// What was extracted is there, where no two names are the same.
proof fn lemma_extracted(content: Contents, dest_dir: Seq<char>, sources: Seq<(Seq<char>, Seq<char>)>)
    requires
        forall|i: int| 0 <= i < sources.len() ==> (#[trigger] sources[i]).0.len() > 0 && sources[i].0[0] != '/',
        forall|i: int, j: int| 0 <= i < j < sources.len() ==> (#[trigger] sources[i]).0 != (#[trigger] sources[j]).0,
    ensures
        forall|i: int|
            0 <= i < sources.len() ==> {
                let at = path::joined(dest_dir, (#[trigger] sources[i]).0);
                let files = extracted(content, dest_dir, sources);
                files.contains_key(at) && files[at] == content(sources[i].1)
            },
        forall|p: Seq<char>| #[trigger]
            extracted(content, dest_dir, sources).contains_key(p) ==> exists|i: int|
                0 <= i < sources.len() && p == path::joined(dest_dir, (#[trigger] sources[i]).0),
    decreases sources.len(),
{
    if sources.len() > 0 {
        let rest = sources.drop_last();
        assert forall|i: int| 0 <= i < rest.len() implies (#[trigger] rest[i]).0.len() > 0 && rest[i].0[0] != '/' by {
            assert(rest[i] == sources[i]);
        }
        assert forall|i: int, j: int| 0 <= i < j < rest.len() implies (#[trigger] rest[i]).0 != (#[trigger] rest[j]).0 by {
            assert(rest[i] == sources[i] && rest[j] == sources[j]);
        }
        lemma_extracted(content, dest_dir, rest);
        let files = extracted(content, dest_dir, sources);
        assert forall|i: int| 0 <= i < sources.len() implies {
            let at = path::joined(dest_dir, (#[trigger] sources[i]).0);
            files.contains_key(at) && files[at] == content(sources[i].1)
        } by {
            if i < rest.len() {
                assert(rest[i] == sources[i]);
                if path::joined(dest_dir, sources[i].0) == path::joined(dest_dir, sources.last().0) {
                    lemma_join_injective(dest_dir, sources[i].0, sources.last().0);
                }
            }
        }
        assert forall|p: Seq<char>| #[trigger] files.contains_key(p) implies exists|i: int|
            0 <= i < sources.len() && p == path::joined(dest_dir, (#[trigger] sources[i]).0) by {
            if p == path::joined(dest_dir, sources.last().0) {
                assert(p == path::joined(dest_dir, sources[sources.len() - 1].0));
            } else {
                assert(extracted(content, dest_dir, rest).contains_key(p));
                let i = choose|i: int| 0 <= i < rest.len() && p == path::joined(dest_dir, (#[trigger] rest[i]).0);
                assert(rest[i] == sources[i]);
            }
        }
    }
}

proof fn lemma_steps_add(
    files: Map<Seq<char>, Seq<u8>>,
    a: Seq<unpack::StepView>,
    b: Seq<unpack::StepView>,
    rewrite: Rewriting,
)
    ensures
        after_steps(files, a + b, rewrite) == (match after_steps(files, a, rewrite) {
            Some(m) => after_steps(m, b, rewrite),
            None => None,
        }),
    decreases b.len(),
{
    if b.len() == 0 {
        assert(a + b =~= a);
    } else {
        lemma_steps_add(files, a, b.drop_last(), rewrite);
        assert((a + b).drop_last() =~= a + b.drop_last());
        assert((a + b).last() == b.last());
    }
}

/// Checks that hold change nothing.
proof fn lemma_checks_hold(
    files: Map<Seq<char>, Seq<u8>>,
    dir: Seq<char>,
    entries: Seq<manifest::FileEntryView>,
    rewrite: Rewriting,
)
    requires
        forall|i: int|
            0 <= i < entries.len() ==> {
                let at = path::joined(dir, (#[trigger] entries[i]).path);
                files.contains_key(at) && hash_of(files[at]) == entries[i].sha256
            },
    ensures
        after_steps(files, unpack::verify_steps(dir, entries), rewrite) == Some(files),
    decreases entries.len(),
{
    let steps = unpack::verify_steps(dir, entries);
    if entries.len() > 0 {
        let rest = entries.drop_last();
        assert forall|i: int| 0 <= i < rest.len() implies {
            let at = path::joined(dir, (#[trigger] rest[i]).path);
            files.contains_key(at) && hash_of(files[at]) == rest[i].sha256
        } by {
            assert(rest[i] == entries[i]);
        }
        lemma_checks_hold(files, dir, rest, rewrite);
        assert(steps.drop_last() =~= unpack::verify_steps(dir, rest));
        let last = entries[entries.len() - 1];
        assert(steps.last() == (unpack::StepView::Verify { path: path::joined(dir, last.path), entry: last }));
    }
}

/// The steps for one snapshot directory change its metadata and nothing else.
proof fn lemma_dir_steps(
    files: Map<Seq<char>, Seq<u8>>,
    dir: Seq<char>,
    entries: Seq<manifest::FileEntryView>,
    rewrite: Rewriting,
)
    requires
        forall|i: int|
            0 <= i < entries.len() ==> {
                let at = path::joined(dir, (#[trigger] entries[i]).path);
                files.contains_key(at) && hash_of(files[at]) == entries[i].sha256
            },
        files.contains_key(path::joined(dir, "snapshot.json"@)) ==> rewrite(
            dir,
            files[path::joined(dir, "snapshot.json"@)],
        ) is Some,
    ensures
        after_steps(files, unpack::dir_steps(dir, entries), rewrite) is Some,
        ({
            let end = after_steps(files, unpack::dir_steps(dir, entries), rewrite)->0;
            let sj = path::joined(dir, "snapshot.json"@);
            &&& end.dom() == files.dom()
            &&& forall|p: Seq<char>| p != sj ==> #[trigger] end[p] == files[p]
            &&& files.contains_key(sj) ==> rewrite(dir, files[sj]) == Some(end[sj])
        }),
{
    lemma_checks_hold(files, dir, entries, rewrite);
    let steps = unpack::dir_steps(dir, entries);
    assert(steps.drop_last() =~= unpack::verify_steps(dir, entries));
    let end = after_steps(files, steps, rewrite)->0;
    assert(end.dom() =~= files.dom());
}

/// What is packed of file `f` of link `l`.
spec fn source_of(disk: pack::Disk, links: Seq<pack::PackLink>, l: int, f: int) -> (Seq<char>, Seq<char>) {
    let link = links[l];
    let name = pack::files_in(disk, link.dir)[f].path;
    (manifest::link_file(link.tag, name), path::joined(link.dir, name))
}

spec fn is_file(disk: pack::Disk, links: Seq<pack::PackLink>, l: int, f: int) -> bool {
    0 <= l < links.len() && 0 <= f < pack::files_in(disk, links[l].dir).len()
}

/// Whether `source` is what is packed of some file of the links.
spec fn is_packed_file(disk: pack::Disk, links: Seq<pack::PackLink>, source: (Seq<char>, Seq<char>)) -> bool {
    exists|l: int, f: int| is_file(disk, links, l, f) && source == #[trigger] source_of(disk, links, l, f)
}

/// Links that can be packed and read again: each has its files, and the tags are safe and different.
spec fn is_sound(disk: pack::Disk, links: Seq<pack::PackLink>) -> bool {
    &&& forall|i: int| 0 <= i < links.len() ==> pack::is_packable(disk, #[trigger] links[i])
    &&& forall|i: int| 0 <= i < links.len() ==> unpack::is_safe_tag((#[trigger] links[i]).tag)
    &&& forall|i: int, j: int| 0 <= i < j < links.len() ==> (#[trigger] links[i]).tag != (#[trigger] links[j]).tag
}

proof fn lemma_sound_prefix(disk: pack::Disk, links: Seq<pack::PackLink>)
    requires
        is_sound(disk, links),
        links.len() > 0,
    ensures
        is_sound(disk, links.drop_last()),
{
    let rest = links.drop_last();
    assert forall|i: int| 0 <= i < rest.len() implies pack::is_packable(disk, #[trigger] rest[i])
        && unpack::is_safe_tag(rest[i].tag) by {
        assert(rest[i] == links[i]);
    }
    assert forall|i: int, j: int| 0 <= i < j < rest.len() implies (#[trigger] rest[i]).tag != (#[trigger] rest[j]).tag by {
        assert(rest[i] == links[i] && rest[j] == links[j]);
    }
}

/// What is packed of a chain: each file of each link, and nothing else.
proof fn lemma_chain_sources(disk: pack::Disk, links: Seq<pack::PackLink>)
    ensures
        ({
            let sources = pack::chain_sources(disk, links);
            &&& forall|i: int| 0 <= i < sources.len() ==> is_packed_file(disk, links, #[trigger] sources[i])
            &&& forall|l: int, f: int|
                is_file(disk, links, l, f) ==> sources.contains(#[trigger] source_of(disk, links, l, f))
        }),
    decreases links.len(),
{
    if links.len() > 0 {
        let rest = links.drop_last();
        let last = links.last();
        let n = links.len() - 1;
        lemma_chain_sources(disk, rest);
        let files = pack::files_in(disk, last.dir);
        let before = pack::chain_sources(disk, rest);
        let own = pack::link_sources(last, files);
        let sources = pack::chain_sources(disk, links);
        assert(sources == before + own);
        assert forall|i: int| 0 <= i < sources.len() implies is_packed_file(disk, links, #[trigger] sources[i]) by {
            if i < before.len() {
                assert(sources[i] == before[i]);
                let (l, f) = choose|l: int, f: int|
                    is_file(disk, rest, l, f) && before[i] == #[trigger] source_of(disk, rest, l, f);
                assert(rest[l] == links[l]);
                assert(sources[i] == source_of(disk, links, l, f));
                assert(is_file(disk, links, l, f));
            } else {
                let f = i - before.len();
                assert(sources[i] == own[f]);
                assert(sources[i] == source_of(disk, links, n, f));
                assert(is_file(disk, links, n, f));
            }
        }
        assert forall|l: int, f: int| is_file(disk, links, l, f) implies sources.contains(
            #[trigger] source_of(disk, links, l, f),
        ) by {
            if l < n {
                assert(rest[l] == links[l]);
                assert(is_file(disk, rest, l, f));
                assert(source_of(disk, rest, l, f) == source_of(disk, links, l, f));
                let i = choose|i: int| 0 <= i < before.len() && before[i] == source_of(disk, rest, l, f);
                assert(sources[i] == before[i]);
            } else {
                assert(sources[before.len() + f] == own[f]);
            }
        }
    }
}

/// Different files of a chain have different names in the pack.
proof fn lemma_chain_names_differ(disk: pack::Disk, links: Seq<pack::PackLink>)
    requires
        is_sound(disk, links),
    ensures
        ({
            let sources = pack::chain_sources(disk, links);
            &&& forall|i: int, j: int|
                0 <= i < j < sources.len() ==> (#[trigger] sources[i]).0 != (#[trigger] sources[j]).0
            &&& forall|i: int| 0 <= i < sources.len() ==> (#[trigger] sources[i]).0.len() > 0 && sources[i].0[0] != '/'
        }),
    decreases links.len(),
{
    let sources = pack::chain_sources(disk, links);
    if links.len() > 0 {
        let rest = links.drop_last();
        let last = links.last();
        lemma_sound_prefix(disk, links);
        lemma_chain_names_differ(disk, rest);
        lemma_chain_sources(disk, rest);
        let files = pack::files_in(disk, last.dir);
        let before = pack::chain_sources(disk, rest);
        let own = pack::link_sources(last, files);
        assert(sources == before + own);
        assert(pack::is_packable(disk, links[links.len() - 1]));
        assert(unpack::is_safe_tag(links[links.len() - 1].tag));
        assert(unpack::is_tag_char(last.tag[0]));
        lemma_listed_files_differ(disk, last.dir, 4);
        assert forall|i: int| 0 <= i < sources.len() implies (#[trigger] sources[i]).0.len() > 0 && sources[i].0[0]
            != '/' by {
            if i < before.len() {
                assert(sources[i] == before[i]);
            } else {
                assert(sources[i] == own[i - before.len()]);
                assert(sources[i].0[0] == last.tag[0]);
            }
        }
        assert forall|i: int, j: int| 0 <= i < j < sources.len() implies (#[trigger] sources[i]).0 != (
        #[trigger] sources[j]).0 by {
            if j < before.len() {
                assert(sources[i] == before[i] && sources[j] == before[j]);
            } else {
                let g = j - before.len();
                assert(sources[j] == own[g]);
                if sources[i].0 == sources[j].0 {
                    if i < before.len() {
                        assert(sources[i] == before[i]);
                        let (l, f) = choose|l: int, f: int|
                            is_file(disk, rest, l, f) && before[i] == #[trigger] source_of(disk, rest, l, f);
                        assert(rest[l] == links[l]);
                        assert(links[l].tag != links[links.len() - 1].tag);
                        lemma_link_files_differ(
                            rest[l].tag,
                            pack::files_in(disk, rest[l].dir)[f].path,
                            last.tag,
                            files[g].path,
                        );
                    } else {
                        let f = i - before.len();
                        assert(sources[i] == own[f]);
                        lemma_link_files_differ(last.tag, files[f].path, last.tag, files[g].path);
                    }
                }
            }
        }
    }
}

/// Where the metadata of a link lies.
spec fn metadata_at(dest_dir: Seq<char>, tag: Seq<char>) -> Seq<char> {
    path::joined(path::joined(dest_dir, tag), "snapshot.json"@)
}

/// A file of one link does not lie where the metadata of another does.
proof fn lemma_not_metadata(dest_dir: Seq<char>, tag: Seq<char>, name: Seq<char>, other: Seq<char>)
    requires
        unpack::is_safe_tag(tag),
        unpack::is_safe_tag(other),
        name.len() > 0,
        name[0] != '/',
        tag != other || name != "snapshot.json"@,
    ensures
        path::joined(path::joined(dest_dir, tag), name) != metadata_at(dest_dir, other),
{
    reveal_strlit("snapshot.json");
    reveal_strlit("/");
    let sj = "snapshot.json"@;
    assert(sj.len() == 13 && sj[0] == 's');
    lemma_link_path(dest_dir, tag, name);
    lemma_link_path(dest_dir, other, sj);
    assert(unpack::is_tag_char(tag[0]));
    assert(unpack::is_tag_char(other[0]));
    let a = manifest::link_file(tag, name);
    let b = manifest::link_file(other, sj);
    assert(a[0] == tag[0] && b[0] == other[0]);
    if path::joined(dest_dir, a) == path::joined(dest_dir, b) {
        lemma_join_injective(dest_dir, a, b);
        lemma_link_files_differ(tag, name, other, sj);
    }
}

/// Whether the files of all links are there, as the manifest says.
spec fn are_there(disk: pack::Disk, links: Seq<pack::PackLink>, dest_dir: Seq<char>, files: Map<Seq<char>, Seq<u8>>) -> bool {
    forall|l: int, f: int| #[trigger]
        is_file(disk, links, l, f) ==> {
            let entry = pack::files_in(disk, links[l].dir)[f];
            let at = path::joined(path::joined(dest_dir, links[l].tag), entry.path);
            files.contains_key(at) && hash_of(files[at]) == entry.sha256
        }
}

/// The closing steps for the first `k` links change their metadata, and nothing else.
proof fn lemma_chain_steps(
    disk: pack::Disk,
    links: Seq<pack::PackLink>,
    k: int,
    dest_dir: Seq<char>,
    files: Map<Seq<char>, Seq<u8>>,
    rewrite: Rewriting,
)
    requires
        0 <= k <= links.len(),
        is_sound(disk, links),
        are_there(disk, links, dest_dir, files),
        forall|l: int|
            0 <= l < links.len() && files.contains_key(metadata_at(dest_dir, (#[trigger] links[l]).tag)) ==> rewrite(
                path::joined(dest_dir, links[l].tag),
                files[metadata_at(dest_dir, links[l].tag)],
            ) is Some,
    ensures
        ({
            let steps = unpack::chain_steps(dest_dir, pack::link_metas(disk, links.take(k)));
            let end = after_steps(files, steps, rewrite);
            &&& end is Some
            &&& end->0.dom() == files.dom()
            &&& forall|p: Seq<char>|
                (forall|j: int| 0 <= j < k ==> p != metadata_at(dest_dir, (#[trigger] links[j]).tag)) ==> #[trigger] (end->0)[p]
                    == files[p]
            &&& forall|j: int|
                0 <= j < k && files.contains_key(metadata_at(dest_dir, (#[trigger] links[j]).tag)) ==> rewrite(
                    path::joined(dest_dir, links[j].tag),
                    files[metadata_at(dest_dir, links[j].tag)],
                ) == Some((end->0)[metadata_at(dest_dir, links[j].tag)])
        }),
    decreases k,
{
    let metas = pack::link_metas(disk, links.take(k));
    let steps = unpack::chain_steps(dest_dir, metas);
    if k == 0 {
        assert(metas.len() == 0);
        assert(steps =~= Seq::<unpack::StepView>::empty());
    } else {
        lemma_chain_steps(disk, links, k - 1, dest_dir, files, rewrite);
        let before_metas = pack::link_metas(disk, links.take(k - 1));
        assert(metas.drop_last() =~= before_metas);
        let before = unpack::chain_steps(dest_dir, before_metas);
        let m = after_steps(files, before, rewrite)->0;
        let link = links[k - 1];
        assert(metas.last() == pack::link_meta(disk, link));
        let dir = path::joined(dest_dir, link.tag);
        let entries = pack::files_in(disk, link.dir);
        let own = unpack::dir_steps(dir, entries);
        assert(steps == before + own);
        lemma_steps_add(files, before, own, rewrite);
        assert(pack::is_packable(disk, links[k - 1]));
        let sj = metadata_at(dest_dir, link.tag);
        reveal_strlit("snapshot.json");
        assert("snapshot.json"@.len() == 13 && "snapshot.json"@[0] == 's');
        assert forall|j: int| 0 <= j < k - 1 implies sj != metadata_at(dest_dir, (#[trigger] links[j]).tag) by {
            assert(links[j].tag != links[k - 1].tag);
            lemma_not_metadata(dest_dir, link.tag, "snapshot.json"@, links[j].tag);
        }
        assert(m[sj] == files[sj]);
        assert forall|f: int| 0 <= f < entries.len() implies {
            let at = path::joined(dir, (#[trigger] entries[f]).path);
            m.contains_key(at) && hash_of(m[at]) == entries[f].sha256
        } by {
            assert(is_file(disk, links, k - 1, f));
            let at = path::joined(dir, entries[f].path);
            assert(files.dom().contains(at));
            lemma_listed_file(disk, link.dir, 4, f);
            let q = choose|q: int| 0 <= q < 4 && entries[f].path == #[trigger] pack::snapshot_files()[q];
            lemma_snapshot_files(q);
            assert forall|j: int| 0 <= j < k - 1 implies at != metadata_at(dest_dir, (#[trigger] links[j]).tag) by {
                assert(links[j].tag != links[k - 1].tag);
                lemma_not_metadata(dest_dir, link.tag, entries[f].path, links[j].tag);
            }
            assert(m[at] == files[at]);
        }
        assert(m.contains_key(sj) ==> files.contains_key(sj)) by {
            assert(m.dom().contains(sj) == files.dom().contains(sj));
        }
        lemma_dir_steps(m, dir, entries, rewrite);
        let end = after_steps(files, steps, rewrite)->0;
        assert forall|p: Seq<char>|
            (forall|j: int| 0 <= j < k ==> p != metadata_at(dest_dir, (#[trigger] links[j]).tag)) implies #[trigger] end[p]
            == files[p] by {
            assert(p != metadata_at(dest_dir, links[k - 1].tag));
            assert(m[p] == files[p]);
        }
        assert forall|j: int|
            0 <= j < k && files.contains_key(metadata_at(dest_dir, (#[trigger] links[j]).tag)) implies rewrite(
            path::joined(dest_dir, links[j].tag),
            files[metadata_at(dest_dir, links[j].tag)],
        ) == Some(end[metadata_at(dest_dir, links[j].tag)]) by {
            if j == k - 1 {
                assert(m.dom().contains(sj));
            }
        }
    }
}

/// Of the files of a snapshot directory, `snapshot.json` is the metadata, by itself and under a tag.
proof fn lemma_metadata_name(tag: Seq<char>, k: int)
    requires
        unpack::is_safe_tag(tag),
        0 <= k < 4,
    ensures
        ({
            let name = pack::snapshot_files()[k];
            &&& is_metadata(name) <==> name == "snapshot.json"@
            &&& is_metadata(manifest::link_file(tag, name)) <==> name == "snapshot.json"@
        }),
{
    let name = pack::snapshot_files()[k];
    lemma_snapshot_files(k);
    path::law_plain_name(name);
    reveal_strlit("/");
    assert(unpack::is_tag_char(tag[tag.len() - 1]));
    assert(manifest::link_file(tag, name) =~= path::joined(tag, name));
    path::law_join_keeps_name(tag, name);
}

/// A chain of sound links comes back whole.
#[verifier::spinoff_prover]
#[verifier::rlimit(50)]
proof fn lemma_chain_comes_back(
    disk: pack::Disk,
    content: Contents,
    rewrite: Rewriting,
    info: pack::PackInfo,
    links: Seq<pack::PackLink>,
    plan: pack::PackPlan,
    dest_dir: Seq<char>,
)
    requires
        holds(disk, content),
        is_rewritable(content, rewrite, pack::sources_of(plan.sources@)),
        links.len() > 0,
        is_sound(disk, links),
        plan.manifest@ == pack::chain_manifest(info, pack::link_metas(disk, links)),
        pack::sources_of(plan.sources@) == pack::chain_sources(disk, links),
    ensures
        comes_back(disk, content, rewrite, plan, dest_dir),
{
    let m = plan.manifest@;
    let sources = pack::sources_of(plan.sources@);
    let files = extracted(content, dest_dir, sources);
    assert forall|i: int| 0 <= i < m.chain.len() implies unpack::is_safe_tag((#[trigger] m.chain[i]).tag) by {
        assert(m.chain[i].tag == links[i].tag);
    }
    lemma_chain_arrivals(disk, dest_dir, links);
    lemma_chain_sources(disk, links);
    lemma_chain_names_differ(disk, links);
    lemma_extracted(content, dest_dir, sources);
    reveal_strlit("snapshot.json");
    let sj = "snapshot.json"@;
    assert(sj.len() == 13 && sj[0] == 's');
    assert(sj == pack::snapshot_files()[0]);
    assert forall|l: int, f: int| #[trigger] is_file(disk, links, l, f) implies {
        let entry = pack::files_in(disk, links[l].dir)[f];
        let at = path::joined(path::joined(dest_dir, links[l].tag), entry.path);
        files.contains_key(at) && hash_of(files[at]) == entry.sha256
    } by {
        let link = links[l];
        let entry = pack::files_in(disk, link.dir)[f];
        assert(pack::is_packable(disk, links[l]));
        lemma_listed_file(disk, link.dir, 4, f);
        let q = choose|q: int| 0 <= q < 4 && entry.path == #[trigger] pack::snapshot_files()[q];
        lemma_snapshot_files(q);
        lemma_link_path(dest_dir, link.tag, entry.path);
        let source = source_of(disk, links, l, f);
        assert(sources.contains(source));
        let i = choose|i: int| 0 <= i < sources.len() && sources[i] == source;
        assert(files.contains_key(path::joined(dest_dir, sources[i].0)));
        assert((disk.file)(source.1) is Ok);
    }
    assert forall|l: int|
        0 <= l < links.len() && files.contains_key(metadata_at(dest_dir, (#[trigger] links[l]).tag)) implies rewrite(
        path::joined(dest_dir, links[l].tag),
        files[metadata_at(dest_dir, links[l].tag)],
    ) is Some by {
        let tag = links[l].tag;
        let at = metadata_at(dest_dir, tag);
        let i = choose|i: int| 0 <= i < sources.len() && at == path::joined(dest_dir, (#[trigger] sources[i]).0);
        lemma_link_path(dest_dir, tag, sj);
        let name = manifest::link_file(tag, sj);
        assert(unpack::is_tag_char(tag[0]));
        assert(name[0] == tag[0]);
        lemma_join_injective(dest_dir, sources[i].0, name);
        lemma_metadata_name(tag, 0);
        assert(rewrite(path::joined(dest_dir, tag), content(sources[i].1)) is Some);
    }
    lemma_chain_steps(disk, links, links.len() as int, dest_dir, files, rewrite);
    assert(links.take(links.len() as int) =~= links);
    let end = after_steps(files, unpack::closing_steps(dest_dir, m), rewrite)->0;
    assert forall|i: int| 0 <= i < sources.len() implies has_arrived(
        content,
        rewrite,
        dest_dir,
        #[trigger] sources[i],
        end,
    ) by {
        assert(is_packed_file(disk, links, sources[i]));
        let (l, f) = choose|l: int, f: int|
            is_file(disk, links, l, f) && sources[i] == #[trigger] source_of(disk, links, l, f);
        let link = links[l];
        let entry = pack::files_in(disk, link.dir)[f];
        assert(pack::is_packable(disk, links[l]));
        lemma_listed_file(disk, link.dir, 4, f);
        let q = choose|q: int| 0 <= q < 4 && entry.path == #[trigger] pack::snapshot_files()[q];
        lemma_snapshot_files(q);
        lemma_link_path(dest_dir, link.tag, entry.path);
        lemma_metadata_name(link.tag, q);
        let at = path::joined(dest_dir, sources[i].0);
        let dir = path::joined(dest_dir, link.tag);
        assert(files.dom().contains(at));
        if entry.path == sj {
            assert(at == metadata_at(dest_dir, links[l].tag));
            assert(rewrite(dir, content(sources[i].1)) == Some(end[at]));
        } else {
            assert forall|j: int| 0 <= j < links.len() implies at != metadata_at(dest_dir, (#[trigger] links[j]).tag) by {
                lemma_not_metadata(dest_dir, link.tag, entry.path, links[j].tag);
            }
            assert(end[at] == files[at]);
        }
    }
    assert forall|i: int, j: int| 0 <= i < j < m.chain.len() implies path::joined(dest_dir, (#[trigger] m.chain[i]).tag)
        != path::joined(dest_dir, (#[trigger] m.chain[j]).tag) by {
        let a = links[i].tag;
        let b = links[j].tag;
        assert(m.chain[i].tag == a && m.chain[j].tag == b);
        assert(unpack::is_tag_char(a[0]));
        assert(unpack::is_tag_char(b[0]));
        if path::joined(dest_dir, a) == path::joined(dest_dir, b) {
            lemma_join_injective(dest_dir, a, b);
        }
    }
    assert forall|i: int| 0 <= i < sources.len() implies is_extracted((#[trigger] sources[i]).0) by {}
}

/// A snapshot by itself comes back whole.
proof fn lemma_single_comes_back(
    disk: pack::Disk,
    content: Contents,
    rewrite: Rewriting,
    info: pack::PackInfo,
    snap_dir: Seq<char>,
    plan: pack::PackPlan,
    dest_dir: Seq<char>,
)
    requires
        holds(disk, content),
        is_rewritable(content, rewrite, pack::sources_of(plan.sources@)),
        pack::listing(disk, snap_dir, 4) is Ok,
        plan.manifest@ == pack::single_manifest(info, pack::files_in(disk, snap_dir)),
        pack::sources_of(plan.sources@) == pack::single_sources(snap_dir, pack::files_in(disk, snap_dir)),
    ensures
        comes_back(disk, content, rewrite, plan, dest_dir),
{
    let m = plan.manifest@;
    let sources = pack::sources_of(plan.sources@);
    let entries = pack::files_in(disk, snap_dir);
    let files = extracted(content, dest_dir, sources);
    let steps = unpack::closing_steps(dest_dir, m);
    lemma_listed_files_differ(disk, snap_dir, 4);
    lemma_checks_of_dir(dest_dir, entries);
    reveal_strlit("snapshot.json");
    let sj = "snapshot.json"@;
    assert(sj.len() == 13 && sj[0] == 's');
    assert(sj == pack::snapshot_files()[0]);
    let tag = seq!['t'];
    assert(unpack::is_safe_tag(tag));
    assert forall|i: int| 0 <= i < sources.len() implies {
        let name = (#[trigger] sources[i]).0;
        &&& is_extracted(name)
        &&& name.len() > 0
        &&& name[0] != '/'
        &&& name == entries[i].path
        &&& is_metadata(name) <==> name == sj
        &&& (disk.file)(sources[i].1) == Ok::<(u64, Seq<char>), Seq<char>>((entries[i].size, entries[i].sha256))
    } by {
        lemma_listed_file(disk, snap_dir, 4, i);
        let q = choose|q: int| 0 <= q < 4 && entries[i].path == #[trigger] pack::snapshot_files()[q];
        lemma_snapshot_files(q);
        lemma_metadata_name(tag, q);
    }
    assert forall|i: int, j: int| 0 <= i < j < sources.len() implies (#[trigger] sources[i]).0 != (
    #[trigger] sources[j]).0 by {
        assert(entries[i].path != entries[j].path);
    }
    lemma_extracted(content, dest_dir, sources);
    assert(checks_of(steps) =~= arrivals(disk, dest_dir, sources)) by {
        assert forall|i: int| 0 <= i < sources.len() implies checks_of(steps)[i] == #[trigger] arrivals(
            disk,
            dest_dir,
            sources,
        )[i] by {
            assert(sources[i].0 == entries[i].path);
        }
    }
    assert forall|i: int| 0 <= i < entries.len() implies {
        let at = path::joined(dest_dir, (#[trigger] entries[i]).path);
        files.contains_key(at) && hash_of(files[at]) == entries[i].sha256
    } by {
        assert(sources[i].0 == entries[i].path);
        assert((disk.file)(sources[i].1) is Ok);
    }
    let at_sj = path::joined(dest_dir, sj);
    if files.contains_key(at_sj) {
        let i = choose|i: int| 0 <= i < sources.len() && at_sj == path::joined(dest_dir, (#[trigger] sources[i]).0);
        lemma_join_injective(dest_dir, sources[i].0, sj);
        assert(rewrite(dest_dir, content(sources[i].1)) is Some);
    }
    lemma_dir_steps(files, dest_dir, entries, rewrite);
    let end = after_steps(files, steps, rewrite)->0;
    assert forall|i: int| 0 <= i < sources.len() implies has_arrived(
        content,
        rewrite,
        dest_dir,
        #[trigger] sources[i],
        end,
    ) by {
        let at = path::joined(dest_dir, sources[i].0);
        assert(files.dom().contains(at));
        if sources[i].0 == sj {
            assert(rewrite(dest_dir, content(sources[i].1)) == Some(end[at]));
        } else if at == at_sj {
            lemma_join_injective(dest_dir, sources[i].0, sj);
        }
    }
}

/// Whether the tags of all links of a pack are safe.
pub open spec fn has_safe_tags(plan: pack::PackPlan) -> bool {
    forall|i: int|
        0 <= i < plan.manifest@.chain.len() ==> unpack::is_safe_tag((#[trigger] plan.manifest@.chain[i]).tag)
}

proof fn lemma_ancestry_is_sound(disk: pack::Disk, root: Seq<char>, head: pack::PackLink, walk: Seq<pack::PackLink>, plan: pack::PackPlan)
    requires
        pack::is_ancestry(disk, root, head, walk),
        forall|i: int| 0 <= i < walk.len() ==> pack::is_packable(disk, #[trigger] walk.reverse()[i]),
        plan.manifest@.chain == pack::link_metas(disk, walk.reverse()),
        has_safe_tags(plan),
    ensures
        is_sound(disk, walk.reverse()),
{
    let links = walk.reverse();
    assert forall|i: int| 0 <= i < links.len() implies unpack::is_safe_tag((#[trigger] links[i]).tag) by {
        assert(plan.manifest@.chain[i].tag == links[i].tag);
    }
    assert forall|i: int, j: int| 0 <= i < j < links.len() implies (#[trigger] links[i]).tag != (#[trigger] links[j]).tag by {
        assert(links[i] == walk[walk.len() - 1 - i]);
        assert(links[j] == walk[walk.len() - 1 - j]);
    }
}

/// A pack of a chain, from whatever directory its parents come, comes back whole, provided that the tags of
/// its links are safe and that its metadata can be rewritten.
pub proof fn law_packed_chain_unpacks(
    disk: pack::Disk,
    content: Contents,
    rewrite: Rewriting,
    info: pack::PackInfo,
    root: Seq<char>,
    head_dir: Seq<char>,
    plan: pack::PackPlan,
    dest_dir: Seq<char>,
)
    requires
        holds(disk, content),
        pack::is_chain_outcome(disk, info, root, head_dir, Ok(plan)),
        has_safe_tags(plan),
        is_rewritable(content, rewrite, pack::sources_of(plan.sources@)),
    ensures
        comes_back(disk, content, rewrite, plan, dest_dir),
{
    let outcome: Result<pack::PackPlan, pack::PackError> = Ok(plan);
    let head = pack::PackLink {
        tag: path::file_name_of(head_dir)->0,
        dir: head_dir,
        snap: (disk.meta)(head_dir)->0,
    };
    let walk = choose|walk: Seq<pack::PackLink>|
        pack::is_ancestry(disk, root, head, walk) && #[trigger] pack::chain_explains(disk, info, root, walk, outcome);
    lemma_ancestry_is_sound(disk, root, head, walk, plan);
    lemma_chain_comes_back(disk, content, rewrite, info, walk.reverse(), plan, dest_dir);
}

/// A pack, of a snapshot by itself or of a chain, comes back whole, provided that the tags of its links are
/// safe and that its metadata can be rewritten.
pub proof fn law_pack_unpacks(
    disk: pack::Disk,
    content: Contents,
    rewrite: Rewriting,
    info: pack::PackInfo,
    snap_dir: Seq<char>,
    plan: pack::PackPlan,
    dest_dir: Seq<char>,
)
    requires
        holds(disk, content),
        pack::is_pack_outcome(disk, info, snap_dir, Ok(plan)),
        has_safe_tags(plan),
        is_rewritable(content, rewrite, pack::sources_of(plan.sources@)),
    ensures
        comes_back(disk, content, rewrite, plan, dest_dir),
{
    let chained = (disk.meta)(snap_dir) is Some && (disk.meta)(snap_dir)->0.parent_tag is Some;
    if chained {
        law_packed_chain_unpacks(
            disk,
            content,
            rewrite,
            info,
            path::parent_of(snap_dir)->0,
            snap_dir,
            plan,
            dest_dir,
        );
    } else {
        lemma_single_comes_back(disk, content, rewrite, info, snap_dir, plan, dest_dir);
    }
}

/// Whether the file at `check.0` is there and has the hash `check.1`.
pub open spec fn is_intact(files: Map<Seq<char>, Seq<u8>>, check: (Seq<char>, Seq<char>)) -> bool {
    files.contains_key(check.0) && hash_of(files[check.0]) == check.1
}

/// Whether all that the links of a pack declare lies below their directories.
pub open spec fn has_relative_paths(chain: Seq<manifest::ChainLinkView>) -> bool {
    forall|i: int, f: int|
        0 <= i < chain.len() && 0 <= f < chain[i].files.len() ==> is_relative((#[trigger] chain[i].files[f]).path)
}

/// Checks that all succeed leave the files alone, and found each of them intact.
proof fn lemma_checks_held(
    files: Map<Seq<char>, Seq<u8>>,
    dir: Seq<char>,
    entries: Seq<manifest::FileEntryView>,
    rewrite: Rewriting,
)
    requires
        after_steps(files, unpack::verify_steps(dir, entries), rewrite) is Some,
    ensures
        after_steps(files, unpack::verify_steps(dir, entries), rewrite) == Some(files),
        forall|i: int|
            0 <= i < entries.len() ==> is_intact(
                files,
                (path::joined(dir, (#[trigger] entries[i]).path), entries[i].sha256),
            ),
    decreases entries.len(),
{
    let steps = unpack::verify_steps(dir, entries);
    if entries.len() > 0 {
        let rest = entries.drop_last();
        assert(steps.drop_last() =~= unpack::verify_steps(dir, rest));
        lemma_checks_held(files, dir, rest, rewrite);
        let last = entries[entries.len() - 1];
        assert(steps.last() == (unpack::StepView::Verify { path: path::joined(dir, last.path), entry: last }));
        assert forall|i: int| 0 <= i < entries.len() implies is_intact(
            files,
            (path::joined(dir, (#[trigger] entries[i]).path), entries[i].sha256),
        ) by {
            if i < rest.len() {
                assert(rest[i] == entries[i]);
            }
        }
    }
}

/// Steps for one snapshot directory that all succeed found its files intact, and change its metadata at
/// most.
proof fn lemma_dir_held(
    files: Map<Seq<char>, Seq<u8>>,
    dir: Seq<char>,
    entries: Seq<manifest::FileEntryView>,
    rewrite: Rewriting,
)
    requires
        after_steps(files, unpack::dir_steps(dir, entries), rewrite) is Some,
    ensures
        forall|i: int|
            0 <= i < entries.len() ==> is_intact(
                files,
                (path::joined(dir, (#[trigger] entries[i]).path), entries[i].sha256),
            ),
        ({
            let end = after_steps(files, unpack::dir_steps(dir, entries), rewrite)->0;
            forall|check: (Seq<char>, Seq<char>)|
                check.0 != path::joined(dir, "snapshot.json"@) && #[trigger] is_intact(end, check) ==> is_intact(
                    files,
                    check,
                )
        }),
{
    let steps = unpack::dir_steps(dir, entries);
    assert(steps.drop_last() =~= unpack::verify_steps(dir, entries));
    lemma_checks_held(files, dir, entries, rewrite);
}

/// Steps for some links that all succeed found the files of all of them intact, and change their metadata
/// at most.
proof fn lemma_chain_held(
    files: Map<Seq<char>, Seq<u8>>,
    dest_dir: Seq<char>,
    chain: Seq<manifest::ChainLinkView>,
    rewrite: Rewriting,
)
    requires
        forall|i: int| 0 <= i < chain.len() ==> unpack::is_safe_tag((#[trigger] chain[i]).tag),
        forall|i: int, j: int| 0 <= i < j < chain.len() ==> (#[trigger] chain[i]).tag != (#[trigger] chain[j]).tag,
        has_relative_paths(chain),
        after_steps(files, unpack::chain_steps(dest_dir, chain), rewrite) is Some,
    ensures
        ({
            let checks = checks_of(unpack::chain_steps(dest_dir, chain));
            let end = after_steps(files, unpack::chain_steps(dest_dir, chain), rewrite)->0;
            &&& forall|k: int| 0 <= k < checks.len() ==> is_intact(files, #[trigger] checks[k])
            &&& forall|check: (Seq<char>, Seq<char>)|
                is_elsewhere(dest_dir, chain, check.0) && #[trigger] is_intact(end, check) ==> is_intact(files, check)
        }),
    decreases chain.len(),
{
    if chain.len() > 0 {
        let rest = chain.drop_last();
        let link = chain.last();
        let dir = path::joined(dest_dir, link.tag);
        let before = unpack::chain_steps(dest_dir, rest);
        let own = unpack::dir_steps(dir, link.files);
        assert forall|i: int| 0 <= i < rest.len() implies unpack::is_safe_tag((#[trigger] rest[i]).tag) by {
            assert(rest[i] == chain[i]);
        }
        assert forall|i: int, j: int| 0 <= i < j < rest.len() implies (#[trigger] rest[i]).tag != (#[trigger] rest[j]).tag by {
            assert(rest[i] == chain[i] && rest[j] == chain[j]);
        }
        assert(has_relative_paths(rest)) by {
            assert forall|i: int, f: int| 0 <= i < rest.len() && 0 <= f < rest[i].files.len() implies is_relative(
                (#[trigger] rest[i].files[f]).path,
            ) by {
                assert(rest[i] == chain[i]);
                assert(is_relative(chain[i].files[f].path));
            }
        }
        lemma_steps_add(files, before, own, rewrite);
        lemma_chain_held(files, dest_dir, rest, rewrite);
        let mid = after_steps(files, before, rewrite)->0;
        lemma_dir_held(mid, dir, link.files, rewrite);
        lemma_checks_add(before, own);
        lemma_checks_of_dir(dir, link.files);
        let checks = checks_of(unpack::chain_steps(dest_dir, chain));
        let n = checks_of(before).len();
        assert forall|k: int| 0 <= k < checks.len() implies is_intact(files, #[trigger] checks[k]) by {
            if k < n {
                assert(checks[k] == checks_of(before)[k]);
            } else {
                let file = link.files[k - n];
                assert(checks[k] == (path::joined(dir, file.path), file.sha256));
                assert(is_relative(chain[chain.len() - 1].files[k - n].path));
                assert(is_elsewhere(dest_dir, rest, path::joined(dir, file.path))) by {
                    assert forall|i: int| 0 <= i < rest.len() implies path::joined(dir, file.path) != path::joined(
                        path::joined(dest_dir, (#[trigger] rest[i]).tag),
                        "snapshot.json"@,
                    ) by {
                        assert(rest[i] == chain[i]);
                        lemma_links_lie_apart(dest_dir, chain[i].tag, link.tag, file.path);
                    }
                }
                assert(is_intact(mid, checks[k]));
            }
        }
        let end = after_steps(files, unpack::chain_steps(dest_dir, chain), rewrite)->0;
        assert forall|check: (Seq<char>, Seq<char>)|
            is_elsewhere(dest_dir, chain, check.0) && #[trigger] is_intact(end, check) implies is_intact(files, check) by {
            assert(check.0 != path::joined(path::joined(dest_dir, chain[chain.len() - 1].tag), "snapshot.json"@));
            assert(is_intact(mid, check));
            assert(is_elsewhere(dest_dir, rest, check.0)) by {
                assert forall|i: int| 0 <= i < rest.len() implies check.0 != path::joined(
                    path::joined(dest_dir, (#[trigger] rest[i]).tag),
                    "snapshot.json"@,
                ) by {
                    assert(rest[i] == chain[i]);
                }
            }
        }
    }
}

/// Whether `at` is not the metadata of any of the links.
spec fn is_elsewhere(dest_dir: Seq<char>, chain: Seq<manifest::ChainLinkView>, at: Seq<char>) -> bool {
    forall|i: int|
        0 <= i < chain.len() ==> at != path::joined(
            path::joined(dest_dir, (#[trigger] chain[i]).tag),
            "snapshot.json"@,
        )
}

/// What lies in the directory of one link is not the metadata of another.
proof fn lemma_links_lie_apart(dest_dir: Seq<char>, other: Seq<char>, tag: Seq<char>, name: Seq<char>)
    requires
        unpack::is_safe_tag(other),
        unpack::is_safe_tag(tag),
        other != tag,
        is_relative(name),
    ensures
        path::joined(path::joined(dest_dir, tag), name) != path::joined(
            path::joined(dest_dir, other),
            "snapshot.json"@,
        ),
{
    reveal_strlit("snapshot.json");
    let metadata = "snapshot.json"@;
    let a = manifest::link_file(tag, name);
    let b = manifest::link_file(other, metadata);
    lemma_link_path(dest_dir, tag, name);
    lemma_link_path(dest_dir, other, metadata);
    assert(unpack::is_tag_char(tag[0]));
    assert(unpack::is_tag_char(other[0]));
    assert(a[0] == tag[0]);
    assert(b[0] == other[0]);
    if path::joined(dest_dir, a) == path::joined(dest_dir, b) {
        lemma_join_injective(dest_dir, a, b);
        lemma_link_files_differ(tag, name, other, metadata);
    }
}

/// A pack with a file that is missing or altered is refused: where all the closing steps succeed on the
/// files that were extracted, each file that the manifest declares was there, with the hash it declares.
/// Links of one tag, and files declared to lie outside the directory of their link, are left aside: there
/// a file can be checked after it has been rewritten. Paths are told apart by their text.
pub proof fn law_accepted_pack_is_intact(
    files: Map<Seq<char>, Seq<u8>>,
    dest_dir: Seq<char>,
    m: manifest::ManifestView,
    rewrite: Rewriting,
)
    requires
        unpack::is_readable(m),
        forall|i: int, j: int| 0 <= i < j < m.chain.len() ==> (#[trigger] m.chain[i]).tag != (#[trigger] m.chain[j]).tag,
        has_relative_paths(m.chain),
        after_steps(files, unpack::closing_steps(dest_dir, m), rewrite) is Some,
    ensures
        forall|k: int|
            0 <= k < checks_of(unpack::closing_steps(dest_dir, m)).len() ==> is_intact(
                files,
                #[trigger] checks_of(unpack::closing_steps(dest_dir, m))[k],
            ),
{
    if m.chain.len() == 0 {
        lemma_dir_held(files, dest_dir, m.files, rewrite);
        lemma_checks_of_dir(dest_dir, m.files);
        let checks = checks_of(unpack::closing_steps(dest_dir, m));
        assert forall|k: int| 0 <= k < checks.len() implies is_intact(files, #[trigger] checks[k]) by {
            let file = m.files[k];
            assert(checks[k] == (path::joined(dest_dir, file.path), file.sha256));
        }
    } else {
        lemma_chain_held(files, dest_dir, m.chain, rewrite);
    }
}

} // verus!
