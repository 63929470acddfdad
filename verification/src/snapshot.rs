//! What a snapshot directory records of its snapshot.

use vstd::prelude::*;

verus! {

/// A volume that a snapshot attaches.
#[derive(Clone, Debug)]
pub struct VolumeSpec {
    /// Where the volume's image lies on the host.
    pub host_path: String,
}

/// The metadata of a snapshot, as its `snapshot.json` records it.
#[derive(Clone, Debug)]
pub struct Snapshot {
    /// Path of the saved device and processor state.
    pub vmstate: String,
    /// Path of the guest memory: all of it for a base, a sparse difference to
    /// the parent's memory for a chained snapshot.
    pub memory: String,
    /// The volumes attached to the guest.
    pub volumes: Vec<VolumeSpec>,
    /// The snapshot this one is a difference to. `None` for a base.
    pub parent_tag: Option<String>,
    /// SHA-256 of the parent's memory when this snapshot was taken.
    pub parent_content_hash: Option<String>,
}

/// The characters of an optional string.
pub open spec fn opt_text(s: Option<String>) -> Option<Seq<char>> {
    match s {
        Some(t) => Some(t@),
        None => None,
    }
}

/// What a [`Snapshot`] holds.
pub struct SnapshotView {
    pub vmstate: Seq<char>,
    pub memory: Seq<char>,
    pub volumes: Seq<Seq<char>>,
    pub parent_tag: Option<Seq<char>>,
    pub parent_content_hash: Option<Seq<char>>,
}

impl View for Snapshot {
    type V = SnapshotView;

    open spec fn view(&self) -> SnapshotView {
        SnapshotView {
            vmstate: self.vmstate@,
            memory: self.memory@,
            volumes: self.volumes@.map_values(|v: VolumeSpec| v.host_path@),
            parent_tag: opt_text(self.parent_tag),
            parent_content_hash: opt_text(self.parent_content_hash),
        }
    }
}

/// A copy of an optional string.
pub fn copy_opt(s: &Option<String>) -> (copy: Option<String>)
    ensures
        opt_text(copy) == opt_text(*s),
{
    match s {
        Some(t) => Some(t.clone()),
        None => None,
    }
}

/// Whether two optional strings are both missing, or both there with the same characters.
pub open spec fn same_opt(a: Option<String>, b: Option<String>) -> bool {
    match (a, b) {
        (Some(x), Some(y)) => x@ == y@,
        (None, None) => true,
        _ => false,
    }
}

/// The copy of an optional string is missing if and only if the string is, and has its characters.
pub proof fn law_copy_is_the_same(s: &Option<String>, copy: Option<String>)
    requires
        call_ensures(copy_opt, (s,), copy),
    ensures
        same_opt(copy, *s),
{
}

/// What snapshots hold is the same if and only if each of their fields is.
pub proof fn law_snapshots_are_told_apart(a: Snapshot, b: Snapshot)
    ensures
        a@ == b@ <==> {
            &&& a.vmstate@ == b.vmstate@
            &&& a.memory@ == b.memory@
            &&& a.volumes@.len() == b.volumes@.len()
            &&& forall|i: int|
                0 <= i < a.volumes@.len() ==> (#[trigger] a.volumes@[i]).host_path@ == b.volumes@[i].host_path@
            &&& same_opt(a.parent_tag, b.parent_tag)
            &&& same_opt(a.parent_content_hash, b.parent_content_hash)
        },
        a@.parent_tag is Some <==> a.parent_tag is Some,
        a.parent_tag matches Some(t) ==> a@.parent_tag == Some(t@),
        a@.parent_content_hash is Some <==> a.parent_content_hash is Some,
        a.parent_content_hash matches Some(h) ==> a@.parent_content_hash == Some(h@),
        a@.memory == a.memory@,
{
    if a@ == b@ {
        assert(a@.volumes.len() == a.volumes@.len() && b@.volumes.len() == b.volumes@.len());
        assert forall|i: int| 0 <= i < a.volumes@.len() implies (#[trigger] a.volumes@[i]).host_path@
            == b.volumes@[i].host_path@ by {
            assert(a@.volumes[i] == b@.volumes[i]);
        }
    }
    if a.volumes@.len() == b.volumes@.len() && forall|i: int|
        0 <= i < a.volumes@.len() ==> (#[trigger] a.volumes@[i]).host_path@ == b.volumes@[i].host_path@ {
        assert(a@.volumes =~= b@.volumes);
    }
}

} // verus!
