//! Copying a file into another through two memory mappings, and giving both back.

use crate::text;
use vstd::prelude::*;

verus! {

/// A mapping: its address and its length.
#[derive(Clone, Copy, PartialEq, Eq, Debug)]
pub struct Mapping {
    pub addr: usize,
    pub len: u64,
}

/// More was to be copied than the destination holds.
#[derive(Clone, Copy, PartialEq, Eq, Debug)]
pub struct Oversized {
    pub size_bytes: u64,
    pub alloc_size: u64,
}

impl Oversized {
    /// The message for the user.
    pub open spec fn text(self) -> Seq<char> {
        "size_bytes ("@ + text::decimal(self.size_bytes as nat) + ") must be <= alloc_size ("@ + text::decimal(
            self.alloc_size as nat,
        ) + ")"@
    }

    /// The message for the user.
    pub fn message(&self) -> (m: String)
        ensures
            m@ == self.text(),
    {
        let mut m = "size_bytes (".to_owned();
        text::push_decimal(&mut m, self.size_bytes);
        m.append(") must be <= alloc_size (");
        text::push_decimal(&mut m, self.alloc_size);
        m.append(")");
        m
    }
}

/// What to do next.
#[derive(Clone, Copy, PartialEq, Eq, Debug)]
pub enum MapAction {
    /// Map this much of the destination, shared, for reading and writing.
    MapDst { len: u64 },
    /// Map this much of the source, privately, for reading.
    MapSrc { len: u64 },
    /// Copy `len` bytes from the one mapping to the other.
    CopyBytes { src: Mapping, dst: Mapping, len: u64 },
    /// Give the mapping back.
    Unmap { mapping: Mapping },
    /// Nothing: `copied` bytes were copied.
    Done { copied: u64 },
    /// Nothing: a mapping could not be made, that of the destination where `at_dst` says so, else that of
    /// the source.
    GaveUp { at_dst: bool },
}

/// How far the copying has come.
#[derive(Clone, Copy, PartialEq, Eq, Debug)]
enum MapStage {
    MapDst,
    MapSrc { dst: Mapping },
    CopyBytes { src: Mapping, dst: Mapping },
    UnmapSrc { src: Mapping, dst: Mapping },
    UnmapDst { dst: Mapping, copied: bool },
    Done,
    GaveUp { at_dst: bool },
}

/// A copy under way.
#[derive(Clone, Copy, PartialEq, Eq, Debug)]
pub struct MappedCopy {
    size_bytes: u64,
    alloc_size: u64,
    stage: MapStage,
}

/// Begins to copy `size_bytes` bytes into a destination of `alloc_size` bytes.
pub fn copy_via_mmap(size_bytes: u64, alloc_size: u64) -> (begun: Result<MappedCopy, Oversized>)
    ensures
        match begun {
            Ok(c) => {
                &&& size_bytes <= alloc_size
                &&& c.wf()
                &&& c.size() == size_bytes
                &&& c.room() == alloc_size
                &&& c.action() == (MapAction::MapDst { len: alloc_size })
                &&& c.live() == Seq::<Mapping>::empty()
            },
            Err(e) => size_bytes > alloc_size && e == (Oversized { size_bytes, alloc_size }),
        },
{
    if size_bytes > alloc_size {
        return Err(Oversized { size_bytes, alloc_size });
    }
    Ok(MappedCopy { size_bytes, alloc_size, stage: MapStage::MapDst })
}

impl MappedCopy {
    /// How many bytes are to be copied.
    pub closed spec fn size(&self) -> u64 {
        self.size_bytes
    }

    /// How many bytes the destination holds.
    pub closed spec fn room(&self) -> u64 {
        self.alloc_size
    }

    /// The mappings that have been made and not yet given back.
    pub closed spec fn live(&self) -> Seq<Mapping> {
        match self.stage {
            MapStage::MapDst => seq![],
            MapStage::MapSrc { dst } => seq![dst],
            MapStage::CopyBytes { src, dst } => seq![dst, src],
            MapStage::UnmapSrc { src, dst } => seq![dst, src],
            MapStage::UnmapDst { dst, .. } => seq![dst],
            MapStage::Done => seq![],
            MapStage::GaveUp { .. } => seq![],
        }
    }

    /// Each mapping is as long as was asked for, and what is to be copied fits in both.
    pub closed spec fn wf(&self) -> bool {
        &&& self.size_bytes <= self.alloc_size
        &&& match self.stage {
            MapStage::MapDst => true,
            MapStage::MapSrc { dst } => dst.len == self.alloc_size,
            MapStage::CopyBytes { src, dst } => src.len == self.size_bytes && dst.len == self.alloc_size,
            MapStage::UnmapSrc { src, dst } => src.len == self.size_bytes && dst.len == self.alloc_size,
            MapStage::UnmapDst { dst, .. } => dst.len == self.alloc_size,
            MapStage::Done => true,
            MapStage::GaveUp { .. } => true,
        }
    }

    /// What to do next.
    pub closed spec fn action(&self) -> MapAction {
        match self.stage {
            MapStage::MapDst => MapAction::MapDst { len: self.alloc_size },
            MapStage::MapSrc { .. } => MapAction::MapSrc { len: self.size_bytes },
            MapStage::CopyBytes { src, dst } => MapAction::CopyBytes { src, dst, len: self.size_bytes },
            MapStage::UnmapSrc { src, .. } => MapAction::Unmap { mapping: src },
            MapStage::UnmapDst { dst, .. } => MapAction::Unmap { mapping: dst },
            MapStage::Done => MapAction::Done { copied: self.size_bytes },
            MapStage::GaveUp { at_dst } => MapAction::GaveUp { at_dst },
        }
    }

    /// Whether the bytes have been copied.
    pub closed spec fn has_copied(&self) -> bool {
        match self.stage {
            MapStage::UnmapSrc { .. } => true,
            MapStage::UnmapDst { copied, .. } => copied,
            MapStage::Done => true,
            _ => false,
        }
    }

    /// What to do next.
    pub fn next_action(&self) -> (action: MapAction)
        ensures
            action == self.action(),
    {
        match self.stage {
            MapStage::MapDst => MapAction::MapDst { len: self.alloc_size },
            MapStage::MapSrc { .. } => MapAction::MapSrc { len: self.size_bytes },
            MapStage::CopyBytes { src, dst } => MapAction::CopyBytes { src, dst, len: self.size_bytes },
            MapStage::UnmapSrc { src, .. } => MapAction::Unmap { mapping: src },
            MapStage::UnmapDst { dst, .. } => MapAction::Unmap { mapping: dst },
            MapStage::Done => MapAction::Done { copied: self.size_bytes },
            MapStage::GaveUp { at_dst } => MapAction::GaveUp { at_dst },
        }
    }

    /// The call that was to make a mapping returned `addr`, or `None` where it failed.
    ///
    /// Without the destination there is nothing to undo. Without the source the destination is given
    /// back first.
    pub fn mapped(self, addr: Option<usize>) -> (next: MappedCopy)
        requires
            self.wf(),
            self.action() is MapDst || self.action() is MapSrc,
        ensures
            next.wf(),
            next.size() == self.size(),
            next.room() == self.room(),
            !next.has_copied(),
            match (self.action(), addr) {
                (MapAction::MapDst { len }, Some(a)) => {
                    &&& next.live() == self.live().push(Mapping { addr: a, len })
                    &&& next.action() == (MapAction::MapSrc { len: self.size() })
                },
                (MapAction::MapDst { .. }, None) => {
                    &&& next.live() == self.live()
                    &&& next.action() == (MapAction::GaveUp { at_dst: true })
                },
                (MapAction::MapSrc { len }, Some(a)) => {
                    &&& next.live() == self.live().push(Mapping { addr: a, len })
                    &&& next.action() == (MapAction::CopyBytes {
                        src: next.live()[1],
                        dst: next.live()[0],
                        len: self.size(),
                    })
                },
                (MapAction::MapSrc { .. }, None) => {
                    &&& next.live() == self.live()
                    &&& next.action() == (MapAction::Unmap { mapping: self.live()[0] })
                },
                _ => false,
            },
    {
        let stage = match self.stage {
            MapStage::MapDst => match addr {
                Some(a) => MapStage::MapSrc { dst: Mapping { addr: a, len: self.alloc_size } },
                None => MapStage::GaveUp { at_dst: true },
            },
            MapStage::MapSrc { dst } => match addr {
                Some(a) => MapStage::CopyBytes { src: Mapping { addr: a, len: self.size_bytes }, dst },
                None => MapStage::UnmapDst { dst, copied: false },
            },
            other => other,
        };
        let next = MappedCopy { size_bytes: self.size_bytes, alloc_size: self.alloc_size, stage };
        proof {
            if addr is Some {
                assert(next.live() =~= self.live().push(next.live().last()));
            }
        }
        next
    }

    /// The bytes were copied, or the mapping named last was given back.
    pub fn performed(self) -> (next: MappedCopy)
        requires
            self.wf(),
            self.action() is CopyBytes || self.action() is Unmap,
        ensures
            next.wf(),
            next.size() == self.size(),
            next.room() == self.room(),
            next.has_copied() == (self.has_copied() || self.action() is CopyBytes),
            match self.action() {
                MapAction::CopyBytes { src, .. } => {
                    &&& next.live() == self.live()
                    &&& next.action() == (MapAction::Unmap { mapping: src })
                },
                MapAction::Unmap { mapping } => {
                    &&& self.live().len() > 0
                    &&& mapping == self.live().last()
                    &&& next.live() == self.live().drop_last()
                    &&& next.action() == (if next.live().len() > 0 {
                        MapAction::Unmap { mapping: next.live().last() }
                    } else if next.has_copied() {
                        MapAction::Done { copied: self.size() }
                    } else {
                        MapAction::GaveUp { at_dst: false }
                    })
                },
                _ => false,
            },
    {
        let stage = match self.stage {
            MapStage::CopyBytes { src, dst } => MapStage::UnmapSrc { src, dst },
            MapStage::UnmapSrc { dst, .. } => MapStage::UnmapDst { dst, copied: true },
            MapStage::UnmapDst { copied, .. } => if copied {
                MapStage::Done
            } else {
                MapStage::GaveUp { at_dst: false }
            },
            other => other,
        };
        let next = MappedCopy { size_bytes: self.size_bytes, alloc_size: self.alloc_size, stage };
        proof {
            if self.action() is Unmap {
                assert(next.live() =~= self.live().drop_last());
            }
        }
        next
    }
}

/// When the copying has ended, well or not, every mapping has been given back, and it ended well if
/// and only if the bytes were copied.
pub proof fn law_mappings_are_given_back(c: MappedCopy)
    ensures
        c.action() is Done || c.action() is GaveUp ==> c.live() == Seq::<Mapping>::empty(),
        c.action() is Done ==> c.has_copied() && c.action() == (MapAction::Done { copied: c.size() }),
        c.action() is GaveUp ==> !c.has_copied(),
{
}

/// Bytes are copied only while both mappings are there, and no more of them than either holds.
pub proof fn law_copy_stays_in_bounds(c: MappedCopy)
    requires
        c.wf(),
    ensures
        c.action() matches MapAction::CopyBytes { src, dst, len } ==> {
            &&& c.live() == seq![dst, src]
            &&& len <= src.len
            &&& len <= dst.len
            &&& len == c.size()
        },
{
}

/// What does not fit in the destination is not begun, and the error tells both lengths.
pub proof fn law_copy_must_fit(size_bytes: u64, alloc_size: u64, begun: Result<MappedCopy, Oversized>)
    requires
        call_ensures(copy_via_mmap, (size_bytes, alloc_size), begun),
    ensures
        begun is Ok <==> size_bytes <= alloc_size,
        begun matches Err(e) ==> e.size_bytes == size_bytes && e.alloc_size == alloc_size,
{
}

/// A copy whose two mappings can be made takes six steps, and no others: the whole destination is mapped,
/// then as much of the source as there is to copy; that much is copied from the one to the other; both
/// mappings are given back, as they were made, the source's first; and what was copied is told.
pub proof fn law_copy_runs_to_its_end(
    size_bytes: u64,
    alloc_size: u64,
    begun: Result<MappedCopy, Oversized>,
    dst: usize,
    src: usize,
    c1: MappedCopy,
    c2: MappedCopy,
    c3: MappedCopy,
    c4: MappedCopy,
    c5: MappedCopy,
    actions: Seq<MapAction>,
)
    requires
        size_bytes <= alloc_size,
        call_ensures(copy_via_mmap, (size_bytes, alloc_size), begun),
        begun matches Ok(c0) && {
            &&& call_ensures(MappedCopy::next_action, (&c0,), actions[0])
            &&& call_ensures(MappedCopy::mapped, (c0, Some(dst)), c1)
        },
        call_ensures(MappedCopy::next_action, (&c1,), actions[1]),
        call_ensures(MappedCopy::mapped, (c1, Some(src)), c2),
        call_ensures(MappedCopy::next_action, (&c2,), actions[2]),
        call_ensures(MappedCopy::performed, (c2,), c3),
        call_ensures(MappedCopy::next_action, (&c3,), actions[3]),
        call_ensures(MappedCopy::performed, (c3,), c4),
        call_ensures(MappedCopy::next_action, (&c4,), actions[4]),
        call_ensures(MappedCopy::performed, (c4,), c5),
        call_ensures(MappedCopy::next_action, (&c5,), actions[5]),
    ensures
        ({
            let d = Mapping { addr: dst, len: alloc_size };
            let s = Mapping { addr: src, len: size_bytes };
            &&& actions[0] == (MapAction::MapDst { len: alloc_size })
            &&& actions[1] == (MapAction::MapSrc { len: size_bytes })
            &&& actions[2] == (MapAction::CopyBytes { src: s, dst: d, len: size_bytes })
            &&& actions[3] == (MapAction::Unmap { mapping: s })
            &&& actions[4] == (MapAction::Unmap { mapping: d })
            &&& actions[5] == (MapAction::Done { copied: size_bytes })
        }),
{
}

/// A copy whose destination cannot be mapped ends there, and says so. One whose source cannot be mapped gives
/// the destination's mapping back before it ends, and says that it was the source.
pub proof fn law_copy_gives_up_clean(
    size_bytes: u64,
    alloc_size: u64,
    begun: Result<MappedCopy, Oversized>,
    dst: usize,
    without_dst: MappedCopy,
    c1: MappedCopy,
    without_src: MappedCopy,
    last: MappedCopy,
    actions: Seq<MapAction>,
)
    requires
        size_bytes <= alloc_size,
        call_ensures(copy_via_mmap, (size_bytes, alloc_size), begun),
        begun matches Ok(c0) && {
            &&& call_ensures(MappedCopy::mapped, (c0, None::<usize>), without_dst)
            &&& call_ensures(MappedCopy::mapped, (c0, Some(dst)), c1)
        },
        call_ensures(MappedCopy::next_action, (&without_dst,), actions[0]),
        call_ensures(MappedCopy::mapped, (c1, None::<usize>), without_src),
        call_ensures(MappedCopy::next_action, (&without_src,), actions[1]),
        call_ensures(MappedCopy::performed, (without_src,), last),
        call_ensures(MappedCopy::next_action, (&last,), actions[2]),
    ensures
        actions[0] == (MapAction::GaveUp { at_dst: true }),
        actions[1] == (MapAction::Unmap { mapping: Mapping { addr: dst, len: alloc_size } }),
        actions[2] == (MapAction::GaveUp { at_dst: false }),
{
}

/// The message for what does not fit tells both lengths.
pub proof fn law_oversized_is_told(e: &Oversized, m: String)
    requires
        call_ensures(Oversized::message, (e,), m),
    ensures
        text::mentions_number(m@, e.size_bytes as nat),
        text::mentions_number(m@, e.alloc_size as nat),
{
    let size = text::decimal(e.size_bytes as nat);
    text::lemma_mentions_number(
        "size_bytes ("@,
        e.size_bytes as nat,
        ") must be <= alloc_size ("@ + text::decimal(e.alloc_size as nat) + ")"@,
        m@,
    );
    text::lemma_mentions_number(
        "size_bytes ("@ + size + ") must be <= alloc_size ("@,
        e.alloc_size as nat,
        ")"@,
        m@,
    );
}

} // verus!
