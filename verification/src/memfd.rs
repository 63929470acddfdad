//! Memory regions behind an anonymous file: how one is created and filled from a snapshot's memory,
//! and what becomes of it when huge pages run out.

use crate::text;
use vstd::prelude::*;

verus! {

/// Two mebibytes. The length of a file on huge pages is a multiple of this.
pub const HUGE_PAGE_2MB: u64 = 2_097_152;

/// `MFD_CLOEXEC` of the `libc` crate is 1.
#[verifier::external_body]
fn mfd_cloexec() -> (flag: u32)
    ensures
        flag == 1,
{
    libc::MFD_CLOEXEC
}

/// `MFD_HUGETLB` of the `libc` crate is 4.
#[verifier::external_body]
fn mfd_hugetlb() -> (flag: u32)
    ensures
        flag == 4,
{
    libc::MFD_HUGETLB
}

/// `MFD_HUGE_SHIFT` of the `libc` crate is 26.
#[verifier::external_body]
fn mfd_huge_shift() -> (shift: u32)
    ensures
        shift == 26,
{
    libc::MFD_HUGE_SHIFT
}

/// `ENOMEM` of the `libc` crate is 12.
#[verifier::external_body]
fn enomem() -> (code: i32)
    ensures
        code == 12,
{
    libc::ENOMEM
}

/// The flags for an anonymous file: close on exec, and on request pages of `2^21` bytes, the
/// exponent written from bit 26 on.
pub open spec fn memfd_flags(hugepages: bool) -> int {
    if hugepages {
        1 + 4 + 21int * 0x400_0000
    } else {
        1
    }
}

/// The least multiple of [`HUGE_PAGE_2MB`] that is not below `size`.
pub open spec fn huge_aligned(size: int) -> int {
    (size + HUGE_PAGE_2MB - 1) / (HUGE_PAGE_2MB as int) * HUGE_PAGE_2MB
}

/// How long the anonymous file is made for a source of `size` bytes.
pub open spec fn alloc_size_for(size: int, hugepages: bool) -> int {
    if hugepages {
        huge_aligned(size)
    } else {
        size
    }
}

/// The length on huge pages is a multiple of the page size, holds the source, and wastes less than
/// a page.
pub proof fn law_alignment_is_tight(size: int)
    ensures
        huge_aligned(size) % (HUGE_PAGE_2MB as int) == 0,
        size <= huge_aligned(size) < size + HUGE_PAGE_2MB,
{
}

/// A filled region: the descriptor of its anonymous file, and how long its source is.
#[derive(Debug)]
pub struct MemfdRegion {
    fd: u32,
    size_bytes: u64,
}

impl MemfdRegion {
    /// The descriptor of the anonymous file.
    pub closed spec fn spec_fd(&self) -> nat {
        self.fd as nat
    }

    /// The length of the region in bytes.
    pub closed spec fn spec_size_bytes(&self) -> nat {
        self.size_bytes as nat
    }

    /// The length of the region in bytes.
    pub fn size_bytes(&self) -> (size: u64)
        ensures
            size == self.spec_size_bytes(),
    {
        self.size_bytes
    }

    /// The path by which other processes open the region, while process `pid` holds it open. It names
    /// that process and not `self`, since whoever opens it has descriptors of its own.
    pub fn backend_path(&self, pid: u32) -> (path: String)
        ensures
            path@ == "/proc/"@ + text::decimal(pid as nat) + "/fd/"@ + text::decimal(self.spec_fd()),
    {
        let mut path = "/proc/".to_owned();
        text::push_decimal(&mut path, pid as u64);
        path.append("/fd/");
        text::push_decimal(&mut path, self.fd as u64);
        path
    }
}

/// How far the filling of a region has come.
#[derive(Clone, Copy, PartialEq, Eq, Debug)]
pub enum Stage {
    /// The source is to be opened.
    Open,
    /// The length of the source is to be found.
    Measure,
    /// The anonymous file is to be created. `again` says that huge pages have run out before.
    Create { size_bytes: u64, hugepages: bool, again: bool },
    /// The anonymous file is to be given its length.
    Resize { fd: u32, size_bytes: u64, hugepages: bool, alloc_size: u64 },
    /// The source is to be copied.
    Copy { fd: u32, size_bytes: u64, hugepages: bool, alloc_size: u64 },
}

/// What to do next.
#[derive(Clone, Debug)]
pub enum MemfdAction {
    /// Open the source for reading.
    OpenSource { path: String },
    /// Find the length of the source.
    MeasureSource,
    /// Create an anonymous file.
    CreateMemfd { name: String, flags: u32 },
    /// Set the length of the anonymous file.
    SetLength { fd: u32, length: u64 },
    /// Copy the source through two mappings: a file on huge pages cannot be written to.
    CopyMapped { fd: u32, size_bytes: u64, alloc_size: u64 },
    /// Copy the source by reading and writing.
    CopyStream { fd: u32 },
}

/// Why a region could not be filled.
#[derive(Clone, Debug)]
pub enum MemfdError {
    Open { source: String, reason: String },
    Measure { source: String, reason: String },
    /// The name holds a null byte, `position` bytes from its start.
    NulInName { position: u64 },
    Create { reason: String },
    /// Creation failed on ordinary pages too, after huge pages had run out.
    CreateFallback { reason: String },
    Resize { alloc_size: u64, reason: String },
    CopyMapped { source: String, reason: String },
    CopyStream { source: String, reason: String },
    ShortCopy { source: String, size_bytes: u64, copied: u64 },
}

/// The filling of a region.
#[derive(Clone, Debug)]
pub struct Population {
    source: String,
    name: String,
    use_hugepages: bool,
    stage: Stage,
}

/// What a [`Population`] stands for.
pub struct PopulationView {
    pub source: Seq<char>,
    pub name: Seq<char>,
    pub use_hugepages: bool,
    pub stage: Stage,
}

impl View for Population {
    type V = PopulationView;

    closed spec fn view(&self) -> PopulationView {
        PopulationView {
            source: self.source@,
            name: self.name@,
            use_hugepages: self.use_hugepages,
            stage: self.stage,
        }
    }
}

/// Whether a null byte is `position` bytes from the start of `name`, and none before it.
pub open spec fn first_nul(name: Seq<char>, position: int) -> bool {
    let bytes = vstd::utf8::encode_utf8(name);
    &&& 0 <= position < bytes.len()
    &&& bytes[position] == 0
    &&& forall|i: int| 0 <= i < position ==> bytes[i] != 0
}

/// Whether `name` holds a null byte.
pub open spec fn has_nul(name: Seq<char>) -> bool {
    exists|position: int| first_nul(name, position)
}

/// Begins to create an anonymous file and to fill it from the file `source`.
///
/// `name` is recorded with the anonymous file. `use_hugepages` asks for pages of two mebibytes; when
/// none are left, be that found on creating the file or on mapping it, ordinary pages serve.
pub fn create_and_populate(source: &str, name: &str, use_hugepages: bool) -> (p: Population)
    ensures
        p@ == (PopulationView { source: source@, name: name@, use_hugepages, stage: Stage::Open }),
        p.wf(),
{
    Population { source: source.to_owned(), name: name.to_owned(), use_hugepages, stage: Stage::Open }
}

impl Population {
    /// Huge pages are used only on request and not after they have run out, and the anonymous file is
    /// as long as they need.
    pub open spec fn wf(&self) -> bool {
        match self@.stage {
            Stage::Open => true,
            Stage::Measure => true,
            Stage::Create { size_bytes, hugepages, again } => {
                &&& hugepages <==> self@.use_hugepages && !again
                &&& hugepages ==> size_bytes + HUGE_PAGE_2MB - 1 <= u64::MAX
            },
            Stage::Resize { fd, size_bytes, hugepages, alloc_size } => {
                &&& hugepages ==> self@.use_hugepages
                &&& alloc_size == alloc_size_for(size_bytes as int, hugepages)
            },
            Stage::Copy { fd, size_bytes, hugepages, alloc_size } => {
                &&& hugepages ==> self@.use_hugepages
                &&& alloc_size == alloc_size_for(size_bytes as int, hugepages)
            },
        }
    }

    /// What to do next.
    pub fn next_action(&self) -> (action: MemfdAction)
        requires
            self.wf(),
        ensures
            match self@.stage {
                Stage::Open => action matches MemfdAction::OpenSource { path } && path@ == self@.source,
                Stage::Measure => action is MeasureSource,
                Stage::Create { hugepages, .. } => {
                    &&& action matches MemfdAction::CreateMemfd { name, flags }
                    &&& name@ == self@.name
                    &&& flags == memfd_flags(hugepages)
                },
                Stage::Resize { fd, alloc_size, .. } => action == (MemfdAction::SetLength { fd, length: alloc_size }),
                Stage::Copy { fd, size_bytes, hugepages, alloc_size } => action == (if hugepages {
                    MemfdAction::CopyMapped { fd, size_bytes, alloc_size }
                } else {
                    MemfdAction::CopyStream { fd }
                }),
            },
    {
        match self.stage {
            Stage::Open => MemfdAction::OpenSource { path: self.source.clone() },
            Stage::Measure => MemfdAction::MeasureSource,
            Stage::Create { hugepages, .. } => {
                let mut flags: u32 = mfd_cloexec();
                if hugepages {
                    flags = flags | mfd_hugetlb() | (21u32 << mfd_huge_shift());
                    assert(1u32 | 4u32 | (21u32 << 26u32) == 1 + 4 + 21 * 0x400_0000) by (bit_vector);
                }
                MemfdAction::CreateMemfd { name: self.name.clone(), flags }
            },
            Stage::Resize { fd, alloc_size, .. } => MemfdAction::SetLength { fd, length: alloc_size },
            Stage::Copy { fd, size_bytes, hugepages, alloc_size } => if hugepages {
                MemfdAction::CopyMapped { fd, size_bytes, alloc_size }
            } else {
                MemfdAction::CopyStream { fd }
            },
        }
    }

    /// The source is open.
    pub fn opened(self) -> (next: Population)
        requires
            self@.stage is Open,
        ensures
            next.wf(),
            next@ == (PopulationView { stage: Stage::Measure, ..self@ }),
    {
        Population { source: self.source, name: self.name, use_hugepages: self.use_hugepages, stage: Stage::Measure }
    }

    /// The source is `size_bytes` long.
    pub fn measured(self, size_bytes: u64) -> (next: Result<Population, MemfdError>)
        requires
            self@.stage is Measure,
            self@.use_hugepages && !has_nul(self@.name) ==> size_bytes + HUGE_PAGE_2MB - 1 <= u64::MAX,
        ensures
            match next {
                Ok(p) => {
                    &&& !has_nul(self@.name)
                    &&& p.wf()
                    &&& p@ == (PopulationView {
                        stage: Stage::Create { size_bytes, hugepages: self@.use_hugepages, again: false },
                        ..self@
                    })
                },
                Err(MemfdError::NulInName { position }) => first_nul(self@.name, position as int),
                Err(_) => false,
            },
    {
        let bytes = self.name.as_str().as_bytes();
        let mut i: usize = 0;
        while i < bytes.len()
            invariant
                i <= bytes@.len(),
                bytes@ == vstd::utf8::encode_utf8(self.name@),
                forall|j: int| 0 <= j < i ==> bytes@[j] != 0,
            decreases bytes@.len() - i,
        {
            if bytes[i] == 0 {
                assert(first_nul(self.name@, i as int));
                return Err(MemfdError::NulInName { position: i as u64 });
            }
            i = i + 1;
        }
        let stage = Stage::Create { size_bytes, hugepages: self.use_hugepages, again: false };
        Ok(Population { source: self.source, name: self.name, use_hugepages: self.use_hugepages, stage })
    }

    /// The call that creates an anonymous file returned `fd`. Where that is negative, `errno` is the
    /// error number, and `reason` its text.
    pub fn created(self, fd: i32, errno: i32, reason: String) -> (next: Result<Population, MemfdError>)
        requires
            self.wf(),
            self@.stage is Create,
        ensures
            match self@.stage {
                Stage::Create { size_bytes, hugepages, again } => if fd >= 0 {
                    &&& next matches Ok(p)
                    &&& p.wf()
                    &&& p@ == (PopulationView {
                        stage: Stage::Resize {
                            fd: fd as u32,
                            size_bytes,
                            hugepages,
                            alloc_size: alloc_size_for(size_bytes as int, hugepages) as u64,
                        },
                        ..self@
                    })
                } else if hugepages && errno == 12 {
                    &&& next matches Ok(p)
                    &&& p.wf()
                    &&& p@ == (PopulationView {
                        stage: Stage::Create { size_bytes, hugepages: false, again: true },
                        ..self@
                    })
                } else if again {
                    next matches Err(MemfdError::CreateFallback { reason: r }) && r@ == reason@
                } else {
                    next matches Err(MemfdError::Create { reason: r }) && r@ == reason@
                },
                _ => false,
            },
    {
        match self.stage {
            Stage::Create { size_bytes, hugepages, again } => {
                if fd >= 0 {
                    let alloc_size: u64 = if hugepages {
                        align_huge(size_bytes)
                    } else {
                        size_bytes
                    };
                    let stage = Stage::Resize { fd: fd as u32, size_bytes, hugepages, alloc_size };
                    Ok(
                        Population {
                            source: self.source,
                            name: self.name,
                            use_hugepages: self.use_hugepages,
                            stage,
                        },
                    )
                } else if hugepages && errno == enomem() {
                    let stage = Stage::Create { size_bytes, hugepages: false, again: true };
                    Ok(
                        Population {
                            source: self.source,
                            name: self.name,
                            use_hugepages: self.use_hugepages,
                            stage,
                        },
                    )
                } else if again {
                    Err(MemfdError::CreateFallback { reason })
                } else {
                    Err(MemfdError::Create { reason })
                }
            },
            _ => Err(MemfdError::Create { reason }),
        }
    }

    /// The anonymous file has its length.
    pub fn resized(self) -> (next: Population)
        requires
            self.wf(),
            self@.stage is Resize,
        ensures
            next.wf(),
            self@.stage matches Stage::Resize { fd, size_bytes, hugepages, alloc_size } && next@ == (PopulationView {
                stage: Stage::Copy { fd, size_bytes, hugepages, alloc_size },
                ..self@
            }),
    {
        let stage = match self.stage {
            Stage::Resize { fd, size_bytes, hugepages, alloc_size } => Stage::Copy {
                fd,
                size_bytes,
                hugepages,
                alloc_size,
            },
            other => other,
        };
        Population { source: self.source, name: self.name, use_hugepages: self.use_hugepages, stage }
    }

    /// `copied` bytes were copied. The region is as long as its source, however long its file is.
    pub fn copied(self, copied: u64) -> (done: Result<MemfdRegion, MemfdError>)
        requires
            self@.stage is Copy,
        ensures
            self@.stage matches Stage::Copy { fd, size_bytes, .. } && match done {
                Ok(region) => {
                    &&& copied == size_bytes
                    &&& region.spec_fd() == fd
                    &&& region.spec_size_bytes() == size_bytes
                },
                Err(MemfdError::ShortCopy { source, size_bytes: s, copied: c }) => {
                    &&& copied != size_bytes
                    &&& source@ == self@.source
                    &&& s == size_bytes
                    &&& c == copied
                },
                Err(_) => false,
            },
    {
        match self.stage {
            Stage::Copy { fd, size_bytes, .. } if copied == size_bytes => Ok(MemfdRegion { fd, size_bytes }),
            Stage::Copy { size_bytes, .. } => Err(
                MemfdError::ShortCopy { source: self.source, size_bytes, copied },
            ),
            _ => Err(MemfdError::ShortCopy { source: self.source, size_bytes: 0, copied }),
        }
    }

    /// The anonymous file, on huge pages, could not be mapped: `errno` is the error number, and `reason`
    /// its text. The pages are taken from the pool only now; where none are left, ordinary pages serve.
    pub fn map_failed(self, errno: i32, reason: String) -> (next: Result<Population, MemfdError>)
        requires
            self.wf(),
            self@.stage matches Stage::Copy { hugepages, .. } && hugepages,
        ensures
            self@.stage matches Stage::Copy { size_bytes, .. } && if errno == 12 {
                &&& next matches Ok(p)
                &&& p.wf()
                &&& p@ == (PopulationView {
                    stage: Stage::Create { size_bytes, hugepages: false, again: true },
                    ..self@
                })
            } else {
                next matches Err(MemfdError::CopyMapped { source, reason: r }) && source@ == self@.source && r@
                    == reason@
            },
    {
        match self.stage {
            Stage::Copy { size_bytes, .. } if errno == enomem() => {
                let stage = Stage::Create { size_bytes, hugepages: false, again: true };
                Ok(
                    Population {
                        source: self.source,
                        name: self.name,
                        use_hugepages: self.use_hugepages,
                        stage,
                    },
                )
            },
            _ => Err(MemfdError::CopyMapped { source: self.source, reason }),
        }
    }

    /// The error when the action named last failed for the given reason. A failure to create the
    /// anonymous file is reported by [`Population::created`], and one to map it by
    /// [`Population::map_failed`].
    pub fn failed(&self, reason: String) -> (error: MemfdError)
        requires
            self@.stage !is Create,
        ensures
            match self@.stage {
                Stage::Open => error matches MemfdError::Open { source, reason: r } && source@ == self@.source && r@
                    == reason@,
                Stage::Measure => error matches MemfdError::Measure { source, reason: r } && source@ == self@.source
                    && r@ == reason@,
                Stage::Create { .. } => false,
                Stage::Resize { alloc_size, .. } => error matches MemfdError::Resize { alloc_size: a, reason: r } && a
                    == alloc_size && r@ == reason@,
                Stage::Copy { hugepages, .. } => if hugepages {
                    error matches MemfdError::CopyMapped { source, reason: r } && source@ == self@.source && r@
                        == reason@
                } else {
                    error matches MemfdError::CopyStream { source, reason: r } && source@ == self@.source && r@
                        == reason@
                },
            },
    {
        let source = self.source.clone();
        match self.stage {
            Stage::Open => MemfdError::Open { source, reason },
            Stage::Measure => MemfdError::Measure { source, reason },
            Stage::Create { .. } => MemfdError::Create { reason },
            Stage::Resize { alloc_size, .. } => MemfdError::Resize { alloc_size, reason },
            Stage::Copy { hugepages, .. } => if hugepages {
                MemfdError::CopyMapped { source, reason }
            } else {
                MemfdError::CopyStream { source, reason }
            },
        }
    }
}

/// What is copied fits in the anonymous file, on whichever pages that is.
pub proof fn law_source_fits(p: Population)
    requires
        p.wf(),
    ensures
        p@.stage matches Stage::Copy { size_bytes, alloc_size, .. } ==> size_bytes <= alloc_size,
{
    match p@.stage {
        Stage::Copy { size_bytes, .. } => law_alignment_is_tight(size_bytes as int),
        _ => {},
    }
}

/// The least multiple of [`HUGE_PAGE_2MB`] that is not below `size`.
fn align_huge(size: u64) -> (aligned: u64)
    requires
        size + HUGE_PAGE_2MB - 1 <= u64::MAX,
    ensures
        aligned == huge_aligned(size as int),
{
    let up: u64 = size + (HUGE_PAGE_2MB - 1);
    assert(up & !2_097_151u64 == up / 2_097_152 * 2_097_152) by (bit_vector);
    up & !(HUGE_PAGE_2MB - 1)
}

impl MemfdError {
    /// The message for the user.
    pub open spec fn text(self) -> Seq<char> {
        match self {
            MemfdError::Open { source, reason } => "open memfd source "@ + source@ + ": "@ + reason@,
            MemfdError::Measure { source, reason } => "stat memfd source "@ + source@ + ": "@ + reason@,
            MemfdError::NulInName { position } =>
                "memfd name must not contain null bytes: nul byte found in provided data at position: "@
                + text::decimal(position as nat),
            MemfdError::Create { reason } => "memfd_create: "@ + reason@,
            MemfdError::CreateFallback { reason } => "memfd_create (fallback): "@ + reason@,
            MemfdError::Resize { alloc_size, reason } => "ftruncate memfd to "@ + text::decimal(alloc_size as nat)
                + " B: "@ + reason@,
            MemfdError::CopyMapped { source, reason } => "copy (mmap) "@ + source@ + " -> memfd: "@ + reason@,
            MemfdError::CopyStream { source, reason } => "copy "@ + source@ + " -> memfd: "@ + reason@,
            MemfdError::ShortCopy { source, size_bytes, copied } => "short copy: source "@ + source@ + " is "@
                + text::decimal(size_bytes as nat) + " B but copied "@ + text::decimal(copied as nat),
        }
    }

    /// The message for the user.
    pub fn message(&self) -> (m: String)
        ensures
            m@ == self.text(),
    {
        match self {
            MemfdError::Open { source, reason } => {
                let mut m = "open memfd source ".to_owned();
                m.append(source.as_str());
                m.append(": ");
                m.append(reason.as_str());
                m
            },
            MemfdError::Measure { source, reason } => {
                let mut m = "stat memfd source ".to_owned();
                m.append(source.as_str());
                m.append(": ");
                m.append(reason.as_str());
                m
            },
            MemfdError::NulInName { position } => {
                let mut m =
                    "memfd name must not contain null bytes: nul byte found in provided data at position: ".to_owned();
                text::push_decimal(&mut m, *position);
                m
            },
            MemfdError::Create { reason } => {
                let mut m = "memfd_create: ".to_owned();
                m.append(reason.as_str());
                m
            },
            MemfdError::CreateFallback { reason } => {
                let mut m = "memfd_create (fallback): ".to_owned();
                m.append(reason.as_str());
                m
            },
            MemfdError::Resize { alloc_size, reason } => {
                let mut m = "ftruncate memfd to ".to_owned();
                text::push_decimal(&mut m, *alloc_size);
                m.append(" B: ");
                m.append(reason.as_str());
                m
            },
            MemfdError::CopyMapped { source, reason } => {
                let mut m = "copy (mmap) ".to_owned();
                m.append(source.as_str());
                m.append(" -> memfd: ");
                m.append(reason.as_str());
                m
            },
            MemfdError::CopyStream { source, reason } => {
                let mut m = "copy ".to_owned();
                m.append(source.as_str());
                m.append(" -> memfd: ");
                m.append(reason.as_str());
                m
            },
            MemfdError::ShortCopy { source, size_bytes, copied } => {
                let mut m = "short copy: source ".to_owned();
                m.append(source.as_str());
                m.append(" is ");
                text::push_decimal(&mut m, *size_bytes);
                m.append(" B but copied ");
                text::push_decimal(&mut m, *copied);
                m
            },
        }
    }
}

/// Whether a file of `length` bytes is right for a source of `size` bytes: as long as the source on ordinary
/// pages, and on pages of two mebibytes the least multiple of these that holds it.
pub open spec fn is_length_for(length: int, size: int, hugepages: bool) -> bool {
    if hugepages {
        length % 0x20_0000 == 0 && size <= length < size + 0x20_0000
    } else {
        length == size
    }
}

/// Whether flags ask for an anonymous file that is closed on exec, and on request for pages of `2^21` bytes,
/// with this exponent from bit 26 on.
pub open spec fn asks_for(flags: u32, hugepages: bool) -> bool {
    &&& flags & 1 == 1
    &&& flags & 4 == (if hugepages { 4u32 } else { 0 })
    &&& flags >> 26 == (if hugepages { 21u32 } else { 0 })
    &&& flags & 0x3ff_fffa == 0
}

proof fn lemma_flags(flags: u32, hugepages: bool)
    requires
        flags == memfd_flags(hugepages),
    ensures
        asks_for(flags, hugepages),
{
    assert(1409286149u32 & 1 == 1 && 1409286149u32 & 4 == 4 && 1409286149u32 >> 26 == 21 && 1409286149u32 & 0x3ff_fffa
        == 0) by (bit_vector);
    assert(1u32 & 1 == 1 && 1u32 & 4 == 0 && 1u32 >> 26 == 0 && 1u32 & 0x3ff_fffa == 0) by (bit_vector);
}

proof fn lemma_length_for(length: int, size: int, hugepages: bool)
    requires
        length == alloc_size_for(size, hugepages),
    ensures
        is_length_for(length, size, hugepages),
{
    law_alignment_is_tight(size);
}

/// Whether `p` goes on as it must once the length of the source is known: a file is created on the pages
/// asked for, given the right length, and filled with the whole source, through mappings on huge pages and by
/// writing on others. The region is then as long as the source, and an error tells of any other outcome.
pub open spec fn fills_from(p: Population, source: Seq<char>, name: Seq<char>, size: u64, hugepages: bool) -> bool {
    &&& forall|a: MemfdAction| #[trigger]
        call_ensures(Population::next_action, (&p,), a) ==> (a matches MemfdAction::CreateMemfd { name: n, flags } && n@
            == name && asks_for(flags, hugepages))
    &&& forall|fd: i32, errno: i32, reason: String, r: Result<Population, MemfdError>|
        fd >= 0 && #[trigger] call_ensures(Population::created, (p, fd, errno, reason), r) ==> (r matches Ok(q)
            && is_resized_then_filled(q, source, fd as u32, size, hugepages))
}

/// Whether `p` is to give the file its length, and then to fill it.
pub open spec fn is_resized_then_filled(p: Population, source: Seq<char>, fd: u32, size: u64, hugepages: bool) -> bool {
    &&& forall|a: MemfdAction| #[trigger]
        call_ensures(Population::next_action, (&p,), a) ==> (a matches MemfdAction::SetLength { fd: f, length } && f == fd
            && is_length_for(length as int, size as int, hugepages))
    &&& forall|reason: String, e: MemfdError| #[trigger]
        call_ensures(Population::failed, (&p, reason), e) ==> (e matches MemfdError::Resize { alloc_size, reason: r }
            && is_length_for(alloc_size as int, size as int, hugepages) && r@ == reason@)
    &&& forall|q: Population| #[trigger] call_ensures(Population::resized, (p,), q) ==> is_filled(
        q,
        source,
        fd,
        size,
        hugepages,
    )
}

/// Whether `p` is to copy the source.
pub open spec fn is_filled(p: Population, source: Seq<char>, fd: u32, size: u64, hugepages: bool) -> bool {
    &&& forall|a: MemfdAction| #[trigger]
        call_ensures(Population::next_action, (&p,), a) ==> if hugepages {
            &&& a matches MemfdAction::CopyMapped { fd: f, size_bytes, alloc_size }
            &&& f == fd && size_bytes == size
            &&& is_length_for(alloc_size as int, size as int, true)
        } else {
            a matches MemfdAction::CopyStream { fd: f } && f == fd
        }
    &&& forall|copied: u64, done: Result<MemfdRegion, MemfdError>| #[trigger]
        call_ensures(Population::copied, (p, copied), done) ==> {
            &&& done is Ok <==> copied == size
            &&& done matches Ok(region) ==> region.spec_fd() == fd && region.spec_size_bytes() == size
            &&& done matches Err(e) ==> (e matches MemfdError::ShortCopy { source: s, size_bytes, copied: c } && s@
                == source && size_bytes == size && c == copied)
        }
    &&& forall|reason: String, e: MemfdError| #[trigger]
        call_ensures(Population::failed, (&p, reason), e) ==> if hugepages {
            e matches MemfdError::CopyMapped { source: s, reason: r } && s@ == source && r@ == reason@
        } else {
            e matches MemfdError::CopyStream { source: s, reason: r } && s@ == source && r@ == reason@
        }
}

proof fn lemma_fills_from(p: Population)
    requires
        p.wf(),
        p@.stage is Create,
    ensures
        p@.stage matches Stage::Create { size_bytes, hugepages, .. } && fills_from(
            p,
            p@.source,
            p@.name,
            size_bytes,
            hugepages,
        ),
{
    if let Stage::Create { size_bytes, hugepages, again } = p@.stage {
        assert forall|a: MemfdAction| #[trigger] call_ensures(Population::next_action, (&p,), a) implies (
        a matches MemfdAction::CreateMemfd { name: n, flags } && n@ == p@.name && asks_for(flags, hugepages)) by {
            if let MemfdAction::CreateMemfd { name, flags } = a {
                lemma_flags(flags, hugepages);
            }
        }
        assert forall|fd: i32, errno: i32, reason: String, r: Result<Population, MemfdError>|
            fd >= 0 && #[trigger] call_ensures(Population::created, (p, fd, errno, reason), r) implies (r matches Ok(q)
            && is_resized_then_filled(q, p@.source, fd as u32, size_bytes, hugepages)) by {
            if let Ok(q) = r {
                lemma_resized_then_filled(q);
            }
        }
    }
}

proof fn lemma_resized_then_filled(p: Population)
    requires
        p.wf(),
        p@.stage is Resize,
    ensures
        p@.stage matches Stage::Resize { fd, size_bytes, hugepages, .. } && is_resized_then_filled(
            p,
            p@.source,
            fd,
            size_bytes,
            hugepages,
        ),
{
    if let Stage::Resize { fd, size_bytes, hugepages, alloc_size } = p@.stage {
        lemma_length_for(alloc_size as int, size_bytes as int, hugepages);
        assert forall|q: Population| #[trigger] call_ensures(Population::resized, (p,), q) implies is_filled(
            q,
            p@.source,
            fd,
            size_bytes,
            hugepages,
        ) by {
            assert(q@.stage == Stage::Copy { fd, size_bytes, hugepages, alloc_size });
        }
    }
}

/// Filling a region opens the source, finds its length, and goes on from there on the pages asked for. A name
/// with a null byte in it is an error that tells the place of the first. It takes that on huge pages the
/// length of the file fits in 64 bits.
pub proof fn law_region_is_filled_from_its_source(
    source: &str,
    name: &str,
    use_hugepages: bool,
    size: u64,
    reason: String,
    p0: Population,
    p1: Population,
    a0: MemfdAction,
    a1: MemfdAction,
    e0: MemfdError,
    e1: MemfdError,
    measured: Result<Population, MemfdError>,
)
    requires
        use_hugepages ==> size + 0x20_0000 - 1 <= u64::MAX,
        call_ensures(create_and_populate, (source, name, use_hugepages), p0),
        call_ensures(Population::next_action, (&p0,), a0),
        call_ensures(Population::failed, (&p0, reason), e0),
        call_ensures(Population::opened, (p0,), p1),
        call_ensures(Population::next_action, (&p1,), a1),
        call_ensures(Population::failed, (&p1, reason), e1),
        call_ensures(Population::measured, (p1, size), measured),
    ensures
        a0 matches MemfdAction::OpenSource { path } && path@ == source@,
        e0 matches MemfdError::Open { source: s, reason: r } && s@ == source@ && r@ == reason@,
        a1 is MeasureSource,
        e1 matches MemfdError::Measure { source: s, reason: r } && s@ == source@ && r@ == reason@,
        ({
            let bytes = vstd::utf8::encode_utf8(name@);
            &&& measured is Ok <==> forall|i: int| 0 <= i < bytes.len() ==> #[trigger] bytes[i] != 0
            &&& measured matches Ok(p2) ==> fills_from(p2, source@, name@, size, use_hugepages)
            &&& measured matches Err(e) ==> {
                &&& e matches MemfdError::NulInName { position }
                &&& position < bytes.len()
                &&& bytes[position as int] == 0
                &&& forall|i: int| 0 <= i < position ==> #[trigger] bytes[i] != 0
            }
        }),
{
    let bytes = vstd::utf8::encode_utf8(name@);
    match measured {
        Ok(p2) => {
            assert forall|i: int| 0 <= i < bytes.len() implies #[trigger] bytes[i] != 0 by {
                if bytes[i] == 0 {
                    lemma_first_nul(name@, i);
                }
            }
            lemma_fills_from(p2);
        },
        Err(_) => {},
    }
}

proof fn lemma_first_nul(name: Seq<char>, i: int)
    requires
        0 <= i < vstd::utf8::encode_utf8(name).len(),
        vstd::utf8::encode_utf8(name)[i] == 0,
    ensures
        has_nul(name),
    decreases i,
{
    let bytes = vstd::utf8::encode_utf8(name);
    if exists|j: int| 0 <= j < i && bytes[j] == 0 {
        let j = choose|j: int| 0 <= j < i && bytes[j] == 0;
        lemma_first_nul(name, j);
    } else {
        assert(first_nul(name, i));
    }
}

/// Where huge pages run out, be that on creating the file or on mapping it, the same source goes to a file on
/// ordinary pages. Nothing else makes up for a failure: it is an error, which tells whether it came after
/// huge pages had run out.
pub proof fn law_ordinary_pages_serve_when_huge_ones_run_out(
    p: Population,
    fd: i32,
    errno: i32,
    reason: String,
    next: Result<Population, MemfdError>,
)
    requires
        p.wf(),
        p@.stage is Create,
        fd < 0,
        call_ensures(Population::created, (p, fd, errno, reason), next),
    ensures
        p@.stage matches Stage::Create { size_bytes, hugepages, again } && {
            &&& next is Ok <==> hugepages && errno == 12
            &&& next matches Ok(q) ==> q.wf() && fills_from(q, p@.source, p@.name, size_bytes, false) && is_second_try(q)
            &&& next matches Err(e) ==> if again {
                e matches MemfdError::CreateFallback { reason: r } && r@ == reason@
            } else {
                e matches MemfdError::Create { reason: r } && r@ == reason@
            }
        },
{
    if let Ok(q) = next {
        lemma_fills_from(q);
    }
}

/// Whether a failure to create the file is told as one after huge pages had run out.
pub open spec fn is_second_try(p: Population) -> bool {
    forall|fd: i32, errno: i32, reason: String, r: Result<Population, MemfdError>|
        fd < 0 && #[trigger] call_ensures(Population::created, (p, fd, errno, reason), r) ==> (r matches Err(
            MemfdError::CreateFallback { reason: t },
        ) && t@ == reason@)
}

/// A file on huge pages that cannot be mapped for want of them makes way for one on ordinary pages; that it
/// cannot be mapped for another reason is an error.
pub proof fn law_failed_mapping_falls_back(
    p: Population,
    errno: i32,
    reason: String,
    next: Result<Population, MemfdError>,
)
    requires
        p.wf(),
        p@.stage matches Stage::Copy { hugepages, .. } && hugepages,
        call_ensures(Population::map_failed, (p, errno, reason), next),
    ensures
        p@.stage matches Stage::Copy { size_bytes, .. } && {
            &&& next is Ok <==> errno == 12
            &&& next matches Ok(q) ==> q.wf() && fills_from(q, p@.source, p@.name, size_bytes, false) && is_second_try(q)
            &&& next matches Err(e) ==> (e matches MemfdError::CopyMapped { source, reason: r } && source@ == p@.source
                && r@ == reason@)
        },
{
    if let Ok(q) = next {
        lemma_fills_from(q);
    }
}

/// A region tells its length, and the path by which another process opens it: the directory of the process
/// that holds it, and the descriptor it has there.
pub proof fn law_region_is_told(region: &MemfdRegion, pid: u32, size: u64, path: String)
    requires
        call_ensures(MemfdRegion::size_bytes, (region,), size),
        call_ensures(MemfdRegion::backend_path, (region, pid), path),
    ensures
        size == region.spec_size_bytes(),
        exists|holder: Seq<char>, descriptor: Seq<char>|
            {
                &&& path@ == #[trigger] ("/proc/"@ + holder + "/fd/"@ + descriptor)
                &&& text::is_number(holder) && text::value_of(holder) == pid
                &&& text::is_number(descriptor) && text::value_of(descriptor) == region.spec_fd()
            },
{
    text::law_decimal_reads_back(pid as nat);
    text::law_decimal_reads_back(region.spec_fd());
    let holder = text::decimal(pid as nat);
    let descriptor = text::decimal(region.spec_fd());
    assert(path@ == "/proc/"@ + holder + "/fd/"@ + descriptor);
}

/// The message of an error tells all that the error holds.
pub proof fn law_memory_errors_name_what_failed(e: &MemfdError, m: String)
    requires
        call_ensures(MemfdError::message, (e,), m),
    ensures
        match *e {
            MemfdError::Open { source, reason } => {
                &&& text::mentions(m@, source@)
                &&& text::mentions(m@, reason@)
            },
            MemfdError::Measure { source, reason } => {
                &&& text::mentions(m@, source@)
                &&& text::mentions(m@, reason@)
            },
            MemfdError::NulInName { position } => text::mentions_number(m@, position as nat),
            MemfdError::Create { reason } => text::mentions(m@, reason@),
            MemfdError::CreateFallback { reason } => text::mentions(m@, reason@),
            MemfdError::Resize { alloc_size, reason } => {
                &&& text::mentions_number(m@, alloc_size as nat)
                &&& text::mentions(m@, reason@)
            },
            MemfdError::CopyMapped { source, reason } => {
                &&& text::mentions(m@, source@)
                &&& text::mentions(m@, reason@)
            },
            MemfdError::CopyStream { source, reason } => {
                &&& text::mentions(m@, source@)
                &&& text::mentions(m@, reason@)
            },
            MemfdError::ShortCopy { source, size_bytes, copied } => {
                &&& text::mentions(m@, source@)
                &&& text::mentions_number(m@, size_bytes as nat)
                &&& text::mentions_number(m@, copied as nat)
            },
        },
{
    match *e {
        MemfdError::Open { source, reason } => {
            text::lemma_mentions("open memfd source "@, source@, ": "@ + reason@, m@);
            text::lemma_mentions("open memfd source "@ + source@ + ": "@, reason@, Seq::<char>::empty(), m@);
        },
        MemfdError::Measure { source, reason } => {
            text::lemma_mentions("stat memfd source "@, source@, ": "@ + reason@, m@);
            text::lemma_mentions("stat memfd source "@ + source@ + ": "@, reason@, Seq::<char>::empty(), m@);
        },
        MemfdError::NulInName { position } => {
            text::lemma_mentions_number(
                "memfd name must not contain null bytes: nul byte found in provided data at position: "@,
                position as nat,
                Seq::<char>::empty(),
                m@,
            );
        },
        MemfdError::Create { reason } => {
            text::lemma_mentions("memfd_create: "@, reason@, Seq::<char>::empty(), m@);
        },
        MemfdError::CreateFallback { reason } => {
            text::lemma_mentions("memfd_create (fallback): "@, reason@, Seq::<char>::empty(), m@);
        },
        MemfdError::Resize { alloc_size, reason } => {
            text::lemma_mentions_number("ftruncate memfd to "@, alloc_size as nat, " B: "@ + reason@, m@);
            text::lemma_mentions(
                "ftruncate memfd to "@ + text::decimal(alloc_size as nat) + " B: "@,
                reason@,
                Seq::<char>::empty(),
                m@,
            );
        },
        MemfdError::CopyMapped { source, reason } => {
            text::lemma_mentions("copy (mmap) "@, source@, " -> memfd: "@ + reason@, m@);
            text::lemma_mentions("copy (mmap) "@ + source@ + " -> memfd: "@, reason@, Seq::<char>::empty(), m@);
        },
        MemfdError::CopyStream { source, reason } => {
            text::lemma_mentions("copy "@, source@, " -> memfd: "@ + reason@, m@);
            text::lemma_mentions("copy "@ + source@ + " -> memfd: "@, reason@, Seq::<char>::empty(), m@);
        },
        MemfdError::ShortCopy { source, size_bytes, copied } => {
            text::lemma_mentions(
                "short copy: source "@,
                source@,
                " is "@ + text::decimal(size_bytes as nat) + " B but copied "@ + text::decimal(copied as nat),
                m@,
            );
            text::lemma_mentions_number(
                "short copy: source "@ + source@ + " is "@,
                size_bytes as nat,
                " B but copied "@ + text::decimal(copied as nat),
                m@,
            );
            text::lemma_mentions_number(
                "short copy: source "@ + source@ + " is "@ + text::decimal(size_bytes as nat) + " B but copied "@,
                copied as nat,
                Seq::<char>::empty(),
                m@,
            );
        },
    }
}

} // verus!
