//! Putting the memory of a chain together: a copy of the base's memory, and each link's difference
//! laid over it in turn.

use crate::chain;
use crate::snapshot::Snapshot;
use crate::text;
use vstd::prelude::*;

verus! {

/// What to do next.
#[derive(Clone, Debug)]
pub enum AssembleAction {
    /// Create `dst` as a copy of `src`.
    CopyBase { src: String, dst: String },
    /// Write the data of the sparse file `src` to the same places of `dst`.
    ApplyDiff { src: String, dst: String },
    /// Nothing: `total` bytes have been copied.
    Done { total: u64 },
}

/// A step of an assembly.
pub enum Step {
    CopyBase { src: Seq<char>, dst: Seq<char> },
    ApplyDiff { src: Seq<char>, dst: Seq<char> },
}

/// Why a chain's memory could not be put together.
#[derive(Clone, Debug)]
pub enum AssembleError {
    /// The chain has no links.
    EmptyChain,
    /// There is a file at the output path.
    OutputExists { path: String },
    /// The base could not be copied.
    CopyFailed { base: String, src: String, dst: String, reason: String },
    /// A link could not be laid over the copy.
    ApplyFailed { link: String, src: String, dst: String, reason: String },
}

/// An assembly under way.
#[derive(Clone, Debug)]
pub struct Assembly {
    links: Vec<(String, String)>,
    out_path: String,
    taken: usize,
    total: u64,
}

/// What an [`Assembly`] stands for: tag and memory of each link, the output, how many steps have been
/// taken, and how many bytes they copied.
#[verifier::ext_equal]
pub struct AssemblyView {
    pub links: Seq<(Seq<char>, Seq<char>)>,
    pub out_path: Seq<char>,
    pub taken: nat,
    pub total: nat,
}

impl AssemblyView {
    /// The step that follows `taken` others.
    pub open spec fn step(self, taken: int) -> Step {
        if taken == 0 {
            Step::CopyBase { src: self.links[0].1, dst: self.out_path }
        } else {
            Step::ApplyDiff { src: self.links[taken].1, dst: self.out_path }
        }
    }

    /// All the steps, in order.
    pub open spec fn plan(self) -> Seq<Step> {
        Seq::new(self.links.len(), |i: int| self.step(i))
    }
}

/// Tag and memory of each link.
pub open spec fn memories(links: Seq<chain::Link>) -> Seq<(Seq<char>, Seq<char>)> {
    links.map_values(|l: chain::Link| (l.0, l.1.memory))
}

impl View for Assembly {
    type V = AssemblyView;

    closed spec fn view(&self) -> AssemblyView {
        AssemblyView {
            links: self.links@.map_values(|l: (String, String)| (l.0@, l.1@)),
            out_path: self.out_path@,
            taken: self.taken as nat,
            total: self.total as nat,
        }
    }
}

/// Begins to put the memory of `chain`, which comes base first, together in a new file at `out_path`.
///
/// The caller says whether there is a file at `out_path` already, takes the steps that
/// [`Assembly::next_action`] names, and owns the output.
pub fn assemble_chain_memory(chain: &[(String, Snapshot)], out_path: &str, out_exists: bool) -> (begun: Result<
    Assembly,
    AssembleError,
>)
    ensures
        match begun {
            Ok(assembly) => {
                &&& chain@.len() > 0
                &&& !out_exists
                &&& assembly.wf()
                &&& assembly@ == (AssemblyView {
                    links: memories(chain::links_of(chain@)),
                    out_path: out_path@,
                    taken: 0,
                    total: 0,
                })
            },
            Err(AssembleError::EmptyChain) => chain@.len() == 0,
            Err(AssembleError::OutputExists { path }) => chain@.len() > 0 && out_exists && path@ == out_path@,
            Err(_) => false,
        },
{
    if chain.len() == 0 {
        return Err(AssembleError::EmptyChain);
    }
    if out_exists {
        return Err(AssembleError::OutputExists { path: out_path.to_owned() });
    }
    let mut links: Vec<(String, String)> = Vec::new();
    let mut i: usize = 0;
    while i < chain.len()
        invariant
            i <= chain@.len(),
            links@.len() == i,
            forall|j: int|
                0 <= j < i ==> (#[trigger] links@[j]).0@ == chain@[j].0@ && links@[j].1@ == chain@[j].1.memory@,
        decreases chain@.len() - i,
    {
        links.push((chain[i].0.clone(), chain[i].1.memory.clone()));
        i = i + 1;
    }
    let assembly = Assembly { links, out_path: out_path.to_owned(), taken: 0, total: 0 };
    assert(assembly@.links =~= memories(chain::links_of(chain@)));
    Ok(assembly)
}

impl Assembly {
    /// There is a base, and no more steps have been taken than there are.
    pub open spec fn wf(&self) -> bool {
        self@.links.len() > 0 && self@.taken <= self@.links.len()
    }

    /// What to do next.
    pub fn next_action(&self) -> (action: AssembleAction)
        requires
            self.wf(),
        ensures
            match action {
                AssembleAction::CopyBase { src, dst } => {
                    &&& self@.taken < self@.links.len()
                    &&& self@.step(self@.taken as int) == (Step::CopyBase { src: src@, dst: dst@ })
                },
                AssembleAction::ApplyDiff { src, dst } => {
                    &&& self@.taken < self@.links.len()
                    &&& self@.step(self@.taken as int) == (Step::ApplyDiff { src: src@, dst: dst@ })
                },
                AssembleAction::Done { total } => self@.taken == self@.links.len() && total == self@.total,
            },
    {
        if self.taken == self.links.len() {
            AssembleAction::Done { total: self.total }
        } else {
            let src = self.links[self.taken].1.clone();
            let dst = self.out_path.clone();
            if self.taken == 0 {
                AssembleAction::CopyBase { src, dst }
            } else {
                AssembleAction::ApplyDiff { src, dst }
            }
        }
    }

    /// The action named last was taken, and copied `bytes` bytes.
    pub fn taken(&mut self, bytes: u64)
        requires
            old(self).wf(),
            old(self)@.taken < old(self)@.links.len(),
            old(self)@.total + bytes <= u64::MAX,
        ensures
            final(self).wf(),
            final(self)@ == (AssemblyView {
                taken: old(self)@.taken + 1,
                total: old(self)@.total + bytes as nat,
                ..old(self)@
            }),
    {
        let ghost before = self@;
        assert(self.taken < self.links.len());
        self.taken = self.taken + 1;
        self.total = self.total + bytes;
        assert(self@.links =~= before.links);
    }

    /// The error when the action named last failed for the given reason.
    pub fn failed(&self, reason: String) -> (error: AssembleError)
        requires
            self.wf(),
            self@.taken < self@.links.len(),
        ensures
            match error {
                AssembleError::CopyFailed { base, src, dst, reason: r } => {
                    &&& self@.taken == 0
                    &&& (base@, src@) == self@.links[0]
                    &&& dst@ == self@.out_path
                    &&& r@ == reason@
                },
                AssembleError::ApplyFailed { link, src, dst, reason: r } => {
                    &&& self@.taken > 0
                    &&& (link@, src@) == self@.links[self@.taken as int]
                    &&& dst@ == self@.out_path
                    &&& r@ == reason@
                },
                _ => false,
            },
    {
        let link = &self.links[self.taken];
        let tag = link.0.clone();
        let src = link.1.clone();
        let dst = self.out_path.clone();
        if self.taken == 0 {
            AssembleError::CopyFailed { base: tag, src, dst, reason }
        } else {
            AssembleError::ApplyFailed { link: tag, src, dst, reason }
        }
    }
}

impl AssembleError {
    /// The message for the user.
    pub open spec fn text(self) -> Seq<char> {
        match self {
            AssembleError::EmptyChain => "assemble_chain_memory: empty chain"@,
            AssembleError::OutputExists { path } => "assemble_chain_memory: out_path "@ + path@
                + " already exists — caller owns scratch lifetime"@,
            AssembleError::CopyFailed { base, src, dst, reason } => "copy base memory for chain (base=`"@ + base@
                + "`, src="@ + src@ + ", dst="@ + dst@ + "): "@ + reason@,
            AssembleError::ApplyFailed { link, src, dst, reason } => "apply chain link `"@ + link@ + "` ("@ + src@
                + ") onto "@ + dst@ + ": "@ + reason@,
        }
    }

    /// The message for the user.
    pub fn message(&self) -> (m: String)
        ensures
            m@ == self.text(),
    {
        match self {
            AssembleError::EmptyChain => "assemble_chain_memory: empty chain".to_owned(),
            AssembleError::OutputExists { path } => {
                let mut m = "assemble_chain_memory: out_path ".to_owned();
                m.append(path.as_str());
                m.append(" already exists — caller owns scratch lifetime");
                m
            },
            AssembleError::CopyFailed { base, src, dst, reason } => {
                let mut m = "copy base memory for chain (base=`".to_owned();
                m.append(base.as_str());
                m.append("`, src=");
                m.append(src.as_str());
                m.append(", dst=");
                m.append(dst.as_str());
                m.append("): ");
                m.append(reason.as_str());
                m
            },
            AssembleError::ApplyFailed { link, src, dst, reason } => {
                let mut m = "apply chain link `".to_owned();
                m.append(link.as_str());
                m.append("` (");
                m.append(src.as_str());
                m.append(") onto ");
                m.append(dst.as_str());
                m.append(": ");
                m.append(reason.as_str());
                m
            },
        }
    }
}

/// The bytes of a file, with `None` where it has a hole.
pub type Content = Seq<Option<u8>>;

/// The byte at a place, `None` where there is a hole or the file does not reach so far.
pub open spec fn data_at(content: Content, at: int) -> Option<u8> {
    if 0 <= at < content.len() {
        content[at]
    } else {
        None
    }
}

/// Where the data of a file ends: how long it is without the hole at its end.
pub open spec fn data_end(content: Content) -> nat
    decreases content.len(),
{
    if content.len() == 0 || content.last() is Some {
        content.len()
    } else {
        data_end(content.drop_last())
    }
}

/// `lower` with the data of `upper` written to the same places of it. It grows where `upper` has data
/// beyond its end.
pub open spec fn overlay(lower: Content, upper: Content) -> Content {
    let len = if data_end(upper) > lower.len() { data_end(upper) } else { lower.len() };
    Seq::new(len, |i: int| if data_at(upper, i) is Some { data_at(upper, i) } else { data_at(lower, i) })
}

proof fn lemma_data_ends(content: Content, at: int)
    requires
        data_at(content, at) is Some,
    ensures
        at < data_end(content),
    decreases content.len(),
{
    if content.last() is None {
        assert(data_at(content.drop_last(), at) == data_at(content, at));
        lemma_data_ends(content.drop_last(), at);
    }
}

/// At each place an overlay has what the upper file has there, or else what the lower has.
proof fn lemma_overlay(lower: Content, upper: Content, at: int)
    ensures
        data_at(overlay(lower, upper), at) == (if data_at(upper, at) is Some {
            data_at(upper, at)
        } else {
            data_at(lower, at)
        }),
{
    if data_at(upper, at) is Some {
        lemma_data_ends(upper, at);
    }
}

/// The files after a step, for files as they were before it.
pub open spec fn after_step(files: Map<Seq<char>, Content>, step: Step) -> Map<Seq<char>, Content> {
    match step {
        Step::CopyBase { src, dst } => files.insert(dst, files[src]),
        Step::ApplyDiff { src, dst } => files.insert(dst, overlay(files[dst], files[src])),
    }
}

/// The files after some steps.
pub open spec fn after_steps(files: Map<Seq<char>, Content>, steps: Seq<Step>) -> Map<Seq<char>, Content>
    decreases steps.len(),
{
    if steps.len() == 0 {
        files
    } else {
        after_step(after_steps(files, steps.drop_last()), steps.last())
    }
}

/// Whether the output at `at` holds what the topmost of the first `n` links with data there holds, or
/// what the base holds where no link has data.
pub open spec fn topmost_wins(files: Map<Seq<char>, Content>, links: Seq<(Seq<char>, Seq<char>)>, n: int, out: Content, at: int) -> bool {
    ||| exists|k: int|
        {
            &&& 1 <= k < n
            &&& #[trigger] data_at(files[links[k].1], at) is Some
            &&& data_at(out, at) == data_at(files[links[k].1], at)
            &&& forall|j: int| k < j < n ==> #[trigger] data_at(files[links[j].1], at) is None
        }
    ||| {
        &&& data_at(out, at) == data_at(files[links[0].1], at)
        &&& forall|j: int| 1 <= j < n ==> #[trigger] data_at(files[links[j].1], at) is None
    }
}

proof fn lemma_assembled(files: Map<Seq<char>, Content>, a: AssemblyView, n: int)
    requires
        1 <= n <= a.links.len(),
        forall|i: int| 0 <= i < a.links.len() ==> (#[trigger] a.links[i]).1 != a.out_path,
    ensures
        forall|path: Seq<char>| path != a.out_path ==> #[trigger] after_steps(files, a.plan().take(n))[path] == files[path],
        forall|at: int| #[trigger]
            topmost_wins(files, a.links, n, after_steps(files, a.plan().take(n))[a.out_path], at),
        (forall|i: int| 1 <= i < n ==> data_end(files[(#[trigger] a.links[i]).1]) <= files[a.links[0].1].len())
            ==> after_steps(files, a.plan().take(n))[a.out_path].len() == files[a.links[0].1].len(),
    decreases n,
{
    let steps = a.plan().take(n);
    assert(steps.drop_last() =~= a.plan().take(n - 1));
    assert(steps.last() == a.step(n - 1));
    let before = after_steps(files, a.plan().take(n - 1));
    let after = after_steps(files, steps);
    assert(after == after_step(before, a.step(n - 1)));
    let base = a.links[0];
    if n == 1 {
        assert(before == files);
        assert(after[a.out_path] == files[base.1]);
    } else {
        lemma_assembled(files, a, n - 1);
        let link = a.links[n - 1];
        let lower = before[a.out_path];
        let upper = files[link.1];
        assert(after[a.out_path] == overlay(lower, upper));
        if forall|i: int| 1 <= i < n ==> data_end(files[(#[trigger] a.links[i]).1]) <= files[base.1].len() {
            assert(data_end(files[a.links[n - 1].1]) <= files[base.1].len());
        }
        assert forall|at: int| #[trigger] topmost_wins(files, a.links, n, after[a.out_path], at) by {
            assert(topmost_wins(files, a.links, n - 1, lower, at));
            lemma_overlay(lower, upper, at);
            if data_at(upper, at) is Some {
                assert(data_at(files[a.links[n - 1].1], at) is Some);
            } else if exists|k: int|
                {
                    &&& 1 <= k < n - 1
                    &&& #[trigger] data_at(files[a.links[k].1], at) is Some
                    &&& data_at(lower, at) == data_at(files[a.links[k].1], at)
                    &&& forall|j: int| k < j < n - 1 ==> #[trigger] data_at(files[a.links[j].1], at) is None
                } {
                let k = choose|k: int|
                    {
                        &&& 1 <= k < n - 1
                        &&& #[trigger] data_at(files[a.links[k].1], at) is Some
                        &&& data_at(lower, at) == data_at(files[a.links[k].1], at)
                        &&& forall|j: int| k < j < n - 1 ==> #[trigger] data_at(files[a.links[j].1], at) is None
                    };
                assert(data_at(files[a.links[k].1], at) is Some);
                assert forall|j: int| k < j < n implies #[trigger] data_at(files[a.links[j].1], at) is None by {}
            }
        }
    }
}

/// Taking all the steps leaves in the output, at each place, what the topmost link with data there
/// holds, or what the base holds where no link has data, and leaves every other file as it was.
/// The output is as long as the base where no link has data beyond the base's end. It takes that no link's
/// memory is the output itself.
pub proof fn law_topmost_link_wins(files: Map<Seq<char>, Content>, a: AssemblyView)
    requires
        a.links.len() > 0,
        forall|i: int| 0 <= i < a.links.len() ==> (#[trigger] a.links[i]).1 != a.out_path,
    ensures
        forall|path: Seq<char>| path != a.out_path ==> #[trigger] after_steps(files, a.plan())[path] == files[path],
        forall|at: int| #[trigger]
            topmost_wins(files, a.links, a.links.len() as int, after_steps(files, a.plan())[a.out_path], at),
        (forall|i: int|
            1 <= i < a.links.len() ==> data_end(files[(#[trigger] a.links[i]).1]) <= files[a.links[0].1].len())
            ==> after_steps(files, a.plan())[a.out_path].len() == files[a.links[0].1].len(),
{
    assert(a.plan().take(a.links.len() as int) =~= a.plan());
    lemma_assembled(files, a, a.links.len() as int);
}

/// A base by itself is copied, and nothing else is done.
pub proof fn law_lone_base_is_copied(a: AssemblyView)
    requires
        a.links.len() == 1,
    ensures
        a.plan() == seq![Step::CopyBase { src: a.links[0].1, dst: a.out_path }],
{
    assert(a.plan() =~= seq![Step::CopyBase { src: a.links[0].1, dst: a.out_path }]);
}

/// The sum of some byte counts.
pub open spec fn sum(counts: Seq<nat>) -> nat
    decreases counts.len(),
{
    if counts.len() == 0 {
        0
    } else {
        sum(counts.drop_last()) + counts.last()
    }
}

/// The assembly after some steps that copied so many bytes each.
pub open spec fn after_counts(a: AssemblyView, counts: Seq<nat>) -> AssemblyView
    decreases counts.len(),
{
    if counts.len() == 0 {
        a
    } else {
        let before = after_counts(a, counts.drop_last());
        AssemblyView { taken: before.taken + 1, total: before.total + counts.last(), ..before }
    }
}

/// The total is what the base's copy and all the links together took.
pub proof fn law_total_is_sum(a: AssemblyView, counts: Seq<nat>)
    ensures
        after_counts(a, counts) == (AssemblyView {
            taken: a.taken + counts.len(),
            total: a.total + sum(counts),
            ..a
        }),
    decreases counts.len(),
{
    if counts.len() > 0 {
        law_total_is_sum(a, counts.drop_last());
    }
}

/// Putting a chain's memory together begins with as many steps as the chain has links, one for each in its
/// order: the first copies the base's memory to the output, and each other lays that link's memory over it.
/// It begins if and only if there is a link and no file at the output.
pub proof fn law_every_link_is_laid(
    chain: &[(String, Snapshot)],
    out_path: &str,
    out_exists: bool,
    begun: Result<Assembly, AssembleError>,
)
    requires
        call_ensures(assemble_chain_memory, (chain, out_path, out_exists), begun),
    ensures
        begun is Ok <==> chain@.len() > 0 && !out_exists,
        begun matches Err(e) ==> if chain@.len() == 0 {
            e is EmptyChain
        } else {
            e matches AssembleError::OutputExists { path } && path@ == out_path@
        },
        begun matches Ok(a) ==> {
            &&& a.wf()
            &&& a@.taken == 0 && a@.total == 0
            &&& a@.out_path == out_path@
            &&& a@.links.len() == chain@.len()
            &&& forall|i: int|
                0 <= i < chain@.len() ==> (#[trigger] a@.links[i]).0 == chain@[i].0@ && a@.links[i].1
                    == chain@[i].1.memory@
            &&& a@.plan().len() == chain@.len()
            &&& forall|i: int|
                0 <= i < chain@.len() ==> #[trigger] a@.plan()[i] == (if i == 0 {
                    Step::CopyBase { src: chain@[i].1.memory@, dst: out_path@ }
                } else {
                    Step::ApplyDiff { src: chain@[i].1.memory@, dst: out_path@ }
                })
        },
{
    if let Ok(a) = begun {
        let links = memories(chain::links_of(chain@));
        assert(a@.links == links);
        assert forall|i: int| 0 <= i < chain@.len() implies (#[trigger] a@.links[i]).0 == chain@[i].0@ && a@.links[i].1
            == chain@[i].1.memory@ by {
            assert(chain::links_of(chain@)[i] == (chain@[i].0@, chain@[i].1@));
        }
        assert forall|i: int| 0 <= i < chain@.len() implies #[trigger] a@.plan()[i] == (if i == 0 {
            Step::CopyBase { src: chain@[i].1.memory@, dst: out_path@ }
        } else {
            Step::ApplyDiff { src: chain@[i].1.memory@, dst: out_path@ }
        }) by {
            assert(a@.links[i].1 == chain@[i].1.memory@);
        }
    }
}

/// An action reads the memory of the link whose turn it is, and writes the output. There is one for each
/// link, a copy for the first and a difference for each other, and when all are taken the total is told.
pub proof fn law_action_is_for_the_next_link(a: &Assembly, action: AssembleAction)
    requires
        a.wf(),
        call_ensures(Assembly::next_action, (a,), action),
    ensures
        a@.taken < a@.links.len() ==> match action {
            AssembleAction::CopyBase { src, dst } => {
                &&& a@.taken == 0
                &&& src@ == a@.links[0].1
                &&& dst@ == a@.out_path
            },
            AssembleAction::ApplyDiff { src, dst } => {
                &&& a@.taken > 0
                &&& src@ == a@.links[a@.taken as int].1
                &&& dst@ == a@.out_path
            },
            AssembleAction::Done { .. } => false,
        },
        a@.taken >= a@.links.len() ==> (action matches AssembleAction::Done { total } && total == a@.total),
{
}

/// Taking a step moves on to the next link and adds what it copied. Links and output stay.
pub proof fn law_step_is_counted(a: &mut Assembly, bytes: u64)
    requires
        call_ensures(Assembly::taken, (a, bytes), ()),
    ensures
        final(a).wf(),
        final(a)@.taken == old(a)@.taken + 1,
        final(a)@.total == old(a)@.total + bytes,
        final(a)@.links == old(a)@.links,
        final(a)@.out_path == old(a)@.out_path,
{
}

/// An error names the link whose turn it was, its memory and the output.
pub proof fn law_failure_names_the_link(a: &Assembly, reason: String, error: AssembleError)
    requires
        a.wf(),
        a@.taken < a@.links.len(),
        call_ensures(Assembly::failed, (a, reason), error),
    ensures
        match error {
            AssembleError::CopyFailed { base, src, dst, reason: r } => {
                &&& a@.taken == 0
                &&& base@ == a@.links[0].0 && src@ == a@.links[0].1 && dst@ == a@.out_path && r@ == reason@
            },
            AssembleError::ApplyFailed { link, src, dst, reason: r } => {
                &&& a@.taken > 0
                &&& link@ == a@.links[a@.taken as int].0 && src@ == a@.links[a@.taken as int].1
                &&& dst@ == a@.out_path && r@ == reason@
            },
            _ => false,
        },
{
}

/// With all steps taken, the output holds at each place what the topmost link of the chain with data there
/// holds, be it the head or any other, and nothing where no link has data. It takes that no link's memory is
/// the output itself.
pub proof fn law_output_is_the_heads_memory(
    chain: &[(String, Snapshot)],
    out_path: &str,
    begun: Result<Assembly, AssembleError>,
    files: Map<Seq<char>, Content>,
    at: int,
)
    requires
        call_ensures(assemble_chain_memory, (chain, out_path, false), begun),
        chain@.len() > 0,
        forall|i: int| 0 <= i < chain@.len() ==> (#[trigger] chain@[i]).1.memory@ != out_path@,
    ensures
        begun is Ok,
        ({
            let out = after_steps(files, begun->Ok_0@.plan())[out_path@];
            &&& forall|k: int|
                {
                    &&& 0 <= k < chain@.len()
                    &&& data_at(files[(#[trigger] chain@[k]).1.memory@], at) is Some
                    &&& forall|j: int|
                        k < j < chain@.len() ==> data_at(files[(#[trigger] chain@[j]).1.memory@], at) is None
                } ==> data_at(out, at) == data_at(files[chain@[k].1.memory@], at)
            &&& (forall|j: int| 0 <= j < chain@.len() ==> data_at(files[(#[trigger] chain@[j]).1.memory@], at) is None)
                ==> data_at(out, at) is None
        }),
{
    law_every_link_is_laid(chain, out_path, false, begun);
    let a = begun->Ok_0@;
    let n = chain@.len() as int;
    let out = after_steps(files, a.plan())[out_path@];
    assert forall|i: int| 0 <= i < a.links.len() implies (#[trigger] a.links[i]).1 != a.out_path by {
        assert(chain@[i].1.memory@ != out_path@);
    }
    law_topmost_link_wins(files, a);
    assert(topmost_wins(files, a.links, n, out, at));
    assert forall|i: int| 0 <= i < n implies data_at(files[(#[trigger] chain@[i]).1.memory@], at) == data_at(
        files[a.links[i].1],
        at,
    ) by {}
    if exists|k: int|
        {
            &&& 1 <= k < n
            &&& #[trigger] data_at(files[a.links[k].1], at) is Some
            &&& data_at(out, at) == data_at(files[a.links[k].1], at)
            &&& forall|j: int| k < j < n ==> #[trigger] data_at(files[a.links[j].1], at) is None
        } {
        let top = choose|k: int|
            {
                &&& 1 <= k < n
                &&& #[trigger] data_at(files[a.links[k].1], at) is Some
                &&& data_at(out, at) == data_at(files[a.links[k].1], at)
                &&& forall|j: int| k < j < n ==> #[trigger] data_at(files[a.links[j].1], at) is None
            };
        assert(data_at(files[chain@[top].1.memory@], at) is Some);
        assert forall|k: int|
            {
                &&& 0 <= k < chain@.len()
                &&& data_at(files[(#[trigger] chain@[k]).1.memory@], at) is Some
                &&& forall|j: int| k < j < chain@.len() ==> data_at(files[(#[trigger] chain@[j]).1.memory@], at) is None
            } implies data_at(out, at) == data_at(files[chain@[k].1.memory@], at) by {
            assert(data_at(files[a.links[k].1], at) is Some);
            assert(k == top);
        }
    } else {
        assert forall|k: int|
            {
                &&& 0 <= k < chain@.len()
                &&& data_at(files[(#[trigger] chain@[k]).1.memory@], at) is Some
                &&& forall|j: int| k < j < chain@.len() ==> data_at(files[(#[trigger] chain@[j]).1.memory@], at) is None
            } implies data_at(out, at) == data_at(files[chain@[k].1.memory@], at) by {
            assert(data_at(files[a.links[k].1], at) is Some);
            assert(k == 0);
        }
        assert(data_at(files[chain@[0].1.memory@], at) == data_at(files[a.links[0].1], at));
    }
}

/// `EINVAL` of the `libc` crate is 22.
#[verifier::external_body]
fn einval() -> (code: i32)
    ensures
        code == 22,
{
    libc::EINVAL
}

/// `EXDEV` of the `libc` crate is 18.
#[verifier::external_body]
fn exdev() -> (code: i32)
    ensures
        code == 18,
{
    libc::EXDEV
}

/// `EOPNOTSUPP` of the `libc` crate is 95, on Linux for x86-64 and 64-bit ARM.
#[verifier::external_body]
fn eopnotsupp() -> (code: i32)
    ensures
        code == 95,
{
    libc::EOPNOTSUPP
}

/// `ENOTTY` of the `libc` crate is 25.
#[verifier::external_body]
fn enotty() -> (code: i32)
    ensures
        code == 25,
{
    libc::ENOTTY
}

/// What an attempt to clone the base's extents came to.
#[derive(Clone, Copy, PartialEq, Eq, Debug)]
pub enum CloneOutcome {
    /// The output shares the base's extents. Nothing is left to copy.
    Cloned,
    /// These two files cannot share extents. The bytes are to be copied.
    StreamCopy,
    /// A real failure.
    Failed,
}

/// Whether an error number says that two files cannot share extents: `EINVAL`, `EXDEV`, `EOPNOTSUPP`
/// or `ENOTTY`.
pub open spec fn is_unsupported(errno: int) -> bool {
    errno == 22 || errno == 18 || errno == 95 || errno == 25
}

/// What the `FICLONE` call came to, given what it returned and the error number after it.
pub fn clone_outcome(rc: i32, errno: i32) -> (outcome: CloneOutcome)
    ensures
        outcome == (if rc == 0 {
            CloneOutcome::Cloned
        } else if is_unsupported(errno as int) {
            CloneOutcome::StreamCopy
        } else {
            CloneOutcome::Failed
        }),
{
    if rc == 0 {
        CloneOutcome::Cloned
    } else if errno == einval() || errno == exdev() || errno == eopnotsupp() || errno == enotty() {
        CloneOutcome::StreamCopy
    } else {
        CloneOutcome::Failed
    }
}

/// A clone that succeeded leaves nothing to copy. One that failed leaves all of it, for the error numbers by
/// which a file system says that it cannot share these extents, and is a failure for any other.
pub proof fn law_clone_falls_back(rc: i32, errno: i32, outcome: CloneOutcome)
    requires
        call_ensures(clone_outcome, (rc, errno), outcome),
    ensures
        outcome is Cloned <==> rc == 0,
        outcome is StreamCopy <==> rc != 0 && set![18i32, 22, 25, 95].contains(errno),
{
}

/// The message of an error tells all that the error holds.
pub proof fn law_assembly_errors_name_what_failed(e: &AssembleError, m: String)
    requires
        call_ensures(AssembleError::message, (e,), m),
    ensures
        match *e {
            AssembleError::OutputExists { path } => text::mentions(m@, path@),
            AssembleError::CopyFailed { base, src, dst, reason } => {
                &&& text::mentions(m@, base@)
                &&& text::mentions(m@, src@)
                &&& text::mentions(m@, dst@)
                &&& text::mentions(m@, reason@)
            },
            AssembleError::ApplyFailed { link, src, dst, reason } => {
                &&& text::mentions(m@, link@)
                &&& text::mentions(m@, src@)
                &&& text::mentions(m@, dst@)
                &&& text::mentions(m@, reason@)
            },
            AssembleError::EmptyChain => true,
        },
{
    match *e {
        AssembleError::OutputExists { path } => {
            text::lemma_mentions(
                "assemble_chain_memory: out_path "@,
                path@,
                " already exists — caller owns scratch lifetime"@,
                m@,
            );
        },
        AssembleError::CopyFailed { base, src, dst, reason } => {
            text::lemma_mentions(
                "copy base memory for chain (base=`"@,
                base@,
                "`, src="@ + src@ + ", dst="@ + dst@ + "): "@ + reason@,
                m@,
            );
            text::lemma_mentions(
                "copy base memory for chain (base=`"@ + base@ + "`, src="@,
                src@,
                ", dst="@ + dst@ + "): "@ + reason@,
                m@,
            );
            text::lemma_mentions(
                "copy base memory for chain (base=`"@ + base@ + "`, src="@ + src@ + ", dst="@,
                dst@,
                "): "@ + reason@,
                m@,
            );
            text::lemma_mentions(
                "copy base memory for chain (base=`"@ + base@ + "`, src="@ + src@ + ", dst="@ + dst@ + "): "@,
                reason@,
                Seq::<char>::empty(),
                m@,
            );
        },
        AssembleError::ApplyFailed { link, src, dst, reason } => {
            text::lemma_mentions(
                "apply chain link `"@,
                link@,
                "` ("@ + src@ + ") onto "@ + dst@ + ": "@ + reason@,
                m@,
            );
            text::lemma_mentions(
                "apply chain link `"@ + link@ + "` ("@,
                src@,
                ") onto "@ + dst@ + ": "@ + reason@,
                m@,
            );
            text::lemma_mentions(
                "apply chain link `"@ + link@ + "` ("@ + src@ + ") onto "@,
                dst@,
                ": "@ + reason@,
                m@,
            );
            text::lemma_mentions(
                "apply chain link `"@ + link@ + "` ("@ + src@ + ") onto "@ + dst@ + ": "@,
                reason@,
                Seq::<char>::empty(),
                m@,
            );
        },
        AssembleError::EmptyChain => {},
    }
}

} // verus!
