//! Chains of difference snapshots: how a chain is found from its head, how each
//! link is held to its parent's content, and how the chain's memory is put
//! together.

use crate::snapshot::{copy_opt, Snapshot, SnapshotView};
use crate::sequence::reversed;
use crate::text;
use vstd::prelude::*;

verus! {

/// The most parent edges a chain may have.
pub const MAX_CHAIN_DEPTH: usize = 32;

/// A snapshot and the tag it goes by.
pub type Link = (Seq<char>, SnapshotView);

/// The links that a list of tagged snapshots holds.
pub open spec fn links_of(chain: Seq<(String, Snapshot)>) -> Seq<Link> {
    chain.map_values(|l: (String, Snapshot)| (l.0@, l.1@))
}

/// Whether `lookup` can find `snap` under `tag`.
pub open spec fn finds<F: Fn(&str) -> Result<Snapshot, String>>(lookup: F, tag: Seq<char>, snap: SnapshotView) -> bool {
    exists|t: &str, s: Snapshot|
        t@ == tag && s@ == snap && #[trigger] call_ensures(lookup, (t,), Ok::<Snapshot, String>(s))
}

/// Whether `lookup` can fail on `tag` for the given reason.
pub open spec fn misses<F: Fn(&str) -> Result<Snapshot, String>>(lookup: F, tag: Seq<char>, reason: Seq<char>) -> bool {
    exists|t: &str, e: String|
        t@ == tag && e@ == reason && #[trigger] call_ensures(lookup, (t,), Err::<Snapshot, String>(e))
}

/// Whether `tag` is the tag of a link of `walk`.
pub open spec fn has_tag(walk: Seq<Link>, tag: Seq<char>) -> bool {
    exists|i: int| 0 <= i < walk.len() && (#[trigger] walk[i]).0 == tag
}

/// The tag that comes after `walk`, on the way from `head` to the base.
pub open spec fn next_tag(head: Seq<char>, walk: Seq<Link>) -> Option<Seq<char>> {
    if walk.len() == 0 {
        Some(head)
    } else {
        walk.last().1.parent_tag
    }
}

/// Whether `walk` follows the parents from `head` on, each link found by
/// `lookup`, and visits no tag twice.
pub open spec fn is_walk<F: Fn(&str) -> Result<Snapshot, String>>(lookup: F, head: Seq<char>, walk: Seq<Link>) -> bool {
    &&& forall|i: int| 0 <= i < walk.len() ==> finds(lookup, (#[trigger] walk[i]).0, walk[i].1)
    &&& forall|i: int|
        0 <= i < walk.len() ==> next_tag(head, walk.take(i)) == Some((#[trigger] walk[i]).0)
    &&& forall|i: int, j: int|
        0 <= i < j < walk.len() ==> (#[trigger] walk[i]).0 != (#[trigger] walk[j]).0
}

/// Why a chain could not be resolved.
#[derive(Clone, Debug)]
pub enum ChainError {
    /// The parents lead back to `tag`.
    Cycle { tag: String },
    /// `tag`, which `dependent` needs, was not found.
    Unresolved { tag: String, dependent: String, reason: String },
    /// More than [`MAX_CHAIN_DEPTH`] parents lie between `head` and its base.
    TooDeep { head: String },
}

/// Whether `walk`, as far as it goes, makes `outcome` the result of resolving the chain of `head`.
pub open spec fn explains<F: Fn(&str) -> Result<Snapshot, String>>(
    lookup: F,
    head: Seq<char>,
    walk: Seq<Link>,
    outcome: Result<Vec<(String, Snapshot)>, ChainError>,
) -> bool {
    match outcome {
        Ok(chain) => {
            &&& walk == links_of(chain@).reverse()
            &&& 1 <= walk.len() <= MAX_CHAIN_DEPTH + 1
            &&& next_tag(head, walk) is None
        },
        Err(ChainError::Cycle { tag }) => {
            &&& walk.len() <= MAX_CHAIN_DEPTH
            &&& next_tag(head, walk) == Some(tag@)
            &&& has_tag(walk, tag@)
        },
        Err(ChainError::Unresolved { tag, dependent, reason }) => {
            &&& walk.len() <= MAX_CHAIN_DEPTH
            &&& next_tag(head, walk) == Some(tag@)
            &&& !has_tag(walk, tag@)
            &&& misses(lookup, tag@, reason@)
            &&& dependent@ == (if walk.len() == 0 { head } else { walk.last().0 })
        },
        Err(ChainError::TooDeep { head: h }) => {
            &&& h@ == head
            &&& walk.len() == MAX_CHAIN_DEPTH + 1
            &&& next_tag(head, walk) is Some
        },
    }
}

/// What resolving the chain of `head` comes to, given what `lookup` answers.
pub open spec fn is_resolution<F: Fn(&str) -> Result<Snapshot, String>>(
    lookup: F,
    head: Seq<char>,
    outcome: Result<Vec<(String, Snapshot)>, ChainError>,
) -> bool {
    exists|walk: Seq<Link>| is_walk(lookup, head, walk) && #[trigger] explains(lookup, head, walk, outcome)
}

/// Whether a link of `chain` goes by `tag`.
fn contains_tag(chain: &Vec<(String, Snapshot)>, tag: &str) -> (found: bool)
    ensures
        found == has_tag(links_of(chain@), tag@),
{
    let mut i: usize = 0;
    while i < chain.len()
        invariant
            i <= chain@.len(),
            forall|j: int| 0 <= j < i ==> (#[trigger] links_of(chain@)[j]).0 != tag@,
        decreases chain@.len() - i,
    {
        assert(links_of(chain@)[i as int].0 == chain@[i as int].0@);
        if text::same_text(chain[i].0.as_str(), tag) {
            return true;
        }
        i = i + 1;
    }
    false
}

/// Follows the parents from `head_tag` to the base, and gives the chain from the
/// base to the head.
///
/// `lookup` finds the snapshot that a tag names, or says why it cannot.
pub fn resolve_chain<F>(head_tag: &str, lookup: F) -> (outcome: Result<Vec<(String, Snapshot)>, ChainError>)
where
    F: Fn(&str) -> Result<Snapshot, String>,
    requires
        forall|t: &str| call_requires(lookup, (t,)),
    ensures
        is_resolution(lookup, head_tag@, outcome),
{
    let mut chain: Vec<(String, Snapshot)> = Vec::new();
    let mut current = head_tag.to_owned();
    let ghost head = head_tag@;
    while chain.len() <= MAX_CHAIN_DEPTH
        invariant
            head == head_tag@,
            forall|t: &str| call_requires(lookup, (t,)),
            chain@.len() <= MAX_CHAIN_DEPTH + 1,
            is_walk(lookup, head, links_of(chain@)),
            next_tag(head, links_of(chain@)) == Some(current@),
        decreases MAX_CHAIN_DEPTH + 1 - chain@.len(),
    {
        let ghost walk = links_of(chain@);
        if contains_tag(&chain, current.as_str()) {
            let outcome = Err(ChainError::Cycle { tag: current });
            assert(explains(lookup, head, walk, outcome));
            return outcome;
        }
        let answer = lookup(current.as_str());
        match answer {
            Err(reason) => {
                let dependent = if chain.len() == 0 {
                    head_tag.to_owned()
                } else {
                    chain[chain.len() - 1].0.clone()
                };
                assert(misses(lookup, current@, reason@));
                let outcome = Err(ChainError::Unresolved { tag: current, dependent, reason });
                assert(explains(lookup, head, walk, outcome));
                return outcome;
            },
            Ok(snap) => {
                let next_parent = copy_opt(&snap.parent_tag);
                assert(finds(lookup, current@, snap@));
                let ghost link = (current@, snap@);
                chain.push((current, snap));
                proof {
                    let longer = links_of(chain@);
                    assert(longer =~= walk.push(link));
                    assert forall|i: int| 0 <= i < longer.len() implies next_tag(head, longer.take(i)) == Some(
                        (#[trigger] longer[i]).0,
                    ) by {
                        assert(longer.take(i) =~= walk.take(i));
                        if i == walk.len() {
                            assert(walk.take(i) =~= walk);
                        } else {
                            assert(longer[i] == walk[i]);
                        }
                    }
                    assert forall|i: int, j: int| 0 <= i < j < longer.len() implies (#[trigger] longer[i]).0 != (
                    #[trigger] longer[j]).0 by {
                        assert(longer[i] == walk[i]);
                        if j < walk.len() {
                            assert(longer[j] == walk[j]);
                        }
                    }
                    assert forall|i: int| 0 <= i < longer.len() implies finds(lookup, (#[trigger] longer[i]).0, longer[i].1) by {
                        if i < walk.len() {
                            assert(longer[i] == walk[i]);
                        }
                    }
                }
                match next_parent {
                    Some(parent) => {
                        current = parent;
                    },
                    None => {
                        let ghost walked = links_of(chain@);
                        let base_first = reversed(chain);
                        assert(links_of(base_first@).reverse() =~= walked);
                        let outcome = Ok(base_first);
                        assert(explains(lookup, head, walked, outcome));
                        return outcome;
                    },
                }
            },
        }
    }
    let outcome = Err(ChainError::TooDeep { head: head_tag.to_owned() });
    assert(explains(lookup, head, links_of(chain@), outcome));
    outcome
}

/// Whether `lookup` gives the same answer whenever it is asked for the same tag.
pub open spec fn is_consistent<F: Fn(&str) -> Result<Snapshot, String>>(lookup: F) -> bool {
    &&& forall|tag: Seq<char>, a: SnapshotView, b: SnapshotView|
        #[trigger] finds(lookup, tag, a) && #[trigger] finds(lookup, tag, b) ==> a == b
    &&& forall|tag: Seq<char>, a: Seq<char>, b: Seq<char>|
        #[trigger] misses(lookup, tag, a) && #[trigger] misses(lookup, tag, b) ==> a == b
    &&& forall|tag: Seq<char>, a: SnapshotView, b: Seq<char>|
        !(#[trigger] finds(lookup, tag, a) && #[trigger] misses(lookup, tag, b))
}

/// Whether two outcomes say the same.
pub open spec fn same_outcome(
    a: Result<Vec<(String, Snapshot)>, ChainError>,
    b: Result<Vec<(String, Snapshot)>, ChainError>,
) -> bool {
    match (a, b) {
        (Ok(x), Ok(y)) => links_of(x@) == links_of(y@),
        (Err(ChainError::Cycle { tag: x }), Err(ChainError::Cycle { tag: y })) => x@ == y@,
        (
            Err(ChainError::Unresolved { tag: x, dependent: xd, reason: xr }),
            Err(ChainError::Unresolved { tag: y, dependent: yd, reason: yr }),
        ) => x@ == y@ && xd@ == yd@ && xr@ == yr@,
        (Err(ChainError::TooDeep { head: x }), Err(ChainError::TooDeep { head: y })) => x@ == y@,
        _ => false,
    }
}

/// Of two walks from one head, the shorter is the beginning of the longer.
proof fn lemma_walks_agree<F: Fn(&str) -> Result<Snapshot, String>>(lookup: F, head: Seq<char>, a: Seq<Link>, b: Seq<Link>)
    requires
        is_consistent(lookup),
        is_walk(lookup, head, a),
        is_walk(lookup, head, b),
        a.len() <= b.len(),
    ensures
        a == b.take(a.len() as int),
    decreases a.len(),
{
    if a.len() > 0 {
        let n = a.len() - 1;
        let shorter = a.drop_last();
        assert forall|i: int| 0 <= i < shorter.len() implies next_tag(head, shorter.take(i)) == Some(
            (#[trigger] shorter[i]).0,
        ) by {
            assert(shorter.take(i) =~= a.take(i));
            assert(shorter[i] == a[i]);
        }
        assert forall|i: int| 0 <= i < shorter.len() implies finds(lookup, (#[trigger] shorter[i]).0, shorter[i].1) by {
            assert(shorter[i] == a[i]);
        }
        assert forall|i: int, j: int| 0 <= i < j < shorter.len() implies (#[trigger] shorter[i]).0 != (
        #[trigger] shorter[j]).0 by {
            assert(shorter[i] == a[i]);
            assert(shorter[j] == a[j]);
        }
        lemma_walks_agree(lookup, head, shorter, b);
        assert(a.take(n) =~= shorter);
        assert(b.take(n) =~= shorter);
        assert(next_tag(head, a.take(n)) == Some(a[n].0));
        assert(next_tag(head, b.take(n)) == Some(b[n].0));
        assert(finds(lookup, a[n].0, a[n].1));
        assert(finds(lookup, b[n].0, b[n].1));
        assert(a =~= b.take(a.len() as int));
    } else {
        assert(a =~= b.take(0));
    }
}

/// A walk that is longer than `walk` goes on with a tag that `walk` asks for next, has not visited,
/// and that was found.
proof fn lemma_longer_walk<F: Fn(&str) -> Result<Snapshot, String>>(lookup: F, head: Seq<char>, walk: Seq<Link>, longer: Seq<Link>)
    requires
        is_consistent(lookup),
        is_walk(lookup, head, walk),
        is_walk(lookup, head, longer),
        walk.len() < longer.len(),
    ensures
        next_tag(head, walk) == Some(longer[walk.len() as int].0),
        !has_tag(walk, longer[walk.len() as int].0),
        finds(lookup, longer[walk.len() as int].0, longer[walk.len() as int].1),
{
    lemma_walks_agree(lookup, head, walk, longer);
    let n = walk.len() as int;
    assert forall|i: int| 0 <= i < walk.len() implies (#[trigger] walk[i]).0 != longer[n].0 by {
        assert(walk[i] == longer[i]);
    }
}

/// With a lookup that always gives the same answer, a head has one resolution only.
pub proof fn law_resolution_is_unique<F: Fn(&str) -> Result<Snapshot, String>>(
    lookup: F,
    head: Seq<char>,
    a: Result<Vec<(String, Snapshot)>, ChainError>,
    b: Result<Vec<(String, Snapshot)>, ChainError>,
)
    requires
        is_consistent(lookup),
        is_resolution(lookup, head, a),
        is_resolution(lookup, head, b),
    ensures
        same_outcome(a, b),
{
    let v = choose|walk: Seq<Link>| is_walk(lookup, head, walk) && #[trigger] explains(lookup, head, walk, a);
    let w = choose|walk: Seq<Link>| is_walk(lookup, head, walk) && #[trigger] explains(lookup, head, walk, b);
    if v.len() < w.len() {
        lemma_longer_walk(lookup, head, v, w);
    } else if w.len() < v.len() {
        lemma_longer_walk(lookup, head, w, v);
    } else {
        lemma_walks_agree(lookup, head, v, w);
        assert(v =~= w);
        if a is Ok && b is Ok {
            let x = links_of(a->Ok_0@);
            let y = links_of(b->Ok_0@);
            assert(x =~= v.reverse());
            assert(y =~= w.reverse());
        }
    }
}

/// A resolved chain starts with a base, which has no parent, ends with the head, and names in each
/// link the one before it as its parent. It has no tag twice.
pub proof fn law_chain_is_base_first<F: Fn(&str) -> Result<Snapshot, String>>(
    lookup: F,
    head: Seq<char>,
    chain: Vec<(String, Snapshot)>,
)
    requires
        is_resolution(lookup, head, Ok(chain)),
    ensures
        links_of(chain@).first().1.parent_tag is None,
        links_of(chain@).last().0 == head,
        forall|i: int|
            0 < i < chain@.len() ==> (#[trigger] links_of(chain@)[i]).1.parent_tag == Some(links_of(chain@)[i - 1].0),
        forall|i: int, j: int|
            0 <= i < j < chain@.len() ==> (#[trigger] links_of(chain@)[i]).0 != (#[trigger] links_of(chain@)[j]).0,
{
    let links = links_of(chain@);
    let walk = links.reverse();
    let n = walk.len();
    assert(walk[0] == links.last());
    assert(walk.last() == links.first());
    assert(next_tag(head, walk.take(0)) == Some(walk[0].0));
    assert forall|i: int| 0 < i < n implies (#[trigger] links[i]).1.parent_tag == Some(links[i - 1].0) by {
        let k = n - i;
        assert(next_tag(head, walk.take(k)) == Some(walk[k].0));
        assert(walk.take(k).last() == walk[k - 1]);
        assert(walk[k - 1] == links[i]);
        assert(walk[k] == links[i - 1]);
    }
    assert forall|i: int, j: int| 0 <= i < j < n implies (#[trigger] links[i]).0 != (#[trigger] links[j]).0 by {
        assert(walk[n - 1 - i] == links[i]);
        assert(walk[n - 1 - j] == links[j]);
    }
}

/// A chain that closes on itself is refused whatever else it holds: when the walk comes back to a tag
/// within [`MAX_CHAIN_DEPTH`] links, the outcome is the cycle through that tag.
pub proof fn law_cycle_is_refused<F: Fn(&str) -> Result<Snapshot, String>>(
    lookup: F,
    head: Seq<char>,
    walk: Seq<Link>,
    outcome: Result<Vec<(String, Snapshot)>, ChainError>,
)
    requires
        is_consistent(lookup),
        is_resolution(lookup, head, outcome),
        is_walk(lookup, head, walk),
        walk.len() <= MAX_CHAIN_DEPTH,
        next_tag(head, walk) is Some,
        has_tag(walk, next_tag(head, walk)->0),
    ensures
        outcome matches Err(ChainError::Cycle { tag }) && tag@ == next_tag(head, walk)->0,
{
    let w = choose|walk: Seq<Link>| is_walk(lookup, head, walk) && #[trigger] explains(lookup, head, walk, outcome);
    if walk.len() < w.len() {
        lemma_longer_walk(lookup, head, walk, w);
    } else if w.len() < walk.len() {
        lemma_longer_walk(lookup, head, w, walk);
    } else {
        lemma_walks_agree(lookup, head, walk, w);
        assert(walk =~= w);
    }
}

impl ChainError {
    /// The message for the user.
    pub open spec fn text(self) -> Seq<char> {
        match self {
            ChainError::Cycle { tag } => "snapshot chain has a cycle: `"@ + tag@
                + "` is reachable from itself via parent_tag"@,
            ChainError::Unresolved { tag, dependent, reason } => "resolve chain link `"@ + tag@ + "` (parent of `"@
                + dependent@ + "`): "@ + reason@,
            ChainError::TooDeep { head } => "snapshot chain for `"@ + head@
                + "` exceeds MAX_CHAIN_DEPTH=32 — use `forkd snapshot compact` to flatten"@,
        }
    }

    /// The message for the user.
    pub fn message(&self) -> (m: String)
        ensures
            m@ == self.text(),
    {
        match self {
            ChainError::Cycle { tag } => {
                let mut m = "snapshot chain has a cycle: `".to_owned();
                m.append(tag.as_str());
                m.append("` is reachable from itself via parent_tag");
                m
            },
            ChainError::Unresolved { tag, dependent, reason } => {
                let mut m = "resolve chain link `".to_owned();
                m.append(tag.as_str());
                m.append("` (parent of `");
                m.append(dependent.as_str());
                m.append("`): ");
                m.append(reason.as_str());
                m
            },
            ChainError::TooDeep { head } => {
                let mut m = "snapshot chain for `".to_owned();
                m.append(head.as_str());
                m.append("` exceeds MAX_CHAIN_DEPTH=32 — use `forkd snapshot compact` to flatten");
                m
            },
        }
    }
}

/// Whether `hash` can give `digest` for the file at `path`.
pub open spec fn hashes_to<H: Fn(&str) -> Result<String, String>>(hash: H, path: Seq<char>, digest: Seq<char>) -> bool {
    exists|p: &str, d: String|
        p@ == path && d@ == digest && #[trigger] call_ensures(hash, (p,), Ok::<String, String>(d))
}

/// Whether `hash` can fail on the file at `path` for the given reason.
pub open spec fn fails_to_hash<H: Fn(&str) -> Result<String, String>>(
    hash: H,
    path: Seq<char>,
    reason: Seq<char>,
) -> bool {
    exists|p: &str, e: String|
        p@ == path && e@ == reason && #[trigger] call_ensures(hash, (p,), Err::<String, String>(e))
}

/// Whether link `i` of a chain, `i` not the base, still has the parent it was taken from.
pub open spec fn is_pinned<H: Fn(&str) -> Result<String, String>>(hash: H, links: Seq<Link>, i: int) -> bool {
    &&& links[i].1.parent_content_hash is Some
    &&& hashes_to(hash, links[i - 1].1.memory, links[i].1.parent_content_hash->0)
}

/// Why a link could not be shown to have the parent it was taken from.
#[derive(Clone, Debug)]
pub enum ParentHashError {
    /// `child` does not say what its parent held.
    Unpinned { child: String, parent: String },
    /// The memory of `parent` could not be hashed.
    Unreadable { parent: String, memory: String, reason: String },
    /// The memory of `parent` is not what it was when `child` was taken.
    Mismatch { child: String, parent: String, recorded: String, actual: String },
}

/// Whether link `i` is the reason for `error`.
pub open spec fn is_broken<H: Fn(&str) -> Result<String, String>>(
    hash: H,
    links: Seq<Link>,
    i: int,
    error: ParentHashError,
) -> bool {
    match error {
        ParentHashError::Unpinned { child, parent } => {
            &&& links[i].1.parent_content_hash is None
            &&& child@ == links[i].0
            &&& parent@ == links[i - 1].0
        },
        ParentHashError::Unreadable { parent, memory, reason } => {
            &&& links[i].1.parent_content_hash is Some
            &&& parent@ == links[i - 1].0
            &&& memory@ == links[i - 1].1.memory
            &&& fails_to_hash(hash, links[i - 1].1.memory, reason@)
        },
        ParentHashError::Mismatch { child, parent, recorded, actual } => {
            &&& links[i].1.parent_content_hash == Some(recorded@)
            &&& child@ == links[i].0
            &&& parent@ == links[i - 1].0
            &&& hashes_to(hash, links[i - 1].1.memory, actual@)
            &&& actual@ != recorded@
        },
    }
}

/// Whether each of the first `n` links, the base aside, still has the parent it was taken from.
pub open spec fn are_pinned<H: Fn(&str) -> Result<String, String>>(hash: H, links: Seq<Link>, n: int) -> bool {
    forall|i: int| 1 <= i < n ==> #[trigger] is_pinned(hash, links, i)
}

/// Checks that each link's `parent_content_hash` is the hash of its parent's memory now.
///
/// `chain` comes base first. The base has no parent and nothing to check. `sha256_file` gives the
/// hash of a file, or says why it cannot.
pub fn verify_parent_hashes<H>(chain: &[(String, Snapshot)], sha256_file: H) -> (checked: Result<(), ParentHashError>)
where
    H: Fn(&str) -> Result<String, String>,
    requires
        forall|p: &str| call_requires(sha256_file, (p,)),
    ensures
        match checked {
            Ok(_) => are_pinned(sha256_file, links_of(chain@), chain@.len() as int),
            Err(error) => exists|i: int|
                {
                    &&& 1 <= i < chain@.len()
                    &&& #[trigger] is_broken(sha256_file, links_of(chain@), i, error)
                    &&& are_pinned(sha256_file, links_of(chain@), i)
                },
        },
{
    let ghost links = links_of(chain@);
    let mut i: usize = 1;
    while i < chain.len()
        invariant
            1 <= i,
            chain@.len() > 0 ==> i <= chain@.len(),
            links == links_of(chain@),
            forall|p: &str| call_requires(sha256_file, (p,)),
            forall|j: int| 1 <= j < i ==> #[trigger] is_pinned(sha256_file, links, j),
        decreases chain@.len() - i,
    {
        let parent = &chain[i - 1];
        let child = &chain[i];
        assert(links[i as int] == (child.0@, child.1@));
        assert(links[i - 1] == (parent.0@, parent.1@));
        let recorded = match &child.1.parent_content_hash {
            Some(h) => h.clone(),
            None => {
                let error = ParentHashError::Unpinned { child: child.0.clone(), parent: parent.0.clone() };
                assert(is_broken(sha256_file, links, i as int, error));
                return Err(error);
            },
        };
        let answer = sha256_file(parent.1.memory.as_str());
        let actual = match answer {
            Ok(h) => h,
            Err(reason) => {
                assert(fails_to_hash(sha256_file, parent.1.memory@, reason@));
                let error = ParentHashError::Unreadable {
                    parent: parent.0.clone(),
                    memory: parent.1.memory.clone(),
                    reason,
                };
                assert(is_broken(sha256_file, links, i as int, error));
                return Err(error);
            },
        };
        assert(hashes_to(sha256_file, parent.1.memory@, actual@));
        if !text::same_text(actual.as_str(), recorded.as_str()) {
            let error = ParentHashError::Mismatch {
                child: child.0.clone(),
                parent: parent.0.clone(),
                recorded,
                actual,
            };
            assert(is_broken(sha256_file, links, i as int, error));
            return Err(error);
        }
        assert(is_pinned(sha256_file, links, i as int));
        i = i + 1;
    }
    Ok(())
}

/// Where hashing a file always gives the same result, a chain is accepted if and only if each link
/// records the hash of its parent's memory.
pub proof fn law_chain_is_accepted_iff_pinned<H: Fn(&str) -> Result<String, String>>(
    hash: H,
    digest_of: Map<Seq<char>, Seq<char>>,
    links: Seq<Link>,
    checked: Result<(), ParentHashError>,
)
    requires
        forall|path: Seq<char>, digest: Seq<char>| #[trigger]
            hashes_to(hash, path, digest) ==> digest_of.contains_key(path) && digest == digest_of[path],
        forall|path: Seq<char>, reason: Seq<char>| #[trigger]
            fails_to_hash(hash, path, reason) ==> !digest_of.contains_key(path),
        match checked {
            Ok(_) => forall|i: int| 1 <= i < links.len() ==> #[trigger] is_pinned(hash, links, i),
            Err(error) => exists|i: int|
                {
                    &&& 1 <= i < links.len()
                    &&& #[trigger] is_broken(hash, links, i, error)
                    &&& forall|j: int| 1 <= j < i ==> #[trigger] is_pinned(hash, links, j)
                },
        },
    ensures
        checked is Ok <==> forall|i: int|
            1 <= i < links.len() ==> {
                &&& digest_of.contains_key(links[i - 1].1.memory)
                &&& (#[trigger] links[i]).1.parent_content_hash == Some(digest_of[links[i - 1].1.memory])
            },
{
    match checked {
        Ok(_) => {
            assert forall|i: int| 1 <= i < links.len() implies {
                &&& digest_of.contains_key(links[i - 1].1.memory)
                &&& (#[trigger] links[i]).1.parent_content_hash == Some(digest_of[links[i - 1].1.memory])
            } by {
                assert(is_pinned(hash, links, i));
            }
        },
        Err(error) => {
            let i = choose|i: int|
                {
                    &&& 1 <= i < links.len()
                    &&& #[trigger] is_broken(hash, links, i, error)
                    &&& forall|j: int| 1 <= j < i ==> #[trigger] is_pinned(hash, links, j)
                };
            let link = links[i];
        },
    }
}

impl ParentHashError {
    /// The message for the user.
    pub open spec fn text(self) -> Seq<char> {
        match self {
            ParentHashError::Unpinned { child, parent } => "chained snapshot `"@ + child@ + "` has parent_tag=`"@
                + parent@
                + "` but no parent_content_hash; rebuild this snapshot — chains created before v0.5 GA aren't supported"@,
            ParentHashError::Unreadable { parent, memory, reason } =>
                "hash parent memory for chain verification: `"@ + parent@ + "` at "@ + memory@ + ": "@ + reason@,
            ParentHashError::Mismatch { child, parent, recorded, actual } => "chain `"@ + child@
                + "` references parent `"@ + parent@ + "` with content `"@ + text::prefix_within(recorded@, 12)
                + "…`, but parent now has content `"@ + text::prefix_within(actual@, 12)
                + "…`; rebuild with `forkd snapshot diff --from "@ + parent@ + "`"@,
        }
    }

    /// The message for the user. Hashes are cut to as many characters as fit in twelve bytes.
    pub fn message(&self) -> (m: String)
        ensures
            m@ == self.text(),
    {
        match self {
            ParentHashError::Unpinned { child, parent } => {
                let mut m = "chained snapshot `".to_owned();
                m.append(child.as_str());
                m.append("` has parent_tag=`");
                m.append(parent.as_str());
                m.append(
                    "` but no parent_content_hash; rebuild this snapshot — chains created before v0.5 GA aren't supported",
                );
                m
            },
            ParentHashError::Unreadable { parent, memory, reason } => {
                let mut m = "hash parent memory for chain verification: `".to_owned();
                m.append(parent.as_str());
                m.append("` at ");
                m.append(memory.as_str());
                m.append(": ");
                m.append(reason.as_str());
                m
            },
            ParentHashError::Mismatch { child, parent, recorded, actual } => {
                let mut m = "chain `".to_owned();
                m.append(child.as_str());
                m.append("` references parent `");
                m.append(parent.as_str());
                m.append("` with content `");
                text::push_prefix_within(&mut m, recorded.as_str(), 12);
                m.append("…`, but parent now has content `");
                text::push_prefix_within(&mut m, actual.as_str(), 12);
                m.append("…`; rebuild with `forkd snapshot diff --from ");
                m.append(parent.as_str());
                m.append("`");
                m
            },
        }
    }
}

/// Whether `lookup` answers from `store`: it gives what this has under a tag, and fails on others.
pub open spec fn answers_from<F: Fn(&str) -> Result<Snapshot, String>>(
    lookup: F,
    store: Map<Seq<char>, SnapshotView>,
) -> bool {
    forall|t: &str, r: Result<Snapshot, String>| #[trigger]
        call_ensures(lookup, (t,), r) ==> match r {
            Ok(s) => store.contains_key(t@) && s@ == store[t@],
            Err(_) => !store.contains_key(t@),
        }
}

/// Whether `line` leads in `store` from the snapshot `head` from parent to parent, and to none twice.
pub open spec fn is_line(store: Map<Seq<char>, SnapshotView>, head: Seq<char>, line: Seq<Link>) -> bool {
    &&& line.len() > 0
    &&& line[0].0 == head
    &&& forall|i: int|
        0 <= i < line.len() ==> store.contains_key((#[trigger] line[i]).0) && store[line[i].0] == line[i].1
    &&& forall|i: int| 0 <= i < line.len() - 1 ==> (#[trigger] line[i]).1.parent_tag == Some(line[i + 1].0)
    &&& forall|i: int, j: int| 0 <= i < j < line.len() ==> (#[trigger] line[i]).0 != (#[trigger] line[j]).0
}

/// Whether `chain` holds the links of `line` from the last to the first.
pub open spec fn is_reverse_of(chain: Seq<(String, Snapshot)>, line: Seq<Link>) -> bool {
    &&& chain.len() == line.len()
    &&& forall|i: int|
        0 <= i < chain.len() ==> (#[trigger] chain[i]).0@ == line[line.len() - 1 - i].0 && chain[i].1@
            == line[line.len() - 1 - i].1
}

proof fn lemma_walk_in_store<F: Fn(&str) -> Result<Snapshot, String>>(
    lookup: F,
    store: Map<Seq<char>, SnapshotView>,
    head: Seq<char>,
    walk: Seq<Link>,
    line: Seq<Link>,
    n: int,
)
    requires
        answers_from(lookup, store),
        is_walk(lookup, head, walk),
        is_line(store, head, line),
        0 <= n <= walk.len(),
        n <= line.len(),
    ensures
        forall|i: int| 0 <= i < n ==> walk[i] == line[i],
        forall|i: int| 0 <= i < walk.len() ==> store.contains_key((#[trigger] walk[i]).0),
    decreases n,
{
    assert forall|i: int| 0 <= i < walk.len() implies store.contains_key((#[trigger] walk[i]).0) && store[walk[i].0]
        == walk[i].1 by {
        assert(finds(lookup, walk[i].0, walk[i].1));
    }
    if n > 0 {
        lemma_walk_in_store(lookup, store, head, walk, line, n - 1);
        assert(next_tag(head, walk.take(n - 1)) == Some(walk[n - 1].0));
        if n > 1 {
            assert(walk.take(n - 1).last() == walk[n - 2]);
            assert(line[n - 2].1.parent_tag == Some(line[n - 2 + 1].0));
        }
        assert(walk[n - 1].0 == line[n - 1].0);
        assert(store[line[n - 1].0] == line[n - 1].1);
    }
}

/// What resolving a chain comes to, by the line that leads from its head. A line that ends at a base, with no
/// more than 32 parents, is the chain, from the base to the head. One whose next parent is on it already is a
/// cycle, and one whose next parent is not found is not resolved, within 32 parents. A longer one is refused.
#[verifier::spinoff_prover]
#[verifier::rlimit(50)]
pub proof fn law_line_is_resolved<F: Fn(&str) -> Result<Snapshot, String>>(
    head_tag: &str,
    lookup: F,
    outcome: Result<Vec<(String, Snapshot)>, ChainError>,
    store: Map<Seq<char>, SnapshotView>,
    line: Seq<Link>,
)
    requires
        call_ensures(resolve_chain::<F>, (head_tag, lookup), outcome),
        answers_from(lookup, store),
        is_line(store, head_tag@, line),
    ensures
        line.len() > 33 || (line.len() == 33 && line.last().1.parent_tag is Some) ==> (
        outcome matches Err(ChainError::TooDeep { head }) && head@ == head_tag@),
        line.len() <= 33 && line.last().1.parent_tag is None ==> (outcome matches Ok(chain) && is_reverse_of(chain@, line)),
        line.len() <= 32 ==> (line.last().1.parent_tag matches Some(next) ==> {
            let met = exists|i: int| 0 <= i < line.len() && (#[trigger] line[i]).0 == next;
            &&& met ==> (outcome matches Err(ChainError::Cycle { tag }) && tag@ == next)
            &&& !met && !store.contains_key(next) ==> {
                &&& outcome matches Err(ChainError::Unresolved { tag, dependent, reason })
                &&& tag@ == next
                &&& dependent@ == line.last().0
                &&& exists|t: &str, e: String|
                    t@ == next && e@ == reason@ && #[trigger] call_ensures(lookup, (t,), Err::<Snapshot, String>(e))
            }
        }),
{
    let head = head_tag@;
    let w = choose|walk: Seq<Link>| is_walk(lookup, head, walk) && #[trigger] explains(lookup, head, walk, outcome);
    let n = line.len() as int;
    if w.len() < n {
        let k = w.len() as int;
        lemma_walk_in_store(lookup, store, head, w, line, k);
        if k > 0 {
            assert(w.last() == line[k - 1]);
            assert(line[k - 1].1.parent_tag == Some(line[k - 1 + 1].0));
        }
        assert(next_tag(head, w) == Some(line[k].0));
        assert(store.contains_key(line[k].0));
        assert forall|i: int| 0 <= i < k implies (#[trigger] w[i]).0 != line[k].0 by {
            assert(w[i] == line[i]);
        }
    } else {
        lemma_walk_in_store(lookup, store, head, w, line, n);
        if w.len() > n {
            assert(next_tag(head, w.take(n)) == Some(w[n].0));
            assert(w.take(n).last() == w[n - 1]);
            assert(line.last() == w[n - 1]);
            assert(store.contains_key(w[n].0));
            assert forall|i: int| 0 <= i < n implies (#[trigger] line[i]).0 != w[n].0 by {
                assert(line[i] == w[i]);
            }
        } else {
            assert(w =~= line);
            if let Ok(chain) = outcome {
                let links = links_of(chain@);
                assert(links.len() == n);
                assert forall|i: int| 0 <= i < chain@.len() implies (#[trigger] chain@[i]).0@ == line[n - 1 - i].0
                    && chain@[i].1@ == line[n - 1 - i].1 by {
                    assert(links[i] == (chain@[i].0@, chain@[i].1@));
                    assert(links.reverse()[n - 1 - i] == links[i]);
                }
            }
        }
    }
}

/// A head that is not found is not resolved, and no chain comes of anything but a line that ends at a base.
pub proof fn law_only_lines_are_resolved<F: Fn(&str) -> Result<Snapshot, String>>(
    head_tag: &str,
    lookup: F,
    outcome: Result<Vec<(String, Snapshot)>, ChainError>,
    store: Map<Seq<char>, SnapshotView>,
)
    requires
        call_ensures(resolve_chain::<F>, (head_tag, lookup), outcome),
        answers_from(lookup, store),
    ensures
        !store.contains_key(head_tag@) ==> {
            &&& outcome matches Err(ChainError::Unresolved { tag, dependent, reason })
            &&& tag@ == head_tag@
            &&& dependent@ == head_tag@
            &&& exists|t: &str, e: String|
                t@ == head_tag@ && e@ == reason@ && #[trigger] call_ensures(lookup, (t,), Err::<Snapshot, String>(e))
        },
        outcome matches Ok(chain) ==> {
            let line = links_of(chain@).reverse();
            &&& is_line(store, head_tag@, line)
            &&& is_reverse_of(chain@, line)
            &&& line.last().1.parent_tag is None
            &&& line.len() <= 33
        },
{
    let head = head_tag@;
    let w = choose|walk: Seq<Link>| is_walk(lookup, head, walk) && #[trigger] explains(lookup, head, walk, outcome);
    if w.len() > 0 {
        assert(finds(lookup, w[0].0, w[0].1));
        assert(next_tag(head, w.take(0)) == Some(w[0].0));
    }
    if let Ok(chain) = outcome {
        let links = links_of(chain@);
        assert(w == links.reverse());
        assert forall|i: int| 0 <= i < w.len() implies store.contains_key((#[trigger] w[i]).0) && store[w[i].0]
            == w[i].1 by {
            assert(finds(lookup, w[i].0, w[i].1));
        }
        assert forall|i: int| 0 <= i < w.len() - 1 implies (#[trigger] w[i]).1.parent_tag == Some(w[i + 1].0) by {
            assert(next_tag(head, w.take(i + 1)) == Some(w[i + 1].0));
            assert(w.take(i + 1).last() == w[i]);
        }
        assert forall|i: int| 0 <= i < chain@.len() implies (#[trigger] chain@[i]).0@ == w[w.len() - 1 - i].0
            && chain@[i].1@ == w[w.len() - 1 - i].1 by {
            assert(links[i] == (chain@[i].0@, chain@[i].1@));
        }
    }
}

/// Whether link `i` of a chain records the hash that the memory of the link before it has now.
pub open spec fn records_parent(
    chain: Seq<(String, Snapshot)>,
    digest_of: Map<Seq<char>, Seq<char>>,
    i: int,
) -> bool {
    let memory = chain[i - 1].1.memory@;
    &&& digest_of.contains_key(memory)
    &&& chain[i].1.parent_content_hash matches Some(recorded)
    &&& recorded@ == digest_of[memory]
}

/// Where hashing a file always gives the same result, a chain is accepted if and only if each link but the
/// base records the hash that its parent's memory has now. Else the error is for the first that does not.
pub proof fn law_chain_is_accepted_iff_parents_are_recorded<H: Fn(&str) -> Result<String, String>>(
    chain: &[(String, Snapshot)],
    sha256_file: H,
    checked: Result<(), ParentHashError>,
    digest_of: Map<Seq<char>, Seq<char>>,
)
    requires
        call_ensures(verify_parent_hashes::<H>, (chain, sha256_file), checked),
        forall|p: &str, r: Result<String, String>| #[trigger]
            call_ensures(sha256_file, (p,), r) ==> match r {
                Ok(d) => digest_of.contains_key(p@) && d@ == digest_of[p@],
                Err(_) => !digest_of.contains_key(p@),
            },
    ensures
        checked is Ok <==> forall|i: int| 1 <= i < chain@.len() ==> #[trigger] records_parent(chain@, digest_of, i),
        checked matches Err(error) ==> exists|i: int|
            {
                let child = chain@[i];
                let parent = chain@[i - 1];
                &&& 1 <= i < chain@.len()
                &&& !#[trigger] records_parent(chain@, digest_of, i)
                &&& forall|j: int| 1 <= j < i ==> #[trigger] records_parent(chain@, digest_of, j)
                &&& match error {
                    ParentHashError::Unpinned { child: c, parent: p } => {
                        &&& child.1.parent_content_hash is None
                        &&& c@ == child.0@ && p@ == parent.0@
                    },
                    ParentHashError::Unreadable { parent: p, memory, reason } => {
                        &&& child.1.parent_content_hash is Some
                        &&& !digest_of.contains_key(parent.1.memory@)
                        &&& p@ == parent.0@ && memory@ == parent.1.memory@
                        &&& exists|q: &str, e: String|
                            q@ == memory@ && e@ == reason@ && #[trigger] call_ensures(
                                sha256_file,
                                (q,),
                                Err::<String, String>(e),
                            )
                    },
                    ParentHashError::Mismatch { child: c, parent: p, recorded, actual } => {
                        &&& c@ == child.0@ && p@ == parent.0@
                        &&& child.1.parent_content_hash matches Some(r) && r@ == recorded@
                        &&& digest_of.contains_key(parent.1.memory@) && actual@ == digest_of[parent.1.memory@]
                    },
                }
            },
{
    let links = links_of(chain@);
    assert forall|i: int| 1 <= i < chain@.len() && is_pinned(sha256_file, links, i) implies #[trigger] records_parent(
        chain@,
        digest_of,
        i,
    ) by {
        assert(links[i] == (chain@[i].0@, chain@[i].1@));
        assert(links[i - 1] == (chain@[i - 1].0@, chain@[i - 1].1@));
    }
    match checked {
        Ok(_) => {
            assert(are_pinned(sha256_file, links, chain@.len() as int));
            assert forall|i: int| 1 <= i < chain@.len() implies #[trigger] records_parent(chain@, digest_of, i) by {
                assert(is_pinned(sha256_file, links, i));
            }
        },
        Err(error) => {
            let i = choose|i: int|
                {
                    &&& 1 <= i < chain@.len()
                    &&& #[trigger] is_broken(sha256_file, links, i, error)
                    &&& are_pinned(sha256_file, links, i)
                };
            assert(links[i] == (chain@[i].0@, chain@[i].1@));
            assert(links[i - 1] == (chain@[i - 1].0@, chain@[i - 1].1@));
            assert forall|j: int| 1 <= j < i implies #[trigger] records_parent(chain@, digest_of, j) by {
                assert(is_pinned(sha256_file, links, j));
            }
            assert(!records_parent(chain@, digest_of, i));
        },
    }
}

/// The message of an error tells all that the error holds.
pub proof fn law_chain_errors_name_what_failed(e: &ChainError, m: String)
    requires
        call_ensures(ChainError::message, (e,), m),
    ensures
        match *e {
            ChainError::Cycle { tag } => text::mentions(m@, tag@),
            ChainError::Unresolved { tag, dependent, reason } => {
                &&& text::mentions(m@, tag@)
                &&& text::mentions(m@, dependent@)
                &&& text::mentions(m@, reason@)
            },
            ChainError::TooDeep { head } => text::mentions(m@, head@),
        },
{
    match *e {
        ChainError::Cycle { tag } => {
            text::lemma_mentions(
                "snapshot chain has a cycle: `"@,
                tag@,
                "` is reachable from itself via parent_tag"@,
                m@,
            );
        },
        ChainError::Unresolved { tag, dependent, reason } => {
            text::lemma_mentions(
                "resolve chain link `"@,
                tag@,
                "` (parent of `"@ + dependent@ + "`): "@ + reason@,
                m@,
            );
            text::lemma_mentions(
                "resolve chain link `"@ + tag@ + "` (parent of `"@,
                dependent@,
                "`): "@ + reason@,
                m@,
            );
            text::lemma_mentions(
                "resolve chain link `"@ + tag@ + "` (parent of `"@ + dependent@ + "`): "@,
                reason@,
                Seq::<char>::empty(),
                m@,
            );
        },
        ChainError::TooDeep { head } => {
            text::lemma_mentions(
                "snapshot chain for `"@,
                head@,
                "` exceeds MAX_CHAIN_DEPTH=32 — use `forkd snapshot compact` to flatten"@,
                m@,
            );
        },
    }
}

/// The message of an error tells all that the error holds.
pub proof fn law_parent_errors_name_what_failed(e: &ParentHashError, m: String)
    requires
        call_ensures(ParentHashError::message, (e,), m),
    ensures
        match *e {
            ParentHashError::Unpinned { child, parent } => {
                &&& text::mentions(m@, child@)
                &&& text::mentions(m@, parent@)
            },
            ParentHashError::Unreadable { parent, memory, reason } => {
                &&& text::mentions(m@, parent@)
                &&& text::mentions(m@, memory@)
                &&& text::mentions(m@, reason@)
            },
            ParentHashError::Mismatch { child, parent, recorded, actual } => {
                &&& text::mentions(m@, child@)
                &&& text::mentions(m@, parent@)
                &&& text::mentions(m@, text::prefix_within(recorded@, 12))
                &&& text::mentions(m@, text::prefix_within(actual@, 12))
            },
        },
{
    match *e {
        ParentHashError::Unpinned { child, parent } => {
            text::lemma_mentions(
                "chained snapshot `"@,
                child@,
                "` has parent_tag=`"@ + parent@
                    + "` but no parent_content_hash; rebuild this snapshot — chains created before v0.5 GA aren't supported"@,
                m@,
            );
            text::lemma_mentions(
                "chained snapshot `"@ + child@ + "` has parent_tag=`"@,
                parent@,
                "` but no parent_content_hash; rebuild this snapshot — chains created before v0.5 GA aren't supported"@,
                m@,
            );
        },
        ParentHashError::Unreadable { parent, memory, reason } => {
            text::lemma_mentions(
                "hash parent memory for chain verification: `"@,
                parent@,
                "` at "@ + memory@ + ": "@ + reason@,
                m@,
            );
            text::lemma_mentions(
                "hash parent memory for chain verification: `"@ + parent@ + "` at "@,
                memory@,
                ": "@ + reason@,
                m@,
            );
            text::lemma_mentions(
                "hash parent memory for chain verification: `"@ + parent@ + "` at "@ + memory@ + ": "@,
                reason@,
                Seq::<char>::empty(),
                m@,
            );
        },
        ParentHashError::Mismatch { child, parent, recorded, actual } => {
            text::lemma_mentions(
                "chain `"@,
                child@,
                "` references parent `"@ + parent@ + "` with content `"@ + text::prefix_within(recorded@, 12)
                    + "…`, but parent now has content `"@ + text::prefix_within(actual@, 12)
                    + "…`; rebuild with `forkd snapshot diff --from "@ + parent@ + "`"@,
                m@,
            );
            text::lemma_mentions(
                "chain `"@ + child@ + "` references parent `"@,
                parent@,
                "` with content `"@ + text::prefix_within(recorded@, 12) + "…`, but parent now has content `"@
                    + text::prefix_within(actual@, 12) + "…`; rebuild with `forkd snapshot diff --from "@
                    + parent@ + "`"@,
                m@,
            );
            text::lemma_mentions(
                "chain `"@ + child@ + "` references parent `"@ + parent@ + "` with content `"@,
                text::prefix_within(recorded@, 12),
                "…`, but parent now has content `"@ + text::prefix_within(actual@, 12)
                    + "…`; rebuild with `forkd snapshot diff --from "@ + parent@ + "`"@,
                m@,
            );
            text::lemma_mentions(
                "chain `"@ + child@ + "` references parent `"@ + parent@ + "` with content `"@
                    + text::prefix_within(recorded@, 12) + "…`, but parent now has content `"@,
                text::prefix_within(actual@, 12),
                "…`; rebuild with `forkd snapshot diff --from "@ + parent@ + "`"@,
                m@,
            );
        },
    }
}

} // verus!
