//! File paths as text, with `/` between their parts.

use crate::text;
use vstd::prelude::*;

verus! {

/// How many characters of `path` come before its first named part: one for the leading `/` of an
/// absolute path, one for a leading `.` that is a part by itself, else none.
pub open spec fn body_start(path: Seq<char>) -> int {
    if path.len() > 0 && path[0] == '/' {
        1
    } else if path.len() > 0 && path[0] == '.' && (path.len() == 1 || path[1] == '/') {
        1
    } else {
        0
    }
}

/// Whether the end of `path` means nothing: a separator, or a `.` that is a part by itself.
pub open spec fn ends_idly(path: Seq<char>) -> bool {
    &&& path.len() > body_start(path)
    &&& path.last() == '/' || (path.last() == '.' && (path.len() - 1 == body_start(path) || path[path.len() - 2]
        == '/'))
}

/// `path` without separators and `.` parts at its end.
pub open spec fn trimmed(path: Seq<char>) -> Seq<char>
    decreases path.len(),
{
    if ends_idly(path) {
        trimmed(path.drop_last())
    } else {
        path
    }
}

/// Where the last part of a trimmed path begins.
pub open spec fn last_part_start(path: Seq<char>) -> int {
    if path.len() <= body_start(path) || path.last() == '/' {
        path.len() as int
    } else {
        last_part_start_from(path, path.len() - 1)
    }
}

/// Where the part that holds position `at` begins.
pub open spec fn last_part_start_from(path: Seq<char>, at: int) -> int
    decreases at,
{
    if at <= body_start(path) || path[at - 1] == '/' {
        at
    } else {
        last_part_start_from(path, at - 1)
    }
}

/// Whether a trimmed path has a part after its leading `/` or `.`.
pub open spec fn has_part(path: Seq<char>) -> bool {
    path.len() > body_start(path)
}

/// The last part of `path`, where that is a name: neither `..`, nor the root, nor a lone `.`.
pub open spec fn file_name_of(path: Seq<char>) -> Option<Seq<char>> {
    let p = trimmed(path);
    let name = p.skip(last_part_start(p));
    if has_part(p) && name != seq!['.', '.'] {
        Some(name)
    } else {
        None
    }
}

/// `path` without its last part. The root and the empty path have none.
pub open spec fn parent_of(path: Seq<char>) -> Option<Seq<char>> {
    let p = trimmed(path);
    if has_part(p) {
        Some(trimmed(p.take(last_part_start(p))))
    } else if p.len() > 0 && p[0] == '.' {
        Some(Seq::empty())
    } else {
        None
    }
}

/// `name` below `base`. An absolute name stands for itself.
pub open spec fn joined(base: Seq<char>, name: Seq<char>) -> Seq<char> {
    if name.len() > 0 && name[0] == '/' {
        name
    } else if base.len() > 0 && base.last() != '/' {
        base.push('/') + name
    } else {
        base + name
    }
}

/// How many of the first `len` characters come before the first named part.
fn find_body(v: &Vec<char>, len: usize) -> (start: usize)
    requires
        len <= v@.len(),
    ensures
        start == body_start(v@.take(len as int)),
{
    if len > 0 && v[0] == '/' {
        1
    } else if len > 0 && v[0] == '.' && (len == 1 || v[1] == '/') {
        1
    } else {
        0
    }
}

/// The length of the first `len` characters, trimmed.
fn find_trimmed(v: &Vec<char>, len: usize) -> (end: usize)
    requires
        len <= v@.len(),
    ensures
        end <= len,
        v@.take(end as int) == trimmed(v@.take(len as int)),
    decreases len,
{
    let start = find_body(v, len);
    let ghost p = v@.take(len as int);
    if len > start && (v[len - 1] == '/' || (v[len - 1] == '.' && (len - 1 == start || v[len - 2] == '/'))) {
        assert(p.drop_last() =~= v@.take(len - 1));
        find_trimmed(v, len - 1)
    } else {
        len
    }
}

/// Where the last part of the first `len` characters begins.
fn find_last_part(v: &Vec<char>, len: usize) -> (start: usize)
    requires
        len <= v@.len(),
    ensures
        start <= len,
        start == last_part_start(v@.take(len as int)),
{
    let body = find_body(v, len);
    let ghost p = v@.take(len as int);
    if len <= body || v[len - 1] == '/' {
        return len;
    }
    let mut at: usize = len - 1;
    while at > body && v[at - 1] != '/'
        invariant
            len <= v@.len(),
            p == v@.take(len as int),
            body == body_start(p),
            body <= at < len,
            last_part_start_from(p, len - 1) == last_part_start_from(p, at as int),
        decreases at,
    {
        at = at - 1;
    }
    at
}

/// The last part of `path`, where that is a name.
pub fn file_name(path: &str) -> (name: Option<String>)
    ensures
        match name {
            Some(n) => file_name_of(path@) == Some(n@),
            None => file_name_of(path@) is None,
        },
{
    let v = text::chars_of(path);
    proof {
        assert(v@.take(v@.len() as int) =~= path@);
    }
    let end = find_trimmed(&v, v.len());
    let ghost p = v@.take(end as int);
    let body = find_body(&v, end);
    if end <= body {
        return None;
    }
    let start = find_last_part(&v, end);
    let ghost name = p.skip(start as int);
    if end - start == 2 && v[start] == '.' && v[start + 1] == '.' {
        assert(name =~= seq!['.', '.']);
        return None;
    }
    let mut out = String::new();
    text::push_chars(&mut out, &v, start, end);
    assert(out@ =~= name);
    proof {
        if name == seq!['.', '.'] {
            assert(name[0] == '.' && name[1] == '.');
        }
    }
    Some(out)
}

/// `path` without its last part.
pub fn parent(path: &str) -> (above: Option<String>)
    ensures
        match above {
            Some(a) => parent_of(path@) == Some(a@),
            None => parent_of(path@) is None,
        },
{
    let v = text::chars_of(path);
    proof {
        assert(v@.take(v@.len() as int) =~= path@);
    }
    let end = find_trimmed(&v, v.len());
    let ghost p = v@.take(end as int);
    let body = find_body(&v, end);
    if end > body {
        let start = find_last_part(&v, end);
        assert(p.take(start as int) =~= v@.take(start as int));
        let cut = find_trimmed(&v, start);
        let mut out = String::new();
        text::push_chars(&mut out, &v, 0, cut);
        assert(out@ =~= v@.take(cut as int));
        Some(out)
    } else if end > 0 && v[0] == '.' {
        let out = String::new();
        assert(out@ =~= Seq::<char>::empty());
        Some(out)
    } else {
        None
    }
}

/// `name` below `base`.
pub fn join(base: &str, name: &str) -> (path: String)
    ensures
        path@ == joined(base@, name@),
{
    let b = text::chars_of(base);
    let n = text::chars_of(name);
    if n.len() > 0 && n[0] == '/' {
        return name.to_owned();
    }
    let mut path = base.to_owned();
    if b.len() > 0 && b[b.len() - 1] != '/' {
        path.push('/');
    }
    path.append(name);
    path
}

/// A plain name, one without separators that is neither empty nor dots, is the last part of what it is
/// joined to.
pub proof fn law_join_keeps_name(base: Seq<char>, name: Seq<char>)
    requires
        file_name_of(name) == Some(name),
    ensures
        file_name_of(joined(base, name)) == Some(name),
{
    lemma_plain_name(name);
    let path = joined(base, name);
    let cut = path.len() - name.len();
    assert(path.skip(cut) =~= name);
    assert(forall|i: int| 0 <= i < name.len() ==> path[cut + i] == name[i]);
    lemma_part_start(path, cut);
    assert(path.last() == name.last());
    if path.last() == '.' {
        if name.len() == 1 {
            assert(name =~= seq!['.']);
        }
        assert(path[path.len() - 2] == name[name.len() - 2]);
    }
}

/// The last part of a path is its own last part.
pub proof fn law_file_name_is_plain(path: Seq<char>, name: Seq<char>)
    requires
        file_name_of(path) == Some(name),
    ensures
        file_name_of(name) == Some(name),
{
    let p = trimmed(path);
    let start = last_part_start(p);
    lemma_trimmed_is_prefix(path);
    lemma_last_part_start(p);
    assert(p.last() != '/');
    assert(start < p.len()) by {
        if start == p.len() {
            lemma_last_part_start_from(p, p.len() - 1);
        }
    }
    assert forall|i: int| 0 <= i < name.len() implies name[i] != '/' by {
        assert(name[i] == p[start + i]);
    }
    if name == seq!['.'] {
        assert(p.last() == name[0]);
        lemma_before_last_part(p);
    }
    law_plain_name(name);
}

/// A name without separators that is neither empty nor one or two dots is its own last part.
pub proof fn law_plain_name(name: Seq<char>)
    requires
        name.len() > 0,
        forall|i: int| 0 <= i < name.len() ==> name[i] != '/',
        name != seq!['.'],
        name != seq!['.', '.'],
    ensures
        file_name_of(name) == Some(name),
{
    assert(name.skip(0) =~= name);
    lemma_part_start(name, 0);
    if ends_idly(name) {
        assert(name.last() == '.');
        if name.len() == 1 {
            assert(name =~= seq!['.']);
        }
        assert(name[name.len() - 2] == '/');
    }
}

/// Before the last part stands a separator, or nothing that is named.
proof fn lemma_before_last_part(path: Seq<char>)
    requires
        has_part(path),
        path.last() != '/',
    ensures
        last_part_start(path) < path.len(),
        last_part_start(path) == body_start(path) || path[last_part_start(path) - 1] == '/',
{
    lemma_before_last_part_from(path, path.len() - 1);
}

proof fn lemma_before_last_part_from(path: Seq<char>, at: int)
    requires
        body_start(path) <= at < path.len(),
    ensures
        last_part_start_from(path, at) <= at,
        last_part_start_from(path, at) == body_start(path) || path[last_part_start_from(path, at) - 1] == '/',
    decreases at,
{
    if at <= body_start(path) || path[at - 1] == '/' {
    } else {
        lemma_before_last_part_from(path, at - 1);
    }
}

proof fn lemma_plain_name(name: Seq<char>)
    requires
        file_name_of(name) == Some(name),
    ensures
        name.len() > 0,
        forall|i: int| 0 <= i < name.len() ==> name[i] != '/',
        name != seq!['.'],
        name != seq!['.', '.'],
{
    let p = trimmed(name);
    lemma_trimmed_is_prefix(name);
    let start = last_part_start(p);
    lemma_last_part_start(p);
    assert(p.skip(start).len() == p.len() - start);
    assert(start == 0 && p.len() == name.len());
    assert(p =~= name);
    if name == seq!['.'] {
        assert(name[0] == '.');
    }
}

proof fn lemma_trimmed_is_prefix(path: Seq<char>)
    ensures
        trimmed(path).len() <= path.len(),
        trimmed(path) == path.take(trimmed(path).len() as int),
        !ends_idly(trimmed(path)),
    decreases path.len(),
{
    if ends_idly(path) {
        lemma_trimmed_is_prefix(path.drop_last());
        assert(trimmed(path) =~= path.take(trimmed(path).len() as int));
    } else {
        assert(path =~= path.take(path.len() as int));
    }
}

proof fn lemma_last_part_start_from(path: Seq<char>, at: int)
    requires
        body_start(path) <= at <= path.len(),
    ensures
        body_start(path) <= last_part_start_from(path, at) <= at,
        forall|i: int| last_part_start_from(path, at) <= i < at ==> path[i] != '/',
    decreases at,
{
    if at <= body_start(path) || path[at - 1] == '/' {
    } else {
        lemma_last_part_start_from(path, at - 1);
    }
}

proof fn lemma_last_part_start(path: Seq<char>)
    ensures
        has_part(path) ==> body_start(path) <= last_part_start(path) <= path.len(),
        forall|i: int| last_part_start(path) <= i < path.len() ==> path[i] != '/',
{
    if path.len() <= body_start(path) || path.last() == '/' {
    } else {
        lemma_last_part_start_from(path, path.len() - 1);
    }
}

/// Where `path` from `cut` on has no separator, and one is before `cut` or nothing is, its last part
/// starts there.
proof fn lemma_part_start(path: Seq<char>, cut: int)
    requires
        0 <= cut < path.len(),
        forall|i: int| cut <= i < path.len() ==> path[i] != '/',
        cut == 0 || path[cut - 1] == '/',
        path.skip(cut) != seq!['.'],
    ensures
        has_part(path),
        last_part_start(path) == cut,
{
    assert(path.skip(cut).len() == path.len() - cut);
    if path.len() == 1 {
        assert(path =~= seq![path[0]]);
        assert(path.skip(0) =~= path);
    }
    assert(body_start(path) <= cut);
    lemma_part_start_from(path, cut, path.len() - 1);
}

proof fn lemma_part_start_from(path: Seq<char>, cut: int, at: int)
    requires
        body_start(path) <= cut <= at < path.len(),
        forall|i: int| cut <= i < path.len() ==> path[i] != '/',
        cut == body_start(path) || path[cut - 1] == '/',
    ensures
        last_part_start_from(path, at) == cut,
    decreases at,
{
    if at > cut {
        lemma_part_start_from(path, cut, at - 1);
    }
}

/// A name is joined to a base by a separator, unless there is one already or no base. An absolute name
/// stands for itself.
pub proof fn law_join_puts_name_below_base(base: &str, name: &str, path: String)
    requires
        call_ensures(join, (base, name), path),
    ensures
        name@.len() > 0 && name@[0] == '/' ==> path@ == name@,
        !(name@.len() > 0 && name@[0] == '/') ==> {
            let cut = path@.len() - name@.len();
            &&& cut >= base@.len()
            &&& path@.take(base@.len() as int) == base@
            &&& path@.skip(cut) == name@
            &&& base@.len() == 0 || base@.last() == '/' ==> cut == base@.len()
            &&& base@.len() > 0 && base@.last() != '/' ==> cut == base@.len() + 1 && path@[base@.len() as int] == '/'
        },
{
    let b = base@;
    let n = name@;
    if !(n.len() > 0 && n[0] == '/') {
        let cut = path@.len() - n.len();
        assert(path@.take(b.len() as int) =~= b);
        assert(path@.skip(cut) =~= n);
    }
}

/// Whether the end of a path means nothing: nothing but separators, and dots that stand alone between them.
pub open spec fn is_idle_tail(after: Seq<char>) -> bool {
    &&& after.len() > 0 ==> after[0] == '/'
    &&& forall|i: int|
        0 <= i < after.len() ==> (#[trigger] after[i] == '/' || (after[i] == '.' && i > 0 && after[i - 1] == '/' && (i + 1
            == after.len() || after[i + 1] == '/')))
}

/// Whether `name` is the last part of `path` and is a name: after a separator or at the start, with nothing
/// that means something after it.
pub open spec fn is_last_name(path: Seq<char>, name: Seq<char>) -> bool {
    &&& name.len() > 0
    &&& forall|i: int| 0 <= i < name.len() ==> #[trigger] name[i] != '/'
    &&& name != seq!['.']
    &&& name != seq!['.', '.']
    &&& exists|before: Seq<char>, after: Seq<char>|
        {
            &&& path == #[trigger] (before + name + after)
            &&& before.len() == 0 || before.last() == '/'
            &&& is_idle_tail(after)
        }
}

proof fn lemma_idle_tail_is_trimmed(front: Seq<char>, after: Seq<char>)
    requires
        front.len() > 0,
        front.last() != '/',
        !ends_idly(front),
        is_idle_tail(after),
        has_part(front) || front == seq!['.'],
    ensures
        trimmed(front + after) == front,
    decreases after.len(),
{
    let path = front + after;
    if after.len() == 0 {
        assert(path =~= front);
    } else {
        let rest = after.drop_last();
        assert(path.last() == after.last());
        assert(path[front.len() as int] == after[0]);
        assert(body_start(path) <= front.len());
        let i = after.len() - 1;
        assert(after[i] == '/' || (after[i] == '.' && i > 0 && after[i - 1] == '/'));
        if after[i] == '.' {
            assert(path[path.len() - 2] == after[i - 1]);
        }
        assert(ends_idly(path));
        assert(path.drop_last() =~= front + rest);
        assert(is_idle_tail(rest)) by {
            assert forall|j: int| 0 <= j < rest.len() implies (#[trigger] rest[j] == '/' || (rest[j] == '.' && j > 0
                && rest[j - 1] == '/' && (j + 1 == rest.len() || rest[j + 1] == '/'))) by {
                assert(rest[j] == after[j]);
                if j > 0 {
                    assert(rest[j - 1] == after[j - 1]);
                }
                if j + 1 < rest.len() {
                    assert(rest[j + 1] == after[j + 1]);
                }
            }
        }
        lemma_idle_tail_is_trimmed(front, rest);
    }
}

proof fn lemma_name_ends_front(before: Seq<char>, name: Seq<char>)
    requires
        name.len() > 0,
        forall|i: int| 0 <= i < name.len() ==> #[trigger] name[i] != '/',
        name != seq!['.'],
        before.len() == 0 || before.last() == '/',
    ensures
        ({
            let front = before + name;
            &&& !ends_idly(front)
            &&& has_part(front)
            &&& last_part_start(front) == before.len()
            &&& front.last() != '/'
        }),
{
    let front = before + name;
    let cut = before.len() as int;
    assert(front.skip(cut) =~= name);
    assert forall|i: int| cut <= i < front.len() implies front[i] != '/' by {
        assert(front[i] == name[i - cut]);
    }
    lemma_part_start(front, cut);
    assert(front.last() == name.last());
    assert(name[name.len() - 1] != '/');
    if front.last() == '.' {
        if name.len() == 1 {
            assert(name =~= seq!['.']);
        } else {
            assert(front[front.len() - 2] == name[name.len() - 2]);
        }
    }
}

/// What `trimmed` takes away means nothing.
proof fn lemma_trimmed_away(path: Seq<char>)
    requires
        has_part(trimmed(path)),
    ensures
        is_idle_tail(path.skip(trimmed(path).len() as int)),
        forall|i: int| 0 <= i < trimmed(path).len() ==> trimmed(path)[i] == path[i],
        trimmed(path).last() != '/',
    decreases path.len(),
{
    lemma_trimmed_is_prefix(path);
    let t = trimmed(path);
    let k = t.len() as int;
    if ends_idly(path) {
        let shorter = path.drop_last();
        lemma_trimmed_away(shorter);
        lemma_trimmed_is_prefix(shorter);
        let rest = shorter.skip(k);
        let after = path.skip(k);
        assert(after =~= rest.push(path.last()));
        let n = path.len() as int;
        if path.last() == '.' {
            assert(path[n - 2] == '/') by {
                if n - 1 == body_start(path) {
                    assert(n == 2);
                }
            }
        }
        assert forall|i: int| 0 <= i < after.len() implies (#[trigger] after[i] == '/' || (after[i] == '.' && i > 0
            && after[i - 1] == '/' && (i + 1 == after.len() || after[i + 1] == '/'))) by {
            if i < rest.len() {
                assert(after[i] == rest[i]);
                if i > 0 {
                    assert(after[i - 1] == rest[i - 1]);
                }
                if i + 1 < rest.len() {
                    assert(after[i + 1] == rest[i + 1]);
                }
            } else if rest.len() == 0 {
                assert(shorter.len() == k);
                assert(shorter =~= t);
            } else {
                assert(after[i - 1] == rest[i - 1]);
                assert(path[n - 2] == after[i - 1]);
            }
        }
        if rest.len() == 0 {
            assert(shorter =~= t);
            if path.last() == '.' {
                assert(t.last() == '/');
            }
        }
    } else {
        assert(path.skip(k) =~= Seq::<char>::empty());
    }
}

/// The last part of a path is what stands after its last separator, but for those, and dots by themselves,
/// at its end. There is none where that is nothing, or a dot or two.
pub proof fn law_file_name_is_the_last_name(path: &str, found: Option<String>)
    requires
        call_ensures(file_name, (path,), found),
    ensures
        found matches Some(name) ==> is_last_name(path@, name@),
        forall|name: Seq<char>| #[trigger]
            is_last_name(path@, name) ==> (found matches Some(n) && n@ == name),
{
    let p = path@;
    assert forall|name: Seq<char>| #[trigger] is_last_name(p, name) implies (found matches Some(n) && n@ == name) by {
        lemma_last_name(p, name);
    }
    if let Some(name) = found {
        lemma_file_name_is_last(p, name@);
    }
}

pub(crate) proof fn lemma_last_name(path: Seq<char>, name: Seq<char>)
    requires
        is_last_name(path, name),
    ensures
        file_name_of(path) == Some(name),
{
    let (before, after) = choose|before: Seq<char>, after: Seq<char>|
        {
            &&& path == #[trigger] (before + name + after)
            &&& before.len() == 0 || before.last() == '/'
            &&& is_idle_tail(after)
        };
    lemma_name_ends_front(before, name);
    lemma_idle_tail_is_trimmed(before + name, after);
    assert((before + name).skip(before.len() as int) =~= name);
}

pub(crate) proof fn lemma_file_name_is_last(path: Seq<char>, name: Seq<char>)
    requires
        file_name_of(path) == Some(name),
    ensures
        is_last_name(path, name),
{
    let t = trimmed(path);
    let start = last_part_start(t);
    let k = t.len() as int;
    lemma_trimmed_is_prefix(path);
    lemma_trimmed_away(path);
    lemma_last_part_start(t);
    lemma_before_last_part(t);
    law_file_name_is_plain(path, name);
    lemma_plain_name(name);
    let before = path.take(start);
    let after = path.skip(k);
    assert(path =~= before + name + after);
    if start > 0 && start == body_start(t) {
        assert(t[0] == '/' || t[0] == '.');
        if t[0] == '.' {
            assert(t[1] == '/');
            assert(forall|i: int| start <= i < t.len() ==> t[i] != '/');
        }
    }
    assert(before.len() == 0 || before.last() == '/');
}

/// Whether a base means something to its end: it is not empty, and has neither a separator nor a dot by itself
/// there.
pub open spec fn is_base(base: Seq<char>) -> bool {
    &&& base.len() > 0
    &&& base.last() != '/'
    &&& !(base.len() > 1 && base.last() == '.' && base[base.len() - 2] == '/')
}

/// The directory of a part below a base is the base, and that of a part below the root the root. What means
/// nothing between the base and the part, or at the end of the path, changes nothing.
pub proof fn law_parent_is_the_base(
    path: &str,
    above: Option<String>,
    base: Seq<char>,
    gap: Seq<char>,
    name: Seq<char>,
    after: Seq<char>,
)
    requires
        call_ensures(parent, (path,), above),
        name.len() > 0,
        forall|i: int| 0 <= i < name.len() ==> #[trigger] name[i] != '/',
        name != seq!['.'],
        is_idle_tail(gap),
        gap.len() > 0 && gap.last() == '/',
        is_idle_tail(after),
    ensures
        is_base(base) && path@ == base + gap + name + after ==> (above matches Some(a) && a@ == base),
        path@ == gap + name + after ==> (above matches Some(a) && a@ == seq!['/']),
        path@ == name + after ==> (above matches Some(a) && a@.len() == 0),
{
    if is_base(base) && path@ == base + gap + name + after {
        let before = base + gap;
        lemma_name_ends_front(before, name);
        lemma_idle_tail_is_trimmed(before + name, after);
        assert((before + name).take(before.len() as int) =~= before);
        lemma_base(base);
        lemma_idle_tail_is_trimmed(base, gap);
    }
    if path@ == gap + name + after {
        lemma_name_ends_front(gap, name);
        lemma_idle_tail_is_trimmed(gap + name, after);
        assert((gap + name).take(gap.len() as int) =~= gap);
        lemma_idle_root(gap);
    }
    if path@ == name + after {
        let before = Seq::<char>::empty();
        lemma_name_ends_front(before, name);
        assert(before + name =~= name);
        lemma_idle_tail_is_trimmed(name, after);
        assert(name.take(0) =~= before);
        assert(trimmed(before) == before);
    }
}

proof fn lemma_base(base: Seq<char>)
    requires
        is_base(base),
    ensures
        !ends_idly(base),
        has_part(base) || base == seq!['.'],
{
    if ends_idly(base) {
        assert(base.last() == '.' && base.len() - 1 == body_start(base));
    }
    if !has_part(base) {
        assert(base.len() == 1);
        assert(base =~= seq![base[0]]);
    }
}

proof fn lemma_idle_root(gap: Seq<char>)
    requires
        is_idle_tail(gap),
        gap.len() > 0,
    ensures
        trimmed(gap) == seq!['/'],
    decreases gap.len(),
{
    if gap.len() == 1 {
        assert(gap =~= seq!['/']);
    } else {
        let i = gap.len() - 1;
        assert(gap[i] == '/' || (gap[i] == '.' && i > 0 && gap[i - 1] == '/'));
        assert(ends_idly(gap));
        let rest = gap.drop_last();
        assert(is_idle_tail(rest)) by {
            assert forall|j: int| 0 <= j < rest.len() implies (#[trigger] rest[j] == '/' || (rest[j] == '.' && j > 0
                && rest[j - 1] == '/' && (j + 1 == rest.len() || rest[j + 1] == '/'))) by {
                assert(rest[j] == gap[j]);
                if j > 0 {
                    assert(rest[j - 1] == gap[j - 1]);
                }
                if j + 1 < rest.len() {
                    assert(rest[j + 1] == gap[j + 1]);
                }
            }
        }
        lemma_idle_root(rest);
    }
}

/// A path without a directory above it is empty, or nothing but a root.
pub proof fn law_only_roots_have_no_parent(path: &str, above: Option<String>)
    requires
        call_ensures(parent, (path,), above),
        above is None,
    ensures
        forall|name: Seq<char>| !#[trigger] is_last_name(path@, name),
        path@.len() > 0 ==> path@[0] == '/',
        forall|i: int| 0 <= i < path@.len() ==> #[trigger] path@[i] == '/' || path@[i] == '.',
{
    let p = path@;
    assert forall|name: Seq<char>| !#[trigger] is_last_name(p, name) by {
        if is_last_name(p, name) {
            lemma_last_name(p, name);
        }
    }
    lemma_trimmed_is_prefix(p);
    lemma_only_idle(p);
}

proof fn lemma_only_idle(path: Seq<char>)
    requires
        !has_part(trimmed(path)),
        !(trimmed(path).len() > 0 && trimmed(path)[0] == '.'),
    ensures
        path.len() > 0 ==> path[0] == '/',
        forall|i: int| 0 <= i < path.len() ==> #[trigger] path[i] == '/' || path[i] == '.',
    decreases path.len(),
{
    if ends_idly(path) {
        let shorter = path.drop_last();
        lemma_only_idle(shorter);
        assert forall|i: int| 0 <= i < path.len() implies #[trigger] path[i] == '/' || path[i] == '.' by {
            if i < shorter.len() {
                assert(path[i] == shorter[i]);
            }
        }
        if shorter.len() > 0 {
            assert(path[0] == shorter[0]);
        }
    }
}

} // verus!
