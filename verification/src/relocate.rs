//! Pointing the metadata of a snapshot at the directory that the snapshot has been moved to.

use crate::json;
use crate::path;
use crate::text;
use vstd::prelude::*;

verus! {

/// Why metadata could not be rewritten.
#[derive(Debug)]
pub enum RelocateError {
    /// The file at `path` holds no JSON.
    Unparsable { path: String, error: serde_json::Error },
    /// What it holds could not be written again.
    Unprintable { error: serde_json::Error },
}

/// Whether `exists` says where there are files.
pub open spec fn shows_presence<E: Fn(&str) -> bool>(exists: E, present: spec_fn(Seq<char>) -> bool) -> bool {
    forall|p: &str, r: bool| #[trigger] call_ensures(exists, (p,), r) ==> r == present(p@)
}

/// Where a path is to point instead: at the file of the same name in `dir`, if there is one, and unless
/// it points there already.
pub open spec fn local_path(dir: Seq<char>, present: spec_fn(Seq<char>) -> bool, s: Seq<char>) -> Option<Seq<char>> {
    match path::file_name_of(s) {
        Some(name) => {
            let local = path::joined(dir, name);
            if present(local) && local != s {
                Some(local)
            } else {
                None
            }
        },
        None => None,
    }
}

/// Where the member `key` is to point instead.
pub open spec fn target(
    dir: Seq<char>,
    present: spec_fn(Seq<char>) -> bool,
    v: serde_json::Value,
    key: Seq<char>,
) -> Option<Seq<char>> {
    if json::members(v).contains_key(key) {
        match json::text_of(json::members(v)[key]) {
            Some(s) => local_path(dir, present, s),
            None => None,
        }
    } else {
        None
    }
}

/// Whether the member `key` of `w` is that of `v`, or points where it is to point instead.
pub open spec fn is_retargeted(
    dir: Seq<char>,
    present: spec_fn(Seq<char>) -> bool,
    v: serde_json::Value,
    w: serde_json::Value,
    key: Seq<char>,
) -> bool {
    match target(dir, present, v, key) {
        Some(local) => json::text_of(json::members(w)[key]) == Some(local),
        None => json::members(v).contains_key(key) ==> json::members(w)[key] == json::members(v)[key],
    }
}

/// Whether `w` is `v` with `vmstate` and `memory` pointing into `dir`, and nothing else changed.
pub open spec fn is_relocated(
    dir: Seq<char>,
    present: spec_fn(Seq<char>) -> bool,
    v: serde_json::Value,
    w: serde_json::Value,
) -> bool {
    &&& json::members(w).dom() == json::members(v).dom()
    &&& is_retargeted(dir, present, v, w, "vmstate"@)
    &&& is_retargeted(dir, present, v, w, "memory"@)
    &&& forall|key: Seq<char>|
        json::members(v).contains_key(key) && key != "vmstate"@ && key != "memory"@ ==> #[trigger] json::members(w)[key]
            == json::members(v)[key]
    &&& target(dir, present, v, "vmstate"@) is None && target(dir, present, v, "memory"@) is None ==> w == v
}

/// Whether `instead` is where a path is to point instead, wherever the files are that `exists` shows.
pub open spec fn is_local_path<E: Fn(&str) -> bool>(
    exists: E,
    dir: Seq<char>,
    s: Seq<char>,
    instead: Option<String>,
) -> bool {
    forall|present: spec_fn(Seq<char>) -> bool| #[trigger]
        shows_presence(exists, present) ==> match instead {
            Some(local) => local_path(dir, present, s) == Some(local@),
            None => local_path(dir, present, s) is None,
        }
}

/// Where a path is to point instead, `None` where it is to stay: at the file of the same name in `dir`.
/// `exists` says whether there is a file at a path.
pub fn relocated_path<E: Fn(&str) -> bool>(dir: &str, s: &str, exists: &E) -> (instead: Option<String>)
    requires
        forall|p: &str| call_requires(*exists, (p,)),
    ensures
        is_local_path(*exists, dir@, s@, instead),
{
    let name = match path::file_name(s) {
        Some(name) => name,
        None => {
            return None;
        },
    };
    let local = path::join(dir, name.as_str());
    if !(*exists)(local.as_str()) || text::same_text(local.as_str(), s) {
        return None;
    }
    Some(local)
}

/// Whether `out` is the text of `w`. Where `v`, which `w` was made from, is what its own texts denote, so
/// is `w`: `out` then denotes it.
pub open spec fn is_written(v: serde_json::Value, w: serde_json::Value, out: Seq<char>) -> bool {
    &&& out == json::pretty_text(w)
    &&& json::reads_back(v) ==> json::reads_back(w)
}

/// Whether `out` is the text of `v` relocated, given what `exists` says.
pub open spec fn is_rewrite<E: Fn(&str) -> bool>(exists: E, dir: Seq<char>, v: serde_json::Value, out: Seq<char>) -> bool {
    exists|w: serde_json::Value| #[trigger]
        is_written(v, w, out) && forall|present: spec_fn(Seq<char>) -> bool| #[trigger]
            shows_presence(exists, present) ==> is_relocated(dir, present, v, w)
}

/// The two keys differ from each other, and from the one that marks JSON text.
proof fn lemma_keys_differ()
    ensures
        "vmstate"@ != "memory"@,
        "vmstate"@ != json::RAW_VALUE_KEY@,
        "memory"@ != json::RAW_VALUE_KEY@,
{
    reveal_strlit("vmstate");
    reveal_strlit("memory");
    reveal_strlit("$serde_json::private::RawValue");
    assert("vmstate"@.len() == 7 && "memory"@.len() == 6);
    assert(json::RAW_VALUE_KEY@.len() == 30);
}

/// Points one member into `dir`.
fn retarget<E: Fn(&str) -> bool>(dir: &str, v: &mut serde_json::Value, key: &str, exists: &E)
    requires
        forall|p: &str| call_requires(*exists, (p,)),
    ensures
        json::reads_back(*old(v)) && key@ != json::RAW_VALUE_KEY@ ==> json::reads_back(*final(v)),
        forall|present: spec_fn(Seq<char>) -> bool| #[trigger]
            shows_presence(*exists, present) ==> {
                &&& is_retargeted(dir@, present, *old(v), *final(v), key@)
                &&& target(dir@, present, *old(v), key@) is None ==> *final(v) == *old(v)
                &&& json::members(*final(v)).dom() == json::members(*old(v)).dom()
                &&& forall|other: Seq<char>|
                    json::members(*old(v)).contains_key(other) && other != key@ ==> #[trigger] json::members(*final(v))[other]
                        == json::members(*old(v))[other]
            },
{
    let ghost before = *v;
    let instead = match json::member(v, key) {
        None => None,
        Some(m) => match m.as_str() {
            None => None,
            Some(s) => relocated_path(dir, s, exists),
        },
    };
    let local = match instead {
        Some(local) => local,
        None => {
            return;
        },
    };
    json::set_member(v, key, json::Scalar::Text(local.as_str()));
    assert(json::members(*v).dom() =~= json::members(before).dom());
}

/// Points `vmstate` and `memory` of a snapshot's metadata at the files of the same names in `dir`, as far
/// as there are such files, and leaves everything else as it is.
///
/// `raw` is the text of `snapshot.json` in `dir`; where there is none, there is nothing to do. Gives the
/// text to write in its place. `exists` says whether there is a file at a path.
pub fn rewrite_snapshot_paths<E: Fn(&str) -> bool>(dir: &str, raw: Option<&str>, exists: &E) -> (rewritten: Result<
    Option<String>,
    RelocateError,
>)
    requires
        forall|p: &str| call_requires(*exists, (p,)),
    ensures
        match raw {
            None => rewritten matches Ok(None),
            Some(text) => match json::parsed(text@) {
                None => rewritten matches Err(RelocateError::Unparsable { path, .. }) && path@ == path::joined(
                    dir@,
                    "snapshot.json"@,
                ),
                Some(v) => {
                    &&& json::is_plain(text@) ==> json::reads_back(v)
                    &&& rewritten matches Ok(Some(out))
                    &&& is_rewrite(*exists, dir@, v, out@)
                },
            },
        },
{
    let text = match raw {
        Some(text) => text,
        None => {
            return Ok(None);
        },
    };
    let mut v = match json::parse(text) {
        Ok(v) => v,
        Err(error) => {
            return Err(RelocateError::Unparsable { path: path::join(dir, "snapshot.json"), error });
        },
    };
    let ghost first = v;
    proof {
        lemma_keys_differ();
    }
    retarget(dir, &mut v, "vmstate", exists);
    retarget(dir, &mut v, "memory", exists);
    match json::print_pretty(&v) {
        Ok(out) => {
            assert(is_written(first, v, out@));
            assert forall|present: spec_fn(Seq<char>) -> bool| #[trigger]
                shows_presence(*exists, present) implies is_relocated(dir@, present, first, v) by {}
            assert(is_rewrite(*exists, dir@, first, out@));
            Ok(Some(out))
        },
        Err(error) => Err(RelocateError::Unprintable { error }),
    }
}

/// What has been relocated is left as it is when it is relocated again.
pub proof fn law_relocation_is_idempotent(
    dir: Seq<char>,
    present: spec_fn(Seq<char>) -> bool,
    v: serde_json::Value,
    w: serde_json::Value,
    x: serde_json::Value,
)
    requires
        is_relocated(dir, present, v, w),
        is_relocated(dir, present, w, x),
    ensures
        x == w,
{
    lemma_settled(dir, present, v, w, "vmstate"@);
    lemma_settled(dir, present, v, w, "memory"@);
}

/// Rewriting a text that has been rewritten gives the same text, where `exists` is consistent and the first
/// text denotes a value that reads back, as plain texts do.
pub proof fn law_rewriting_is_idempotent<E: Fn(&str) -> bool>(
    exists: E,
    present: spec_fn(Seq<char>) -> bool,
    dir: Seq<char>,
    v: serde_json::Value,
    out: Seq<char>,
    again: Seq<char>,
)
    requires
        shows_presence(exists, present),
        json::reads_back(v),
        is_rewrite(exists, dir, v, out),
        json::parsed(out) is Some ==> is_rewrite(exists, dir, json::parsed(out)->0, again),
    ensures
        json::parsed(out) is Some,
        again == out,
{
    let w = choose|w: serde_json::Value| #[trigger]
        is_written(v, w, out) && forall|present: spec_fn(Seq<char>) -> bool| #[trigger]
            shows_presence(exists, present) ==> is_relocated(dir, present, v, w);
    let x = choose|x: serde_json::Value| #[trigger]
        is_written(w, x, again) && forall|present: spec_fn(Seq<char>) -> bool| #[trigger]
            shows_presence(exists, present) ==> is_relocated(dir, present, w, x);
    law_relocation_is_idempotent(dir, present, v, w, x);
}

/// Whatever else the metadata says stays: members of other keys, such as the parent's tag and the hash of
/// its memory, are there afterwards if and only if they were there before, and with the same value.
pub proof fn law_other_members_stay(
    dir: Seq<char>,
    present: spec_fn(Seq<char>) -> bool,
    v: serde_json::Value,
    w: serde_json::Value,
    key: Seq<char>,
)
    requires
        is_relocated(dir, present, v, w),
        key != "vmstate"@,
        key != "memory"@,
    ensures
        json::members(w).contains_key(key) <==> json::members(v).contains_key(key),
        json::members(v).contains_key(key) ==> json::members(w)[key] == json::members(v)[key],
{
    assert(json::members(w).dom().contains(key) == json::members(v).dom().contains(key));
}

proof fn lemma_settled(
    dir: Seq<char>,
    present: spec_fn(Seq<char>) -> bool,
    v: serde_json::Value,
    w: serde_json::Value,
    key: Seq<char>,
)
    requires
        json::members(w).dom() == json::members(v).dom(),
        is_retargeted(dir, present, v, w, key),
    ensures
        target(dir, present, w, key) is None,
{
    if json::members(v).contains_key(key) {
        if let Some(local) = target(dir, present, v, key) {
            let s = json::text_of(json::members(v)[key])->0;
            let name = path::file_name_of(s)->0;
            path::law_file_name_is_plain(s, name);
            path::law_join_keeps_name(dir, name);
        }
    } else {
        assert(!json::members(w).dom().contains(key));
    }
}

/// A member that was changed names a file that is there, in the directory and of the name it had before.
pub proof fn law_relocated_paths_lead_home(
    dir: Seq<char>,
    present: spec_fn(Seq<char>) -> bool,
    v: serde_json::Value,
    w: serde_json::Value,
    key: Seq<char>,
)
    requires
        is_relocated(dir, present, v, w),
        json::members(v).contains_key(key),
        json::members(w)[key] != json::members(v)[key],
    ensures
        key == "vmstate"@ || key == "memory"@,
        json::text_of(json::members(v)[key]) is Some,
        path::file_name_of(json::text_of(json::members(v)[key])->0) is Some,
        json::text_of(json::members(w)[key]) == Some(
            path::joined(dir, path::file_name_of(json::text_of(json::members(v)[key])->0)->0),
        ),
        present(json::text_of(json::members(w)[key])->0),
{
}

/// Whether a function says where there are files.
pub open spec fn says_where_files_are<E: Fn(&str) -> bool>(exists: E, present: spec_fn(Seq<char>) -> bool) -> bool {
    forall|p: &str, r: bool| #[trigger] call_ensures(exists, (p,), r) ==> r == present(p@)
}

/// Whether `name` is the last part of `s`, and a file of that name is in `dir`.
pub open spec fn is_there(dir: Seq<char>, present: spec_fn(Seq<char>) -> bool, s: Seq<char>, name: Seq<char>) -> bool {
    path::is_last_name(s, name) && present(path::joined(dir, name))
}

proof fn lemma_local_path(dir: Seq<char>, present: spec_fn(Seq<char>) -> bool, s: Seq<char>)
    ensures
        forall|name: Seq<char>| #[trigger]
            is_there(dir, present, s, name) ==> {
                let local = path::joined(dir, name);
                local_path(dir, present, s) == (if local == s {
                    None
                } else {
                    Some(local)
                })
            },
        (forall|name: Seq<char>| !#[trigger] is_there(dir, present, s, name)) ==> local_path(dir, present, s) is None,
{
    assert forall|name: Seq<char>| #[trigger] is_there(dir, present, s, name) implies {
        let local = path::joined(dir, name);
        local_path(dir, present, s) == (if local == s {
            None
        } else {
            Some(local)
        })
    } by {
        path::lemma_last_name(s, name);
    }
    if let Some(name) = path::file_name_of(s) {
        path::lemma_file_name_is_last(s, name);
        if present(path::joined(dir, name)) {
            assert(is_there(dir, present, s, name));
        }
    }
}

/// A path whose last part is the name of a file in `dir` is to point at that file, unless it does already,
/// and any other path is to stay.
pub proof fn law_paths_lead_to_files_that_are_there<E: Fn(&str) -> bool>(
    dir: &str,
    s: &str,
    exists: &E,
    instead: Option<String>,
    present: spec_fn(Seq<char>) -> bool,
)
    requires
        call_ensures(relocated_path::<E>, (dir, s, exists), instead),
        says_where_files_are(*exists, present),
    ensures
        forall|name: Seq<char>| #[trigger]
            is_there(dir@, present, s@, name) ==> match instead {
                Some(local) => local@ == path::joined(dir@, name) && local@ != s@,
                None => s@ == path::joined(dir@, name),
            },
        (forall|name: Seq<char>| !#[trigger] is_there(dir@, present, s@, name)) ==> instead is None,
{
    assert(shows_presence(*exists, present));
    lemma_local_path(dir@, present, s@);
}

/// Whether `new` is what a member of the metadata becomes that was `old`: the path of the file in `dir` whose
/// name is its last part, where there is such a file, and else what it was.
pub open spec fn is_led_to(
    dir: Seq<char>,
    present: spec_fn(Seq<char>) -> bool,
    old_member: serde_json::Value,
    new_member: serde_json::Value,
) -> bool {
    match json::text_of(old_member) {
        Some(s) => {
            &&& forall|name: Seq<char>| #[trigger]
                is_there(dir, present, s, name) ==> json::text_of(new_member) == Some(path::joined(dir, name))
            &&& (forall|name: Seq<char>| !#[trigger] is_there(dir, present, s, name)) ==> new_member == old_member
        },
        None => new_member == old_member,
    }
}

/// Whether `w` is the metadata `v` with `vmstate` and `memory` led to the files in `dir`, and all else as it
/// was.
pub open spec fn is_moved(
    dir: Seq<char>,
    present: spec_fn(Seq<char>) -> bool,
    v: serde_json::Value,
    w: serde_json::Value,
) -> bool {
    &&& forall|key: Seq<char>| #[trigger] json::members(w).contains_key(key) <==> json::members(v).contains_key(key)
    &&& forall|key: Seq<char>|
        json::members(v).contains_key(key) ==> if key == "vmstate"@ || key == "memory"@ {
            is_led_to(dir, present, json::members(v)[key], #[trigger] json::members(w)[key])
        } else {
            json::members(w)[key] == json::members(v)[key]
        }
    &&& json::reads_back(v) ==> json::reads_back(w)
}

/// Rewriting the metadata of a snapshot leads its state and its memory to the files of their names in `dir`,
/// and leaves all else as it is. Without metadata there is nothing to do, and text that is no JSON is an
/// error that names the file.
pub proof fn law_metadata_is_moved<E: Fn(&str) -> bool>(
    dir: &str,
    raw: Option<&str>,
    exists: &E,
    rewritten: Result<Option<String>, RelocateError>,
    present: spec_fn(Seq<char>) -> bool,
)
    requires
        call_ensures(rewrite_snapshot_paths::<E>, (dir, raw, exists), rewritten),
        says_where_files_are(*exists, present),
    ensures
        raw is None ==> rewritten matches Ok(None),
        raw matches Some(text) ==> match json::parsed(text@) {
            None => rewritten matches Err(RelocateError::Unparsable { path, .. }) && path@ == path::joined(
                dir@,
                "snapshot.json"@,
            ),
            Some(v) => rewritten matches Ok(Some(out)) && exists|w: serde_json::Value|
                out@ == #[trigger] json::pretty_text(w) && is_moved(dir@, present, v, w),
        },
{
    assert(shows_presence(*exists, present));
    if let Some(text) = raw {
        if let Some(v) = json::parsed(text@) {
            let out = rewritten->Ok_0->0;
            let w = choose|w: serde_json::Value| #[trigger]
                is_written(v, w, out@) && forall|present: spec_fn(Seq<char>) -> bool| #[trigger]
                    shows_presence(*exists, present) ==> is_relocated(dir@, present, v, w);
            assert(is_relocated(dir@, present, v, w));
            assert(out@ == json::pretty_text(w));
            assert forall|key: Seq<char>| #[trigger] json::members(w).contains_key(key) <==> json::members(v).contains_key(
                key,
            ) by {
                assert(json::members(w).dom().contains(key) == json::members(v).dom().contains(key));
            }
            assert forall|key: Seq<char>| json::members(v).contains_key(key) implies (if key == "vmstate"@ || key
                == "memory"@ {
                is_led_to(dir@, present, json::members(v)[key], #[trigger] json::members(w)[key])
            } else {
                json::members(w)[key] == json::members(v)[key]
            }) by {
                if let Some(s) = json::text_of(json::members(v)[key]) {
                    lemma_local_path(dir@, present, s);
                }
            }
            assert(is_moved(dir@, present, v, w));
        }
    }
}

} // verus!
