//! The standard library's files.

use vstd::prelude::*;

use crate::glob::{match_any, set_result};
use crate::path::{path_join, path_joined};
use crate::text::{lemma_texts_push, texts};

verus! {

/// How many directories above the toolchain's executable are searched for the library's source.
pub const MAX_SOURCE_SEARCH_ANCESTORS: usize = 5;

/// The patterns of the files that are not part of the standard library.
pub open spec fn excluded_patterns() -> Seq<Seq<char>> {
    seq![
        ".gitignore"@,
        "**/.gitignore"@,
        "**/*.log"@,
        "**/*.layout.json"@,
        "**/test"@,
        "**/test/**"@,
    ]
}

/// The patterns of the files that are not part of the standard library.
fn excluded() -> (r: Vec<String>)
    ensures
        texts(r@) == excluded_patterns(),
{
    let mut v: Vec<String> = Vec::new();
    v.push(".gitignore".to_owned());
    v.push("**/.gitignore".to_owned());
    v.push("**/*.log".to_owned());
    v.push("**/*.layout.json".to_owned());
    v.push("**/test".to_owned());
    v.push("**/test/**".to_owned());
    proof {
        assert(texts(v@) =~= excluded_patterns());
    }
    v
}

/// Whether a path, relative to the library's root, is part of the standard library: no pattern
/// excludes it.
pub fn include_path(path: &str) -> (r: bool)
    ensures
        r == (set_result(excluded_patterns(), path@) != Ok::<bool, Seq<char>>(true)),
{
    let patterns = excluded();
    match match_any(&patterns, path) {
        Ok(hit) => !hit,
        Err(_) => true,
    }
}

/// The directories in which the library's source may lie: `lib/std` below the executable's path and
/// the directories above it, nearest first.
pub open spec fn source_candidates_of(ancestors: Seq<Seq<char>>) -> Seq<Seq<char>> {
    Seq::new(
        if ancestors.len() < MAX_SOURCE_SEARCH_ANCESTORS {
            ancestors.len()
        } else {
            MAX_SOURCE_SEARCH_ANCESTORS as nat
        },
        |i: int| path_joined(ancestors[i], "lib/std"@),
    )
}

/// The directories in which the library's source may lie, nearest first.
pub fn source_candidates(exe: &str) -> (r: Vec<String>)
    ensures
        texts(r@) == source_candidates_of(crate::path::ancestors_of(exe@)),
{
    let dirs = crate::path::ancestors(exe);
    let ghost all = texts(dirs@);
    let mut out: Vec<String> = Vec::new();
    let mut i: usize = 0;
    while i < dirs.len() && i < MAX_SOURCE_SEARCH_ANCESTORS
        invariant
            i <= dirs@.len(),
            i <= MAX_SOURCE_SEARCH_ANCESTORS,
            all == texts(dirs@),
            texts(out@) == source_candidates_of(all).take(i as int),
        decreases dirs@.len() - i,
    {
        let c = path_join(dirs[i].as_str(), "lib/std");
        proof {
            lemma_texts_push(out@, c);
            assert(source_candidates_of(all).take(i + 1) =~= source_candidates_of(all).take(
                i as int,
            ).push(c@));
        }
        out.push(c);
        i += 1;
    }
    proof {
        assert(source_candidates_of(all).take(i as int) =~= source_candidates_of(all));
    }
    out
}

/// The place of the first answer that is yes, or the number of answers.
pub open spec fn first_yes(answers: Seq<bool>) -> int
    decreases answers.len(),
{
    if answers.len() == 0 || answers[0] {
        0
    } else {
        1 + first_yes(answers.skip(1))
    }
}

proof fn lemma_first_yes(answers: Seq<bool>, k: int)
    requires
        0 <= k <= answers.len(),
        forall|i: int| 0 <= i < k ==> !(#[trigger] answers[i]),
        k < answers.len() ==> answers[k],
    ensures
        first_yes(answers) == k,
    decreases k,
{
    if k > 0 {
        let t = answers.skip(1);
        assert(!answers[0]);
        assert forall|i: int| 0 <= i < k - 1 implies !(#[trigger] t[i]) by {
            assert(t[i] == answers[i + 1]);
        }
        lemma_first_yes(t, k - 1);
    }
}

/// Finds the library that came with a program: the nearest directory that holds its manifest.
/// `has_manifest` says of each directory in which the library may lie whether it does.
pub fn discover_source_from_exe(exe: &str, has_manifest: &Vec<bool>) -> (r: Result<String, String>)
    requires
        has_manifest@.len() == source_candidates_of(crate::path::ancestors_of(exe@)).len(),
    ensures
        ({
            let candidates = source_candidates_of(crate::path::ancestors_of(exe@));
            let k = first_yes(has_manifest@);
            match r {
                Ok(dir) => k < candidates.len() && dir@ == candidates[k],
                Err(e) => k == candidates.len() && e@ == "could not find stdlib source next to "@
                    + exe@ + "; expected an ancestor containing lib/std/pcb.toml"@,
            }
        }),
{
    let candidates = source_candidates(exe);
    let mut i: usize = 0;
    while i < has_manifest.len()
        invariant
            i <= has_manifest@.len(),
            texts(candidates@) == source_candidates_of(crate::path::ancestors_of(exe@)),
            has_manifest@.len() == texts(candidates@).len(),
            forall|k: int| 0 <= k < i ==> !(#[trigger] has_manifest@[k]),
        decreases has_manifest@.len() - i,
    {
        if has_manifest[i] {
            proof {
                lemma_first_yes(has_manifest@, i as int);
                assert(texts(candidates@)[i as int] == candidates@[i as int]@);
            }
            return Ok(candidates[i].clone());
        }
        i += 1;
    }
    proof {
        lemma_first_yes(has_manifest@, i as int);
    }
    let mut message = "could not find stdlib source next to ".to_owned();
    message.append(exe);
    message.append("; expected an ancestor containing lib/std/pcb.toml");
    Err(message)
}

/// A file of the library: its path and its contents.
pub struct StdlibFile {
    pub path: String,
    pub contents: Vec<u8>,
}

/// Whether two lists of bytes are the same.
fn same_bytes(a: &Vec<u8>, b: &Vec<u8>) -> (r: bool)
    ensures
        r == (a@ == b@),
{
    if a.len() != b.len() {
        return false;
    }
    let mut i: usize = 0;
    while i < a.len()
        invariant
            i <= a.len(),
            a.len() == b.len(),
            forall|k: int| 0 <= k < i ==> a@[k] == b@[k],
        decreases a.len() - i,
    {
        if a[i] != b[i] {
            return false;
        }
        i += 1;
    }
    proof {
        assert(a@ =~= b@);
    }
    true
}

/// Whether the files of a source and those that were copied from it, both in the order of their
/// paths, have the same paths and the same contents.
pub fn source_matches_target(a: &Vec<StdlibFile>, b: &Vec<StdlibFile>) -> (r: bool)
    ensures
        r == (a@.len() == b@.len() && forall|i: int|
            0 <= i < a@.len() ==> crate::path::same_path((#[trigger] a@[i]).path@, b@[i].path@)
                && a@[i].contents@ == b@[i].contents@),
{
    if a.len() != b.len() {
        return false;
    }
    let mut i: usize = 0;
    while i < a.len()
        invariant
            i <= a.len(),
            a.len() == b.len(),
            forall|k: int|
                0 <= k < i ==> crate::path::same_path((#[trigger] a@[k]).path@, b@[k].path@)
                    && a@[k].contents@ == b@[k].contents@,
        decreases a.len() - i,
    {
        if !crate::path::path_eq(a[i].path.as_str(), b[i].path.as_str()) || !same_bytes(
            &a[i].contents,
            &b[i].contents,
        ) {
            return false;
        }
        i += 1;
    }
    true
}

} // verus!
