//! Glob patterns over paths.

use vstd::prelude::*;

use crate::text::{ends, lemma_texts_push, strip_suffix, texts};

verus! {

/// What a glob pattern says of a path by `globset`: whether it matches, or the text of the error
/// where the pattern is none.
pub uninterp spec fn glob_result(pattern: Seq<char>, path: Seq<char>) -> Result<bool, Seq<char>>;

/// The contents of what `glob_match` returns.
pub open spec fn glob_view(r: Result<bool, String>) -> Result<bool, Seq<char>> {
    match r {
        Ok(b) => Ok(b),
        Err(e) => Err(e@),
    }
}

/// `is_match` of the `globset::GlobSet` that holds one `Glob::new(pattern)`, by its name.
#[verifier::external_body]
fn glob_match(pattern: &str, path: &str) -> (r: Result<bool, String>)
    ensures
        glob_view(r) == glob_result(pattern@, path@),
{
    let glob = globset::Glob::new(pattern).map_err(|e| e.to_string())?;
    let set = globset::GlobSetBuilder::new().add(glob).build().map_err(|e| e.to_string())?;
    Ok(set.is_match(path))
}

/// What the patterns of a set say of a path.
pub open spec fn glob_results(patterns: Seq<Seq<char>>, path: Seq<char>) -> Seq<
    Result<bool, Seq<char>>,
> {
    Seq::new(patterns.len(), |i: int| glob_result(patterns[i], path))
}

/// The contents of a list of results.
pub open spec fn glob_views(v: Seq<Result<bool, String>>) -> Seq<Result<bool, Seq<char>>> {
    Seq::new(v.len(), |i: int| glob_view(v[i]))
}

/// The error of the first pattern that is none.
pub open spec fn first_invalid(results: Seq<Result<bool, Seq<char>>>) -> Option<Seq<char>>
    decreases results.len(),
{
    if results.len() == 0 {
        None
    } else {
        match first_invalid(results.drop_last()) {
            Some(e) => Some(e),
            None => match results.last() {
                Ok(_) => None,
                Err(e) => Some(e),
            },
        }
    }
}

/// What a set says whose patterns say this: that one of them matches, where all of them are patterns;
/// else the error of the first that is none.
pub open spec fn combined(results: Seq<Result<bool, Seq<char>>>) -> Result<bool, Seq<char>> {
    match first_invalid(results) {
        Some(e) => Err(e),
        None => Ok(results.contains(Ok::<bool, Seq<char>>(true))),
    }
}

/// Whether a set of patterns matches a path.
pub open spec fn set_result(patterns: Seq<Seq<char>>, path: Seq<char>) -> Result<bool, Seq<char>> {
    combined(glob_results(patterns, path))
}

/// Finds what a set says, from what its patterns say.
pub fn combine_results(results: &Vec<Result<bool, String>>) -> (r: Result<bool, String>)
    ensures
        glob_view(r) == combined(glob_views(results@)),
{
    let ghost all = glob_views(results@);
    let mut hit: bool = false;
    let mut i: usize = 0;
    proof {
        assert(all.take(0) =~= Seq::<Result<bool, Seq<char>>>::empty());
    }
    while i < results.len()
        invariant
            i <= results@.len(),
            all == glob_views(results@),
            first_invalid(all.take(i as int)) is None,
            hit == exists|k: int| 0 <= k < i && #[trigger] all[k] == Ok::<bool, Seq<char>>(true),
        decreases results@.len() - i,
    {
        proof {
            assert(all[i as int] == glob_view(results@[i as int]));
            assert(all.take(i + 1).drop_last() =~= all.take(i as int));
            assert(all.take(i + 1).last() == all[i as int]);
        }
        match &results[i] {
            Ok(b) => {
                if *b {
                    hit = true;
                }
            },
            Err(e) => {
                proof {
                    lemma_first_invalid(all, i + 1);
                }
                return Err(e.clone());
            },
        }
        i += 1;
    }
    proof {
        assert(all.take(all.len() as int) =~= all);
        if hit {
            let k = choose|k: int|
                0 <= k < all.len() && #[trigger] all[k] == Ok::<bool, Seq<char>>(true);
            assert(all.contains(all[k]));
        }
    }
    Ok(hit)
}

proof fn lemma_first_invalid(results: Seq<Result<bool, Seq<char>>>, i: int)
    requires
        0 <= i <= results.len(),
        first_invalid(results.take(i)) is Some,
    ensures
        first_invalid(results) == first_invalid(results.take(i)),
    decreases results.len(),
{
    if i < results.len() {
        assert(results.drop_last().take(i) =~= results.take(i));
        lemma_first_invalid(results.drop_last(), i);
    } else {
        assert(results.take(i) =~= results);
    }
}

/// Whether a set of patterns matches a path.
pub fn match_any(patterns: &Vec<String>, path: &str) -> (r: Result<bool, String>)
    ensures
        glob_view(r) == set_result(texts(patterns@), path@),
{
    let ghost all = texts(patterns@);
    let mut results: Vec<Result<bool, String>> = Vec::new();
    let mut i: usize = 0;
    while i < patterns.len()
        invariant
            i <= patterns@.len(),
            all == texts(patterns@),
            glob_views(results@) == glob_results(all, path@).take(i as int),
        decreases patterns@.len() - i,
    {
        let ghost before = results@;
        let result = glob_match(patterns[i].as_str(), path);
        results.push(result);
        proof {
            let named = glob_results(all, path@);
            assert(named[i as int] == glob_result(patterns@[i as int]@, path@));
            assert(glob_views(results@) =~= glob_views(before).push(glob_view(result)));
            assert(named.take(i + 1) =~= named.take(i as int).push(named[i as int]));
        }
        i += 1;
    }
    proof {
        assert(glob_results(all, path@).take(all.len() as int) =~= glob_results(all, path@));
    }
    combine_results(&results)
}

/// A pattern's own directory, where it stands for all that lies in one.
pub open spec fn exact_variant(p: Seq<char>) -> Option<Seq<char>> {
    if ends(p, "/*"@) {
        Some(p.take(p.len() - 2))
    } else if ends(p, "/**"@) {
        Some(p.take(p.len() - 3))
    } else {
        None
    }
}

/// The patterns, each followed by its own directory where it stands for all that lies in one.
pub open spec fn with_variants(patterns: Seq<Seq<char>>) -> Seq<Seq<char>>
    decreases patterns.len(),
{
    if patterns.len() == 0 {
        patterns
    } else {
        let r = with_variants(patterns.drop_last()).push(patterns.last());
        match exact_variant(patterns.last()) {
            Some(v) => r.push(v),
            None => r,
        }
    }
}

/// Adds to each pattern for the contents of a directory a pattern for the directory itself.
pub fn expand_patterns(patterns: &Vec<String>) -> (r: Vec<String>)
    ensures
        texts(r@) == with_variants(texts(patterns@)),
{
    let ghost all = texts(patterns@);
    let mut out: Vec<String> = Vec::new();
    let mut i: usize = 0;
    proof {
        reveal_strlit("/*");
        reveal_strlit("/**");
        assert(all.take(0) =~= Seq::<Seq<char>>::empty());
        assert(texts(out@) =~= Seq::<Seq<char>>::empty());
    }
    while i < patterns.len()
        invariant
            i <= patterns@.len(),
            all == texts(patterns@),
            texts(out@) == with_variants(all.take(i as int)),
            "/*"@.len() == 2,
            "/**"@.len() == 3,
        decreases patterns@.len() - i,
    {
        proof {
            assert(all.take(i + 1).drop_last() =~= all.take(i as int));
            assert(all.take(i + 1).last() == patterns@[i as int]@);
            lemma_texts_push(out@, patterns@[i as int]);
        }
        let p = patterns[i].as_str();
        out.push(patterns[i].clone());
        let exact: Option<&str> = match strip_suffix(p, "/*") {
            Some(e) => Some(e),
            None => strip_suffix(p, "/**"),
        };
        if let Some(e) = exact {
            let owned = e.to_owned();
            proof {
                lemma_texts_push(out@, owned);
            }
            out.push(owned);
        }
        i += 1;
    }
    proof {
        assert(all.take(all.len() as int) =~= all);
    }
    out
}

} // verus!
