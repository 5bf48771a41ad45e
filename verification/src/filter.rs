use vstd::prelude::*;

use crate::display::spec_is_path_prefix;

verus! {

/// Whether `p` is a syntactically valid pattern: whether
/// `regex::Regex::new(p)` succeeds. A function of the pattern alone.
pub uninterp spec fn regex_valid(p: Seq<char>) -> bool;

/// Whether the pattern `p` matches somewhere in the text `t`, as
/// `regex::Regex::is_match` decides it. A function of pattern and text
/// alone.
pub uninterp spec fn regex_accepts(p: Seq<char>, t: Seq<char>) -> bool;

/// Relies on regex::Regex::new and regex::Regex::is_match: whether the
/// pattern compiles depends on the pattern alone, and whether it matches
/// depends on the pattern and the text alone; neither call panics.
#[verifier::external_body]
fn regex_try_match(pattern: &str, text: &str) -> (r: Option<bool>)
    ensures
        r is Some <==> regex_valid(pattern@),
        r matches Some(b) ==> b == regex_accepts(pattern@, text@),
{
    match regex::Regex::new(pattern) {
        Ok(re) => Some(re.is_match(text)),
        Err(_) => None,
    }
}

/// Whether a candidate path passes the filter: a valid pattern must match
/// it (an invalid or absent pattern passes everything), and under `prefix`
/// the path must lie under the current directory when one is known.
pub open spec fn spec_keeps(
    path: Seq<char>,
    pattern: Option<Seq<char>>,
    prefix: bool,
    cwd: Option<Seq<char>>,
) -> bool {
    (match pattern {
        Some(pt) => regex_valid(pt) ==> regex_accepts(pt, path),
        None => true,
    }) && (prefix ==> match cwd {
        Some(c) => spec_is_path_prefix(c, path),
        None => true,
    })
}

/// Keep the candidate paths that match the optional pattern and, when
/// `prefix` is set, lie under `cwd`. Order is preserved.
pub fn filter_paths(
    paths: Vec<String>,
    pattern: &Option<String>,
    prefix: bool,
    cwd: &Option<String>,
) -> (r: Vec<String>)
    ensures
        r.deep_view() == paths.deep_view().filter(
            |p: Seq<char>|
                spec_keeps(
                    p,
                    match pattern {
                        Some(pt) => Some(pt@),
                        None => None,
                    },
                    prefix,
                    match cwd {
                        Some(c) => Some(c@),
                        None => None,
                    },
                ),
        ),
{
    let ghost keeps = |p: Seq<char>|
        spec_keeps(
            p,
            match pattern {
                Some(pt) => Some(pt@),
                None => None,
            },
            prefix,
            match cwd {
                Some(c) => Some(c@),
                None => None,
            },
        );
    let mut out: Vec<String> = Vec::new();
    let mut i: usize = 0;
    proof {
        reveal_with_fuel(Seq::<Seq<char>>::filter, 2);
        assert(paths.deep_view().take(0) =~= Seq::<Seq<char>>::empty());
        assert(paths.deep_view().take(0).filter(keeps) =~= Seq::<Seq<char>>::empty());
    }
    while i < paths.len()
        invariant
            i <= paths.len(),
            out.deep_view() == paths.deep_view().take(i as int).filter(keeps),
            keeps == (|p: Seq<char>|
                spec_keeps(
                    p,
                    match pattern {
                        Some(pt) => Some(pt@),
                        None => None,
                    },
                    prefix,
                    match cwd {
                        Some(c) => Some(c@),
                        None => None,
                    },
                )),
        decreases paths.len() - i,
    {
        let keep_regex: bool = match pattern {
            Some(pt) => {
                match regex_try_match(pt.as_str(), paths[i].as_str()) {
                    Some(b) => b,
                    None => true,
                }
            },
            None => true,
        };
        let keep_prefix: bool = if prefix {
            match cwd {
                Some(c) => crate::display::is_path_prefix(c.as_str(), paths[i].as_str()),
                None => true,
            }
        } else {
            true
        };
        let ghost oldout = out.deep_view();
        if keep_regex && keep_prefix {
            out.push(paths[i].clone());
        }
        proof {
            let pre = paths.deep_view().take(i as int);
            assert(paths.deep_view().take(i + 1).drop_last() =~= pre);
            assert(paths.deep_view().take(i + 1).last() == paths.deep_view()[i as int]);
            reveal_with_fuel(Seq::<Seq<char>>::filter, 2);
            if keep_regex && keep_prefix {
                assert(keeps(paths.deep_view()[i as int]));
                assert(out.deep_view() =~= oldout.push(paths.deep_view()[i as int]));
            } else {
                assert(!keeps(paths.deep_view()[i as int]));
            }
        }
        i = i + 1;
    }
    proof {
        assert(paths.deep_view().take(paths.len() as int) =~= paths.deep_view());
    }
    out
}

} // verus!
