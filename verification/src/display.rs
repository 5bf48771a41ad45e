use vstd::prelude::*;

verus! {

/// `pre` is a path-component prefix of `p`: either the whole of `p`, or a
/// leading part of it that ends exactly at a `/` separator.
pub open spec fn spec_is_path_prefix(pre: Seq<char>, p: Seq<char>) -> bool {
    pre.len() <= p.len() && p.take(pre.len() as int) == pre && (p.len() == pre.len()
        || p[pre.len() as int] == '/')
}

/// What remains of `p` after its prefix `pre` and the separator are removed.
pub open spec fn spec_rest_after(pre: Seq<char>, p: Seq<char>) -> Seq<char> {
    if p.len() == pre.len() {
        Seq::<char>::empty()
    } else {
        p.skip(pre.len() as int + 1)
    }
}

/// The substitution made by the first alias whose path prefix matches,
/// if any does. `aliases` holds `(prefix, alias)` pairs, searched in order.
pub open spec fn spec_alias_abbrev(
    p: Seq<char>,
    aliases: Seq<(Seq<char>, Seq<char>)>,
) -> Option<Seq<char>>
    decreases aliases.len(),
{
    if aliases.len() > 0 {
        if spec_is_path_prefix(aliases[0].0, p) {
            Some(seq!['['] + aliases[0].1 + seq![']', '/'] + spec_rest_after(aliases[0].0, p))
        } else {
            spec_alias_abbrev(p, aliases.drop_first())
        }
    } else {
        None
    }
}

/// The display string before truncation: the first alias whose path prefix
/// matches wins; otherwise the home directory is abbreviated to `~`;
/// otherwise the path is shown as it is.
pub open spec fn spec_abbreviated(
    p: Seq<char>,
    home: Option<Seq<char>>,
    aliases: Seq<(Seq<char>, Seq<char>)>,
) -> Seq<char> {
    match spec_alias_abbrev(p, aliases) {
        Some(d) => d,
        None => match home {
            Some(h) => if spec_is_path_prefix(h, p) {
                seq!['~', '/'] + spec_rest_after(h, p)
            } else {
                p
            },
            None => p,
        },
    }
}

/// A display string longer than `max_width` keeps only its tail, behind a
/// single ellipsis character; the tail is budgeted so that an ASCII result
/// stays within `max_width` bytes even though the ellipsis itself takes
/// three bytes.
pub open spec fn spec_truncated(d: Seq<char>, max_width: int) -> Seq<char> {
    if d.len() <= max_width {
        d
    } else {
        let keep = if max_width >= 3 {
            max_width - 3
        } else {
            0
        };
        seq!['…'] + d.skip(d.len() - keep)
    }
}

/// The full display formatting: abbreviation by alias or home prefix,
/// then truncation to the display width.
pub open spec fn spec_format_path(
    p: Seq<char>,
    home: Option<Seq<char>>,
    aliases: Seq<(Seq<char>, Seq<char>)>,
    max_width: int,
) -> Seq<char> {
    spec_truncated(spec_abbreviated(p, home, aliases), max_width)
}

/// Decides `spec_is_path_prefix` on character sequences.
pub fn is_path_prefix(pre: &str, p: &str) -> (b: bool)
    ensures
        b == spec_is_path_prefix(pre@, p@),
{
    let pl = pre.unicode_len();
    let l = p.unicode_len();
    if pl > l {
        assert(!spec_is_path_prefix(pre@, p@));
        return false;
    }
    let mut i: usize = 0;
    while i < pl
        invariant
            0 <= i <= pl,
            pl == pre@.len(),
            l == p@.len(),
            pl <= l,
            forall|k: int| 0 <= k < i ==> p@[k] == pre@[k],
        decreases pl - i,
    {
        if p.get_char(i) != pre.get_char(i) {
            assert(p@.take(pl as int)[i as int] != pre@[i as int]);
            return false;
        }
        i = i + 1;
    }
    assert(p@.take(pl as int) =~= pre@);
    if l == pl {
        true
    } else {
        p.get_char(pl) == '/'
    }
}

fn rest_after<'a>(pre: &str, p: &'a str) -> (r: &'a str)
    requires
        spec_is_path_prefix(pre@, p@),
    ensures
        r@ == spec_rest_after(pre@, p@),
{
    let pl = pre.unicode_len();
    let l = p.unicode_len();
    if l == pl {
        let r = p.substring_char(l, l);
        assert(r@ =~= Seq::<char>::empty());
        r
    } else {
        let r = p.substring_char(pl + 1, l);
        assert(r@ =~= p@.skip(pl + 1));
        r
    }
}

fn alias_abbrev(path: &String, aliases: &Vec<(String, String)>) -> (r: Option<String>)
    ensures
        match r {
            Some(d) => spec_alias_abbrev(path@, aliases.deep_view()) == Some(d@),
            None => spec_alias_abbrev(path@, aliases.deep_view()) is None,
        },
{
    let mut i: usize = 0;
    proof {
        assert(aliases.deep_view().skip(0) =~= aliases.deep_view());
    }
    while i < aliases.len()
        invariant
            0 <= i <= aliases@.len(),
            spec_alias_abbrev(path@, aliases.deep_view()) == spec_alias_abbrev(
                path@,
                aliases.deep_view().skip(i as int),
            ),
        decreases aliases@.len() - i,
    {
        let (prefix, alias) = (&aliases[i].0, &aliases[i].1);
        assert(aliases.deep_view().skip(i as int)[0] == (prefix@, alias@));
        if is_path_prefix(prefix.as_str(), path.as_str()) {
            let rest = rest_after(prefix.as_str(), path.as_str());
            let mut d = String::from_str("[");
            d.append(alias.as_str());
            d.append("]/");
            d.append(rest);
            proof {
                reveal_strlit("[");
                reveal_strlit("]/");
                assert("["@ =~= seq!['[']);
                assert("]/"@ =~= seq![']', '/']);
                assert(d@ =~= seq!['['] + alias@ + seq![']', '/'] + rest@);
                assert(aliases.deep_view().skip(i as int).len() > 0);
            }
            return Some(d);
        }
        proof {
            assert(aliases.deep_view().skip(i as int).drop_first() =~= aliases.deep_view().skip(
                i + 1,
            ));
        }
        i = i + 1;
    }
    assert(aliases.deep_view().skip(aliases@.len() as int) =~= Seq::<(
        Seq<char>,
        Seq<char>,
    )>::empty());
    None
}

/// Format a path for presentation: substitute the first matching alias as
/// `[alias]/rest`, else abbreviate the home directory to `~/rest`, then
/// truncate to `max_width` with a leading ellipsis if needed.
/// `aliases` holds `(prefix, alias)` pairs, searched in order.
pub fn format_path(
    path: &String,
    home_dir: &Option<String>,
    aliases: &Vec<(String, String)>,
    max_width: usize,
) -> (r: String)
    ensures
        r@ == spec_format_path(
            path@,
            match home_dir {
                Some(h) => Some(h@),
                None => None,
            },
            aliases.deep_view(),
            max_width as int,
        ),
{
    let display = alias_abbrev(path, aliases);
    let abbreviated: String = match display {
        Some(d) => d,
        None => {
            match home_dir {
                Some(home) => {
                    if is_path_prefix(home.as_str(), path.as_str()) {
                        let rest = rest_after(home.as_str(), path.as_str());
                        let mut d = String::from_str("~/");
                        d.append(rest);
                        proof {
                            reveal_strlit("~/");
                            assert("~/"@ =~= seq!['~', '/']);
                            assert(d@ == seq!['~', '/'] + rest@);
                        }
                        d
                    } else {
                        path.clone()
                    }
                },
                None => path.clone(),
            }
        },
    };
    let dlen = abbreviated.as_str().unicode_len();
    if dlen <= max_width {
        abbreviated
    } else {
        let keep: usize = if max_width >= 3 {
            max_width - 3
        } else {
            0
        };
        let suffix = abbreviated.as_str().substring_char(dlen - keep, dlen);
        let mut r = String::from_str("…");
        r.append(suffix);
        proof {
            reveal_strlit("…");
            assert("…"@ =~= seq!['…']);
            assert(suffix@ =~= abbreviated@.skip(dlen - keep));
            assert(r@ == seq!['…'] + abbreviated@.skip(dlen - keep));
        }
        r
    }
}

} // verus!
