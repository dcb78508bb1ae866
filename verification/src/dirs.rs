//! Choosing a device directory: network interfaces and batteries are found by
//! walking a directory of the system and taking the first entry that fits.
use vstd::prelude::*;
use crate::text::{
    chars_eq_str, chars_of, is_prefix, matches_at, string_of, sub_chars, trim, trim_str,
};

verus! {

/// The view of an optional string.
pub open spec fn opt_view(o: Option<String>) -> Option<Seq<char>> {
    match o {
        Some(s) => Some(s@),
        None => None,
    }
}

/// The last component of a path: what follows its last `/` (all of it if there
/// is none), as the last piece of `split("/")`.
pub open spec fn last_segment(s: Seq<char>) -> Seq<char>
    decreases s.len(),
{
    if s.len() == 0 {
        s
    } else if s.last() == '/' {
        seq![]
    } else {
        last_segment(s.drop_last()).push(s.last())
    }
}

/// The name of an entry holds no `/` and ends its path.
pub proof fn lemma_last_segment_is_name(s: Seq<char>)
    ensures
        last_segment(s).len() <= s.len(),
        s.skip(s.len() - last_segment(s).len()) == last_segment(s),
        forall|i: int| 0 <= i < last_segment(s).len() ==> #[trigger] last_segment(s)[i] != '/',
    decreases s.len(),
{
    if s.len() > 0 && s.last() != '/' {
        let t = s.drop_last();
        lemma_last_segment_is_name(t);
        let l = last_segment(t);
        assert(last_segment(s) == l.push(s.last()));
        assert(s.skip(s.len() - l.len() - 1) =~= l.push(s.last())) by {
            assert(t.skip(t.len() - l.len()) == l);
            assert forall|i: int| 0 <= i < l.len() implies s.skip(s.len() - l.len() - 1)[i] == l[i] by {
                assert(s.skip(s.len() - l.len() - 1)[i] == s[s.len() - l.len() - 1 + i]);
                assert(t.skip(t.len() - l.len())[i] == t[t.len() - l.len() + i]);
            }
        }
        assert forall|i: int| 0 <= i < l.len() + 1 implies #[trigger] l.push(s.last())[i] != '/' by {
            if i < l.len() {
                assert(l.push(s.last())[i] == l[i]);
            }
        }
    } else if s.len() > 0 {
        assert(s.skip(s.len() as int) == Seq::<char>::empty());
    } else {
        assert(s.skip(0) == s);
    }
}

/// The name of a directory entry from its path.
pub fn dir_name(path: &str) -> (name: String)
    ensures
        name@ == last_segment(path@),
{
    let v = chars_of(path);
    let n = v.len();
    let mut start: usize = n;
    assert(v@.take(n as int) == v@);
    assert(v@ + v@.skip(n as int) == v@);
    while start > 0 && v[start - 1] != '/'
        invariant
            n == v@.len(),
            0 <= start <= n,
            last_segment(v@) == last_segment(v@.take(start as int)) + v@.skip(start as int),
        decreases start,
    {
        proof {
            let t = v@.take(start as int);
            assert(t.drop_last() == v@.take(start - 1));
            assert(seq![t.last()] + v@.skip(start as int) == v@.skip(start - 1));
            assert(last_segment(t) == last_segment(t.drop_last()).push(t.last()));
            assert(last_segment(t.drop_last()).push(t.last()) + v@.skip(start as int)
                == last_segment(t.drop_last()) + (seq![t.last()] + v@.skip(start as int)));
        }
        start = start - 1;
    }
    assert(last_segment(v@.take(start as int)) == Seq::<char>::empty());
    assert(v@.take(n as int) == v@);
    let name = sub_chars(&v, start, n);
    assert(v@.skip(start as int) == v@.subrange(start as int, n as int));
    string_of(&name)
}

/// Whether a name is allowed by the prefixes: any name where there are none,
/// else a name that starts with one of them.
pub open spec fn has_allowed_prefix(name: Seq<char>, prefixes: Option<Seq<Seq<char>>>) -> bool {
    match prefixes {
        None => true,
        Some(ps) => starts_with_any(name, ps),
    }
}

/// Whether `name` starts with one of `ps`.
pub open spec fn starts_with_any(name: Seq<char>, ps: Seq<Seq<char>>) -> bool {
    exists|i: int| 0 <= i < ps.len() && is_prefix(#[trigger] ps[i], name)
}

/// The views of an optional list of strings.
pub open spec fn opt_views(o: Option<Vec<String>>) -> Option<Seq<Seq<char>>> {
    match o {
        Some(v) => Some(v@.map_values(|s: String| s@)),
        None => None,
    }
}

/// The name of the first entry, in the order given, whose name has an allowed
/// prefix and whose check passed.
pub open spec fn first_match(
    paths: Seq<Seq<char>>,
    prefixes: Option<Seq<Seq<char>>>,
    checks: Seq<bool>,
) -> Option<Seq<char>>
    decreases paths.len(),
{
    if paths.len() == 0 {
        None
    } else if has_allowed_prefix(last_segment(paths[0]), prefixes) && checks[0] {
        Some(last_segment(paths[0]))
    } else {
        first_match(paths.drop_first(), prefixes, checks.drop_first())
    }
}

/// Whether `name` has an allowed prefix.
pub fn name_has_allowed_prefix(name: &str, prefixes: &Option<Vec<String>>) -> (r: bool)
    ensures
        r == has_allowed_prefix(name@, opt_views(*prefixes)),
{
    match prefixes {
        None => true,
        Some(ps) => {
            let v = chars_of(name);
            assert(v@.skip(0) == v@);
            let ghost pv = ps@.map_values(|s: String| s@);
            let n = ps.len();
            let mut i: usize = 0;
            assert(opt_views(*prefixes) == Some(pv));
            while i < n
                invariant
                    n == ps@.len(),
                    opt_views(*prefixes) == Some(pv),
                    0 <= i <= n,
                    v@ == name@,
                    v@.skip(0) == v@,
                    pv == ps@.map_values(|s: String| s@),
                    forall|j: int| 0 <= j < i ==> !is_prefix(#[trigger] pv[j], name@),
                decreases n - i,
            {
                let p = chars_of(ps[i].as_str());
                assert(p@ == pv[i as int]);
                if matches_at(&v, 0, &p) {
                    assert(pv.len() == n);
                    assert(is_prefix(pv[i as int], name@));
                    assert(starts_with_any(name@, pv));
                    return true;
                }
                i = i + 1;
            }
            false
        },
    }
}

/// The name of the first directory entry that fits: of the entries' paths, in
/// the order the directory was read, the first whose name (the last path
/// component) starts with one of `prefixes` (any name where there are none) and
/// whose check in `checks`, taken at the same position, passed.
pub fn first_matching_dir(
    paths: &Vec<String>,
    prefixes: &Option<Vec<String>>,
    checks: &Vec<bool>,
) -> (r: Option<String>)
    requires
        paths@.len() == checks@.len(),
    ensures
        opt_view(r) == first_match(
            paths@.map_values(|s: String| s@),
            opt_views(*prefixes),
            checks@,
        ),
{
    let ghost all = paths@.map_values(|s: String| s@);
    let n = paths.len();
    let mut i: usize = 0;
    assert(all.skip(0) == all && checks@.skip(0) == checks@);
    while i < n
        invariant
            n == paths@.len() == checks@.len(),
            0 <= i <= n,
            all == paths@.map_values(|s: String| s@),
            first_match(all, opt_views(*prefixes), checks@) == first_match(
                all.skip(i as int),
                opt_views(*prefixes),
                checks@.skip(i as int),
            ),
        decreases n - i,
    {
        proof {
            assert(all.skip(i as int)[0] == paths@[i as int]@);
            assert(checks@.skip(i as int)[0] == checks@[i as int]);
            assert(all.skip(i as int).drop_first() == all.skip(i + 1));
            assert(checks@.skip(i as int).drop_first() == checks@.skip(i + 1));
        }
        let name = dir_name(paths[i].as_str());
        if name_has_allowed_prefix(name.as_str(), prefixes) && checks[i] {
            return Some(name);
        }
        i = i + 1;
    }
    None
}

/// The index of the first entry at or after `from` whose name has an allowed
/// prefix.
pub open spec fn next_candidate_from(
    paths: Seq<Seq<char>>,
    prefixes: Option<Seq<Seq<char>>>,
    from: int,
) -> Option<int>
    decreases paths.len() - from,
{
    if from < 0 || from >= paths.len() {
        None
    } else if has_allowed_prefix(last_segment(paths[from]), prefixes) {
        Some(from)
    } else {
        next_candidate_from(paths, prefixes, from + 1)
    }
}

/// The next entry to check, from `from` on: the index of the first entry at or
/// after `from` whose name starts with one of `prefixes` (any name where there
/// are none). Checking that entry and, where its check fails, going on from
/// the index after it chooses the same directory as `first_matching_dir`
/// (see `lemma_next_candidate_step`), while checking only the candidates up
/// to the first that passes.
pub fn next_candidate(paths: &Vec<String>, prefixes: &Option<Vec<String>>, from: usize) -> (r:
    Option<usize>)
    requires
        from <= paths@.len(),
    ensures
        match r {
            Some(j) => next_candidate_from(
                paths@.map_values(|s: String| s@),
                opt_views(*prefixes),
                from as int,
            ) == Some(j as int),
            None => next_candidate_from(
                paths@.map_values(|s: String| s@),
                opt_views(*prefixes),
                from as int,
            ) is None,
        },
{
    let ghost all = paths@.map_values(|s: String| s@);
    let n = paths.len();
    let mut i = from;
    while i < n
        invariant
            n == paths@.len(),
            from <= i <= n,
            all == paths@.map_values(|s: String| s@),
            next_candidate_from(all, opt_views(*prefixes), from as int) == next_candidate_from(
                all,
                opt_views(*prefixes),
                i as int,
            ),
        decreases n - i,
    {
        assert(all[i as int] == paths@[i as int]@);
        let name = dir_name(paths[i].as_str());
        if name_has_allowed_prefix(name.as_str(), prefixes) {
            return Some(i);
        }
        i = i + 1;
    }
    None
}

/// One step of the lazy search: from `from` on, the chosen directory is that of
/// the next candidate where its check passes, and otherwise the one chosen from
/// the index after that candidate; without a next candidate there is none.
pub proof fn lemma_next_candidate_step(
    paths: Seq<Seq<char>>,
    prefixes: Option<Seq<Seq<char>>>,
    checks: Seq<bool>,
    from: int,
)
    requires
        0 <= from <= paths.len(),
        checks.len() == paths.len(),
    ensures
        first_match(paths.skip(from), prefixes, checks.skip(from)) == match next_candidate_from(
            paths,
            prefixes,
            from,
        ) {
            None => None,
            Some(j) => if checks[j] {
                Some(last_segment(paths[j]))
            } else {
                first_match(paths.skip(j + 1), prefixes, checks.skip(j + 1))
            },
        },
    decreases paths.len() - from,
{
    if from < paths.len() {
        assert(paths.skip(from)[0] == paths[from]);
        assert(checks.skip(from)[0] == checks[from]);
        assert(paths.skip(from).drop_first() == paths.skip(from + 1));
        assert(checks.skip(from).drop_first() == checks.skip(from + 1));
        lemma_next_candidate_step(paths, prefixes, checks, from + 1);
    } else {
        assert(paths.skip(from).len() == 0);
    }
}

/// Whether the text of an `operstate` file says that the interface is up.
pub fn operstate_up(operstate: &str) -> (r: bool)
    ensures
        r == (trim(operstate@) == "up"@),
{
    let t = trim_str(operstate);
    chars_eq_str(&t, "up")
}

/// Whether a power supply directory is a battery: its `type` file says
/// `Battery` and it has both a capacity and a status file.
pub fn is_dir_battery(power_type: &str, has_capacity: bool, has_status: bool) -> (r: bool)
    ensures
        r == (trim(power_type@) == "Battery"@ && has_capacity && has_status),
{
    let t = trim_str(power_type);
    chars_eq_str(&t, "Battery") && has_capacity && has_status
}

} // verus!
