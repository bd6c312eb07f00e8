//! Choosing the profile whose displays are exactly the connected ones.

use crate::config::{
    output_entries, outputs_entry_at, outputs_len, profile_entries, profile_entry_at, profiles_len, Config,
    Profile,
};
use indexmap::IndexMap;
use vstd::prelude::*;

verus! {

/// The hardware identifiers that a profile expects.
pub open spec fn profile_ids(p: Profile) -> Set<Seq<char>> {
    Set::new(|x: Seq<char>| exists|j: int| 0 <= j < output_entries(p.outputs).len() && output_entries(p.outputs)[j].1 == x)
}

/// The strings of a sequence, as a set.
pub open spec fn id_set(v: Seq<String>) -> Set<Seq<char>> {
    Set::new(|x: Seq<char>| exists|j: int| 0 <= j < v.len() && v[j]@ == x)
}

/// The positions, in order, of the catalog entries whose identifier set is
/// exactly `c`.
pub open spec fn matching_indices(cat: Seq<(Seq<char>, Profile)>, c: Set<Seq<char>>) -> Seq<int>
    decreases cat.len(),
{
    if cat.len() == 0 {
        Seq::empty()
    } else {
        let pre = matching_indices(cat.drop_last(), c);
        if profile_ids(cat.last().1) == c {
            pre.push(cat.len() - 1)
        } else {
            pre
        }
    }
}

/// The positions of the profiles of `cfg` that match the connected identifiers.
pub open spec fn catalog_matches(cfg: Config, current: Seq<String>) -> Seq<int> {
    matching_indices(profile_entries(cfg.profiles), id_set(current))
}

/// Why no single profile could be chosen.
#[derive(Clone, Debug)]
pub enum MatchError {
    /// Several profiles match the connected displays; their names, in
    /// catalog order.
    AmbiguousMatch(Vec<String>),
}

/// The names that an error reports.
pub open spec fn reported_names(e: MatchError) -> Seq<Seq<char>> {
    match e {
        MatchError::AmbiguousMatch(v) => v@.map_values(|s: String| s@),
    }
}

/// Whether `v` holds a string equal to `s`.
fn contains_str(v: &Vec<String>, s: &String) -> (r: bool)
    ensures
        r == exists|j: int| 0 <= j < v@.len() && v@[j]@ == s@,
{
    let mut i: usize = 0;
    while i < v.len()
        invariant
            i <= v@.len(),
            forall|j: int| 0 <= j < i ==> v@[j]@ != s@,
        decreases v@.len() - i,
    {
        if v[i] == *s {
            return true;
        }
        i = i + 1;
    }
    false
}

/// Whether some entry of the output map holds identifier `s`.
fn outputs_contain_id(m: &IndexMap<String, String>, s: &String) -> (r: bool)
    ensures
        r == exists|j: int| 0 <= j < output_entries(*m).len() && output_entries(*m)[j].1 == s@,
{
    let len = outputs_len(m);
    let mut i: usize = 0;
    while i < len
        invariant
            i <= len,
            len == output_entries(*m).len(),
            forall|j: int| 0 <= j < i ==> output_entries(*m)[j].1 != s@,
        decreases len - i,
    {
        let (_, id) = outputs_entry_at(m, i).unwrap();
        if *id == *s {
            return true;
        }
        i = i + 1;
    }
    false
}

/// Whether a profile's identifier set is exactly the set of `current`.
pub fn profile_matches(p: &Profile, current: &Vec<String>) -> (r: bool)
    ensures
        r == (profile_ids(*p) == id_set(current@)),
{
    let ghost entries = output_entries(p.outputs);
    let len = outputs_len(&p.outputs);
    // every expected identifier is connected
    let mut i: usize = 0;
    while i < len
        invariant
            i <= len,
            len == entries.len(),
            entries == output_entries(p.outputs),
            forall|j: int| 0 <= j < i ==> id_set(current@).contains(#[trigger] entries[j].1),
        decreases len - i,
    {
        let (_, id) = outputs_entry_at(&p.outputs, i).unwrap();
        if !contains_str(current, id) {
            assert(profile_ids(*p).contains(entries[i as int].1));
            assert(!id_set(current@).contains(entries[i as int].1));
            return false;
        }
        i = i + 1;
    }
    // every connected identifier is expected
    let mut k: usize = 0;
    while k < current.len()
        invariant
            k <= current@.len(),
            entries == output_entries(p.outputs),
            forall|j: int| 0 <= j < entries.len() ==> id_set(current@).contains(#[trigger] entries[j].1),
            forall|j: int| 0 <= j < k ==> profile_ids(*p).contains(#[trigger] current@[j]@),
        decreases current@.len() - k,
    {
        if !outputs_contain_id(&p.outputs, &current[k]) {
            assert(id_set(current@).contains(current@[k as int]@));
            assert(!profile_ids(*p).contains(current@[k as int]@));
            return false;
        }
        k = k + 1;
    }
    assert(profile_ids(*p) =~= id_set(current@)) by {
        assert forall|x: Seq<char>| id_set(current@).contains(x) implies profile_ids(*p).contains(x) by {
            let j = choose|j: int| 0 <= j < current@.len() && current@[j]@ == x;
            assert(profile_ids(*p).contains(current@[j]@));
        }
        assert forall|x: Seq<char>| profile_ids(*p).contains(x) implies id_set(current@).contains(x) by {
            let j = choose|j: int| 0 <= j < entries.len() && entries[j].1 == x;
            assert(id_set(current@).contains(entries[j].1));
        }
    }
    true
}

/// Every position that `matching_indices` gives lies below the catalog's
/// length, and the positions rise strictly.
proof fn lemma_matching_indices_sorted(cat: Seq<(Seq<char>, Profile)>, c: Set<Seq<char>>)
    ensures
        forall|a: int| 0 <= a < matching_indices(cat, c).len() ==> 0 <= #[trigger] matching_indices(cat, c)[a] < cat.len(),
        forall|a: int, b: int| 0 <= a < b < matching_indices(cat, c).len() ==> #[trigger] matching_indices(cat, c)[a] < #[trigger] matching_indices(cat, c)[b],
    decreases cat.len(),
{
    if cat.len() > 0 {
        lemma_matching_indices_sorted(cat.drop_last(), c);
        let pre = matching_indices(cat.drop_last(), c);
        let m = matching_indices(cat, c);
        assert forall|a: int| 0 <= a < m.len() implies 0 <= #[trigger] m[a] < cat.len() by {
            if a < pre.len() {
                assert(m[a] == pre[a]);
            }
        }
        assert forall|a: int, b: int| 0 <= a < b < m.len() implies #[trigger] m[a] < #[trigger] m[b] by {
            assert(m[a] == pre[a]);
            if b < pre.len() {
                assert(m[b] == pre[b]);
            }
        }
    }
}

/// The positions that match in a prefix of the catalog.
proof fn lemma_matching_indices_step(cat: Seq<(Seq<char>, Profile)>, c: Set<Seq<char>>, i: int)
    requires
        0 <= i < cat.len(),
    ensures
        matching_indices(cat.take(i + 1), c) == if profile_ids(cat[i].1) == c {
            matching_indices(cat.take(i), c).push(i)
        } else {
            matching_indices(cat.take(i), c)
        },
{
    assert(cat.take(i + 1).drop_last() =~= cat.take(i));
}

/// Exact match: a profile is among the matches if and only if its
/// identifier set equals the connected set; a subset or a superset of it
/// never matches.
pub proof fn lemma_match_is_exact(cat: Seq<(Seq<char>, Profile)>, c: Set<Seq<char>>, k: int)
    requires
        0 <= k < cat.len(),
    ensures
        matching_indices(cat, c).contains(k) <==> profile_ids(cat[k].1) == c,
    decreases cat.len(),
{
    lemma_matching_indices_sorted(cat.drop_last(), c);
    if k < cat.len() - 1 {
        lemma_match_is_exact(cat.drop_last(), c, k);
        let pre = matching_indices(cat.drop_last(), c);
        if profile_ids(cat.last().1) == c {
            assert(pre.push(cat.len() - 1).contains(k) <==> pre.contains(k)) by {
                let q = pre.push(cat.len() - 1);
                if q.contains(k) {
                    let a = choose|a: int| 0 <= a < q.len() && q[a] == k;
                    assert(a < pre.len());
                    assert(pre[a] == k);
                }
                if pre.contains(k) {
                    let a = choose|a: int| 0 <= a < pre.len() && pre[a] == k;
                    assert(pre.push(cat.len() - 1)[a] == k);
                }
            }
        }
    } else {
        let pre = matching_indices(cat.drop_last(), c);
        if profile_ids(cat.last().1) == c {
            assert(pre.push(cat.len() - 1)[pre.len() as int] == k);
        } else {
            if pre.contains(k) {
                let a = choose|a: int| 0 <= a < pre.len() && pre[a] == k;
                assert(pre[a] < cat.len() - 1);
            }
        }
    }
}

/// Exact match, selection: when exactly one profile of the catalog has the
/// connected set as its identifier set, it is the only match, and the only
/// match is such a profile.
pub proof fn lemma_single_match(cat: Seq<(Seq<char>, Profile)>, c: Set<Seq<char>>, k: int)
    requires
        0 <= k < cat.len(),
    ensures
        matching_indices(cat, c) == seq![k] <==> (profile_ids(cat[k].1) == c && forall|j: int|
            0 <= j < cat.len() && j != k ==> profile_ids(#[trigger] cat[j].1) != c),
{
    let m = matching_indices(cat, c);
    lemma_matching_indices_sorted(cat, c);
    lemma_match_is_exact(cat, c, k);
    if m == seq![k] {
        assert(m.contains(k)) by { assert(m[0] == k); }
        assert forall|j: int| 0 <= j < cat.len() && j != k implies profile_ids(#[trigger] cat[j].1) != c by {
            lemma_match_is_exact(cat, c, j);
            if m.contains(j) {
                let a = choose|a: int| 0 <= a < m.len() && m[a] == j;
            }
        }
    }
    if profile_ids(cat[k].1) == c && forall|j: int| 0 <= j < cat.len() && j != k ==> profile_ids(#[trigger] cat[j].1) != c {
        assert(m.contains(k));
        let a = choose|a: int| 0 <= a < m.len() && m[a] == k;
        assert forall|b: int| 0 <= b < m.len() implies m[b] == k by {
            lemma_match_is_exact(cat, c, m[b]);
            assert(m.contains(m[b]));
        }
        if m.len() > 1 {
            assert(m[0] < m[1]);
        }
        assert(m =~= seq![k]);
    }
}

/// Uniqueness: two profiles at different places of the catalog with the same
/// identifier set, equal to the connected set, make the match ambiguous,
/// wherever they stand in the catalog.
pub proof fn lemma_duplicate_profiles_ambiguous(cat: Seq<(Seq<char>, Profile)>, c: Set<Seq<char>>, i: int, j: int)
    requires
        0 <= i < cat.len(),
        0 <= j < cat.len(),
        i != j,
        profile_ids(cat[i].1) == profile_ids(cat[j].1),
        profile_ids(cat[i].1) == c,
    ensures
        matching_indices(cat, c).len() >= 2,
{
    let m = matching_indices(cat, c);
    lemma_match_is_exact(cat, c, i);
    lemma_match_is_exact(cat, c, j);
    let a = choose|a: int| 0 <= a < m.len() && m[a] == i;
    let b = choose|b: int| 0 <= b < m.len() && m[b] == j;
    assert(a != b);
}

/// The names reported for the matches of a catalog, in order.
pub open spec fn matching_names(cat: Seq<(Seq<char>, Profile)>, c: Set<Seq<char>>) -> Seq<Seq<char>> {
    matching_indices(cat, c).map_values(|k: int| cat[k].0)
}

/// A name is reported exactly when some profile under that name matches.
proof fn lemma_matching_names_exact(cat: Seq<(Seq<char>, Profile)>, c: Set<Seq<char>>, x: Seq<char>)
    ensures
        matching_names(cat, c).contains(x) <==> exists|k: int| 0 <= k < cat.len() && cat[k].0 == x && profile_ids(cat[k].1) == c,
{
    let m = matching_indices(cat, c);
    lemma_matching_indices_sorted(cat, c);
    if matching_names(cat, c).contains(x) {
        let a = choose|a: int| 0 <= a < m.len() && matching_names(cat, c)[a] == x;
        lemma_match_is_exact(cat, c, m[a]);
        assert(m.contains(m[a]));
    }
    if exists|k: int| 0 <= k < cat.len() && cat[k].0 == x && profile_ids(cat[k].1) == c {
        let k = choose|k: int| 0 <= k < cat.len() && cat[k].0 == x && profile_ids(cat[k].1) == c;
        lemma_match_is_exact(cat, c, k);
        let a = choose|a: int| 0 <= a < m.len() && m[a] == k;
        assert(matching_names(cat, c)[a] == x);
    }
}

/// Two distinct matching positions make the match ambiguous, and an
/// ambiguous match has two distinct matching positions.
proof fn lemma_ambiguous_iff_two(cat: Seq<(Seq<char>, Profile)>, c: Set<Seq<char>>)
    ensures
        matching_indices(cat, c).len() >= 2 <==> exists|a: int, b: int|
            0 <= a < cat.len() && 0 <= b < cat.len() && a != b && #[trigger] profile_ids(cat[a].1) == c
                && #[trigger] profile_ids(cat[b].1) == c,
{
    let m = matching_indices(cat, c);
    lemma_matching_indices_sorted(cat, c);
    if m.len() >= 2 {
        lemma_match_is_exact(cat, c, m[0]);
        lemma_match_is_exact(cat, c, m[1]);
        assert(m.contains(m[0]));
        assert(m.contains(m[1]));
        assert(m[0] < m[1]);
    }
    if exists|a: int, b: int|
        0 <= a < cat.len() && 0 <= b < cat.len() && a != b && #[trigger] profile_ids(cat[a].1) == c
            && #[trigger] profile_ids(cat[b].1) == c {
        let (a, b) = choose|a: int, b: int|
            0 <= a < cat.len() && 0 <= b < cat.len() && a != b && #[trigger] profile_ids(cat[a].1) == c
                && #[trigger] profile_ids(cat[b].1) == c;
        lemma_duplicate_profiles_ambiguous(cat, c, a, b);
    }
}

/// Uniqueness, whatever the order: a catalog holding the entries of another
/// in the order `perm` (a permutation of the positions) is ambiguous
/// exactly when the other is, and reports the same set of names.
pub proof fn lemma_match_order_independent(
    cat: Seq<(Seq<char>, Profile)>,
    reordered: Seq<(Seq<char>, Profile)>,
    perm: Seq<int>,
    c: Set<Seq<char>>,
)
    requires
        perm.len() == cat.len(),
        reordered.len() == cat.len(),
        forall|i: int| 0 <= i < perm.len() ==> 0 <= #[trigger] perm[i] < cat.len(),
        forall|i: int, j: int| 0 <= i < j < perm.len() ==> #[trigger] perm[i] != #[trigger] perm[j],
        forall|k: int| 0 <= k < cat.len() ==> #[trigger] perm.contains(k),
        forall|i: int| 0 <= i < perm.len() ==> #[trigger] reordered[i] == cat[perm[i]],
    ensures
        matching_indices(reordered, c).len() >= 2 <==> matching_indices(cat, c).len() >= 2,
        forall|x: Seq<char>| matching_names(reordered, c).contains(x) <==> #[trigger] matching_names(cat, c).contains(x),
{
    lemma_ambiguous_iff_two(cat, c);
    lemma_ambiguous_iff_two(reordered, c);
    if matching_indices(cat, c).len() >= 2 {
        let (a, b) = choose|a: int, b: int|
            0 <= a < cat.len() && 0 <= b < cat.len() && a != b && #[trigger] profile_ids(cat[a].1) == c
                && #[trigger] profile_ids(cat[b].1) == c;
        assert(perm.contains(a) && perm.contains(b));
        let i = choose|i: int| 0 <= i < perm.len() && #[trigger] perm[i] == a;
        let j = choose|j: int| 0 <= j < perm.len() && #[trigger] perm[j] == b;
        assert(reordered[i] == cat[perm[i]]);
        assert(reordered[j] == cat[perm[j]]);
        assert(profile_ids(reordered[i].1) == c && profile_ids(reordered[j].1) == c);
    }
    if matching_indices(reordered, c).len() >= 2 {
        let (a, b) = choose|a: int, b: int|
            0 <= a < reordered.len() && 0 <= b < reordered.len() && a != b && #[trigger] profile_ids(reordered[a].1) == c
                && #[trigger] profile_ids(reordered[b].1) == c;
        assert(reordered[a] == cat[perm[a]]);
        assert(reordered[b] == cat[perm[b]]);
        if a < b {
            assert(perm[a] != perm[b]);
        } else {
            assert(perm[b] != perm[a]);
        }
        assert(profile_ids(cat[perm[a]].1) == c && profile_ids(cat[perm[b]].1) == c);
    }
    assert forall|x: Seq<char>| matching_names(reordered, c).contains(x) <==> #[trigger] matching_names(cat, c).contains(x) by {
        lemma_matching_names_exact(cat, c, x);
        lemma_matching_names_exact(reordered, c, x);
        if exists|k: int| 0 <= k < cat.len() && cat[k].0 == x && profile_ids(cat[k].1) == c {
            let k = choose|k: int| 0 <= k < cat.len() && cat[k].0 == x && profile_ids(cat[k].1) == c;
            assert(perm.contains(k));
            let i = choose|i: int| 0 <= i < perm.len() && #[trigger] perm[i] == k;
            assert(reordered[i] == cat[perm[i]]);
        }
        if exists|k: int| 0 <= k < reordered.len() && reordered[k].0 == x && profile_ids(reordered[k].1) == c {
            let k = choose|k: int| 0 <= k < reordered.len() && reordered[k].0 == x && profile_ids(reordered[k].1) == c;
            assert(reordered[k] == cat[perm[k]]);
        }
    }
}

/// Finds the one profile whose identifier set is exactly the set of
/// `current_edids`. `Ok(None)` when none is; an error naming all of them
/// when several are.
pub fn find_matching_profile<'a>(cfg: &'a Config, current_edids: &Vec<String>) -> (r: Result<Option<(&'a String, &'a Profile)>, MatchError>)
    ensures
        (r is Ok && r.unwrap() is None) <==> catalog_matches(*cfg, current_edids@).len() == 0,
        (r is Ok && r.unwrap() is Some) <==> catalog_matches(*cfg, current_edids@).len() == 1,
        r is Err <==> catalog_matches(*cfg, current_edids@).len() >= 2,
        (r is Ok && r.unwrap() is Some) ==> r.unwrap().unwrap().0@ == profile_entries(cfg.profiles)[catalog_matches(*cfg, current_edids@)[0]].0
            && *r.unwrap().unwrap().1 == profile_entries(cfg.profiles)[catalog_matches(*cfg, current_edids@)[0]].1,
        r is Err ==> reported_names(r.unwrap_err()) == matching_names(profile_entries(cfg.profiles), id_set(current_edids@)),
{
    let ghost cat = profile_entries(cfg.profiles);
    let ghost c = id_set(current_edids@);
    let len = profiles_len(&cfg.profiles);
    let mut names: Vec<String> = Vec::new();
    let mut found: Option<(&'a String, &'a Profile)> = None;
    let mut i: usize = 0;
    while i < len
        invariant
            i <= len,
            len == cat.len(),
            cat == profile_entries(cfg.profiles),
            c == id_set(current_edids@),
            names@.len() == matching_indices(cat.take(i as int), c).len(),
            forall|a: int| 0 <= a < names@.len() ==> #[trigger] names@[a]@ == cat[matching_indices(cat.take(i as int), c)[a]].0,
            matching_indices(cat.take(i as int), c).len() == 0 <==> found is None,
            found is Some ==> found.unwrap().0@ == cat[matching_indices(cat.take(i as int), c)[0]].0
                && *found.unwrap().1 == cat[matching_indices(cat.take(i as int), c)[0]].1,
        decreases len - i,
    {
        proof {
            lemma_matching_indices_step(cat, c, i as int);
        }
        let (name, profile) = profile_entry_at(&cfg.profiles, i).unwrap();
        if profile_matches(profile, current_edids) {
            if found.is_none() {
                found = Some((name, profile));
            }
            names.push(name.clone());
        }
        i = i + 1;
    }
    assert(cat.take(i as int) =~= cat);
    if names.len() == 0 {
        Ok(None)
    } else if names.len() == 1 {
        Ok(found)
    } else {
        let ghost m = matching_indices(cat, c);
        let e = MatchError::AmbiguousMatch(names);
        assert(reported_names(e) =~= m.map_values(|k: int| cat[k].0));
        Err(e)
    }
}

} // verus!
