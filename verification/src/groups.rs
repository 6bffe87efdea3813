//! The engine's reading of a comma-separated group list, and its alt filter.
use vstd::prelude::*;
use crate::text::{chars_eq, chars_of, string_from_chars, ws_trim_chars, ws_trimmed};

verus! {

/// The pieces of `s` between commas, as `str::split(',')` gives them:
/// always at least one piece, empty pieces included.
pub open spec fn split_commas(s: Seq<char>) -> Seq<Seq<char>>
    decreases s.len(),
{
    if s.len() == 0 {
        seq![Seq::<char>::empty()]
    } else {
        let init = split_commas(s.drop_last());
        if s.last() == ',' {
            init.push(Seq::<char>::empty())
        } else {
            init.update(init.len() - 1, init.last().push(s.last()))
        }
    }
}

/// The pieces trimmed of White_Space, with the empty ones dropped.
pub open spec fn nonempty_trimmed(pieces: Seq<Seq<char>>) -> Seq<Seq<char>>
    decreases pieces.len(),
{
    if pieces.len() == 0 {
        Seq::<Seq<char>>::empty()
    } else {
        let init = nonempty_trimmed(pieces.drop_last());
        let t = ws_trimmed(pieces.last());
        if t.len() > 0 {
            init.push(t)
        } else {
            init
        }
    }
}

/// The entries of a comma-separated group list: split at commas, each
/// piece trimmed of White_Space, empty pieces dropped.
pub open spec fn listed_entries(s: Seq<char>) -> Seq<Seq<char>> {
    nonempty_trimmed(split_commas(s))
}

/// The views of a vector of character vectors.
pub open spec fn views(v: Seq<Vec<char>>) -> Seq<Seq<char>> {
    v.map_values(|x: Vec<char>| x@)
}

/// The views of a vector of strings.
pub open spec fn string_views(v: Seq<String>) -> Seq<Seq<char>> {
    v.map_values(|x: String| x@)
}

proof fn lemma_split_commas_nonempty(s: Seq<char>)
    ensures
        split_commas(s).len() >= 1,
    decreases s.len(),
{
    if s.len() > 0 {
        lemma_split_commas_nonempty(s.drop_last());
    }
}

/// The raw pieces of `s` between commas.
fn split_commas_exec(s: &[char]) -> (r: Vec<Vec<char>>)
    ensures
        views(r@) == split_commas(s@),
{
    let n = s.len();
    let mut done: Vec<Vec<char>> = Vec::new();
    let mut current: Vec<char> = Vec::new();
    let mut i: usize = 0;
    while i < n
        invariant
            n == s@.len(),
            i <= n,
            views(done@).push(current@) == split_commas(s@.take(i as int)),
        decreases n - i,
    {
        proof {
            lemma_split_commas_nonempty(s@.take(i as int));
            assert(s@.take(i + 1).drop_last() =~= s@.take(i as int));
        }
        let c = s[i];
        if c == ',' {
            let piece = current;
            done.push(piece);
            current = Vec::new();
            proof {
                assert(views(done@) =~= views(done@.drop_last()).push(piece@));
                assert(views(done@).push(current@) =~= split_commas(s@.take(i + 1)));
            }
        } else {
            current.push(c);
            proof {
                assert(views(done@).push(current@) =~= split_commas(s@.take(i + 1)));
            }
        }
        i = i + 1;
    }
    done.push(current);
    assert(s@.take(n as int) =~= s@);
    assert(views(done@) =~= views(done@.drop_last()).push(done@.last()@));
    done
}

/// The entries of the group list `s`.
pub fn listed_chars(s: &[char]) -> (r: Vec<Vec<char>>)
    ensures
        views(r@) == listed_entries(s@),
{
    let pieces = split_commas_exec(s);
    let n = pieces.len();
    let mut r: Vec<Vec<char>> = Vec::new();
    let mut i: usize = 0;
    while i < n
        invariant
            n == pieces@.len(),
            i <= n,
            views(pieces@) == split_commas(s@),
            views(r@) == nonempty_trimmed(views(pieces@).take(i as int)),
        decreases n - i,
    {
        let t = ws_trim_chars(pieces[i].as_slice());
        proof {
            assert(views(pieces@).take(i + 1).drop_last() =~= views(pieces@).take(i as int));
        }
        if t.len() > 0 {
            let ghost before = r@;
            r.push(t);
            assert(views(r@) =~= views(before).push(t@));
        }
        i = i + 1;
    }
    assert(views(pieces@).take(n as int) =~= views(pieces@));
    r
}

/// Split a comma-separated group list, dropping empty entries: the
/// engine's own reading of `rule.include` and `rule.exclude`.
pub fn listed(list: &str) -> (r: Vec<String>)
    ensures
        string_views(r@) == listed_entries(list@),
{
    let entries = listed_chars(chars_of(list).as_slice());
    let n = entries.len();
    let mut r: Vec<String> = Vec::new();
    let mut i: usize = 0;
    while i < n
        invariant
            n == entries@.len(),
            i <= n,
            string_views(r@) == views(entries@).take(i as int),
        decreases n - i,
    {
        let s = string_from_chars(entries[i].as_slice());
        let ghost before = r@;
        r.push(s);
        assert(string_views(r@) =~= string_views(before).push(s@));
        assert(views(entries@).take(i + 1) =~= views(entries@).take(i as int).push(entries@[i as int]@));
        i = i + 1;
    }
    assert(views(entries@).take(n as int) =~= views(entries@));
    r
}

/// Whether some entry of `wanted` is among `declared`.
pub open spec fn any_declared(declared: Seq<Seq<char>>, wanted: Seq<Seq<char>>) -> bool {
    exists|i: int| 0 <= i < wanted.len() && declared.contains(#[trigger] wanted[i])
}

/// The engine's alt filter: with neither list set every alt is enabled;
/// otherwise an alt must carry one of the included groups (when any are
/// listed) and none of the excluded ones.
pub open spec fn alt_enabled(alt_groups: Seq<char>, incl: Seq<char>, excl: Seq<char>) -> bool {
    if incl.len() == 0 && excl.len() == 0 {
        true
    } else {
        let declared = listed_entries(alt_groups);
        let included = listed_entries(incl).len() == 0 || any_declared(
            declared,
            listed_entries(incl),
        );
        included && !any_declared(declared, listed_entries(excl))
    }
}

/// Whether `entries` holds `wanted`.
fn holds(entries: &Vec<Vec<char>>, wanted: &Vec<char>) -> (r: bool)
    ensures
        r == views(entries@).contains(wanted@),
{
    let n = entries.len();
    let mut i: usize = 0;
    while i < n
        invariant
            n == entries@.len(),
            i <= n,
            forall|j: int| 0 <= j < i ==> entries@[j]@ != wanted@,
        decreases n - i,
    {
        if chars_eq(entries[i].as_slice(), wanted.as_slice()) {
            assert(views(entries@)[i as int] == wanted@);
            return true;
        }
        i = i + 1;
    }
    assert forall|j: int| 0 <= j < views(entries@).len() implies views(entries@)[j] != wanted@ by {
        assert(views(entries@)[j] == entries@[j]@);
    }
    false
}

/// Whether some entry of `wanted` is among `declared`.
fn any_declared_exec(declared: &Vec<Vec<char>>, wanted: &Vec<Vec<char>>) -> (r: bool)
    ensures
        r == any_declared(views(declared@), views(wanted@)),
{
    let n = wanted.len();
    let mut i: usize = 0;
    while i < n
        invariant
            n == wanted@.len(),
            i <= n,
            forall|j: int| 0 <= j < i ==> !views(declared@).contains(#[trigger] views(wanted@)[j]),
        decreases n - i,
    {
        if holds(declared, &wanted[i]) {
            assert(views(wanted@)[i as int] == wanted@[i as int]@);
            return true;
        }
        i = i + 1;
    }
    false
}

/// The engine's alt filter, as the parser applies it: with neither list
/// set every alt is enabled; otherwise an alt must carry one of the
/// included groups (when any are listed) and none of the excluded ones.
pub fn groups_enabled(alt_groups: &str, incl: &str, excl: &str) -> (r: bool)
    ensures
        r == alt_enabled(alt_groups@, incl@, excl@),
{
    let incl_chars = chars_of(incl);
    let excl_chars = chars_of(excl);
    if incl_chars.len() == 0 && excl_chars.len() == 0 {
        return true;
    }
    let declared = listed_chars(chars_of(alt_groups).as_slice());
    let incl_list = listed_chars(incl_chars.as_slice());
    let excl_list = listed_chars(excl_chars.as_slice());
    let included = incl_list.len() == 0 || any_declared_exec(&declared, &incl_list);
    included && !any_declared_exec(&declared, &excl_list)
}

} // verus!
