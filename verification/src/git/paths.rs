//! Portable slash-separated paths.

use crate::order::{ascending, lemma_to_set_push, views, OrderedSet};
use crate::text::{chars_of, has_prefix, split_on, text_between};
use vstd::prelude::*;

verus! {

/// A path without leading slashes.
pub open spec fn trim_front(path: Seq<char>) -> Seq<char>
    decreases path.len(),
{
    if path.len() > 0 && path[0] == '/' {
        trim_front(path.skip(1))
    } else {
        path
    }
}

/// A path without trailing slashes.
pub open spec fn trim_back(path: Seq<char>) -> Seq<char>
    decreases path.len(),
{
    if path.len() > 0 && path.last() == '/' {
        trim_back(path.drop_last())
    } else {
        path
    }
}

/// A path without slashes at either end.
pub open spec fn trimmed(path: Seq<char>) -> Seq<char> {
    trim_back(trim_front(path))
}

/// Whether `candidate` lies strictly below the directory `parent`.
pub open spec fn below(candidate: Seq<char>, parent: Seq<char>) -> bool {
    parent.is_prefix_of(candidate) && candidate.len() > parent.len() && candidate[parent.len() as int]
        == '/'
}

/// Number of components of a path.
pub open spec fn depth(path: Seq<char>) -> nat {
    split_on(path, '/').len()
}

/// Index of the first character that is no slash.
pub(crate) fn front_of(chars: &[char]) -> (r: usize)
    ensures
        r <= chars@.len(),
        chars@.skip(r as int) == trim_front(chars@),
{
    let mut start: usize = 0;
    assert(chars@.skip(0) =~= chars@);
    while start < chars.len() && chars[start] == '/'
        invariant
            start <= chars@.len(),
            trim_front(chars@.skip(start as int)) == trim_front(chars@),
        decreases chars@.len() - start,
    {
        assert(chars@.skip(start as int).skip(1) =~= chars@.skip(start + 1));
        start = start + 1;
    }
    start
}

/// Index past the last character that is no slash.
pub(crate) fn back_of(chars: &[char], start: usize) -> (r: usize)
    requires
        start <= chars@.len(),
    ensures
        start <= r <= chars@.len(),
        chars@.subrange(start as int, r as int) == trim_back(chars@.skip(start as int)),
{
    let mut end: usize = chars.len();
    assert(chars@.subrange(start as int, end as int) =~= chars@.skip(start as int));
    while end > start && chars[end - 1] == '/'
        invariant
            start <= end <= chars@.len(),
            trim_back(chars@.subrange(start as int, end as int)) == trim_back(
                chars@.skip(start as int),
            ),
        decreases end,
    {
        assert(chars@.subrange(start as int, end as int).drop_last() =~= chars@.subrange(
            start as int,
            end - 1,
        ));
        end = end - 1;
    }
    end
}

/// Removes slashes at either end.
pub fn trim_slashes(path: &str) -> (r: String)
    ensures
        r@ == trimmed(path@),
{
    let chars = chars_of(path);
    let start = front_of(chars.as_slice());
    let end = back_of(chars.as_slice(), start);
    text_between(chars.as_slice(), start, end)
}

/// Removes leading slashes.
pub fn trim_leading_slashes(path: &str) -> (r: String)
    ensures
        r@ == trim_front(path@),
{
    let chars = chars_of(path);
    let start = front_of(chars.as_slice());
    assert(chars@.subrange(start as int, chars@.len() as int) =~= chars@.skip(start as int));
    text_between(chars.as_slice(), start, chars.len())
}

/// Tells whether `candidate` lies strictly below the directory `parent`.
pub fn is_path_below(candidate: &str, parent: &str) -> (r: bool)
    ensures
        r == below(candidate@, parent@),
{
    let inner = chars_of(candidate);
    let outer = chars_of(parent);
    has_prefix(inner.as_slice(), outer.as_slice()) && inner.len() > outer.len()
        && inner[outer.len()] == '/'
}

/// Counts the separators of a path, one fewer than its components.
pub fn path_separators(path: &str) -> (r: usize)
    ensures
        r + 1 == depth(path@),
{
    let chars = chars_of(path);
    let mut slashes: usize = 0;
    let mut i: usize = 0;
    assert(chars@.take(0) =~= Seq::<char>::empty());
    while i < chars.len()
        invariant
            i <= chars@.len(),
            slashes <= i,
            slashes + 1 == split_on(chars@.take(i as int), '/').len(),
        decreases chars@.len() - i,
    {
        proof {
            let next = chars@.take(i + 1);
            assert(next.drop_last() =~= chars@.take(i as int));
        }
        if chars[i] == '/' {
            slashes = slashes + 1;
        }
        i = i + 1;
    }
    assert(chars@.take(i as int) =~= chars@);
    slashes
}

/// Tracked paths that one path specification selects, or the path itself.
pub open spec fn selected(spec_path: Seq<char>, catalog: Set<Seq<char>>) -> Set<Seq<char>> {
    let path = trimmed(spec_path);
    let matched = catalog.filter(|t: Seq<char>| t == path || below(t, path));
    if matched == Set::<Seq<char>>::empty() && path.len() > 0 {
        set![path]
    } else {
        matched
    }
}

/// Everything that a list of path specifications selects.
pub open spec fn selection(paths: Seq<Seq<char>>, catalog: Set<Seq<char>>) -> Set<Seq<char>>
    decreases paths.len(),
{
    if paths.len() == 0 {
        Set::empty()
    } else {
        selection(paths.drop_last(), catalog).union(selected(paths.last(), catalog))
    }
}

/// Expands path specifications over the tracked paths, in ascending order.
pub fn expand_pathspecs(paths: &[String], catalog: &OrderedSet<String>) -> (r: Vec<String>)
    ensures
        views(r@) == ascending::<String>(selection(views(paths@), catalog@)),
{
    let ghost specs = views(paths@);
    let ghost known = ascending::<String>(catalog@);
    let count = catalog.len();
    let mut expanded: OrderedSet<String> = OrderedSet::new();
    let mut i: usize = 0;
    while i < paths.len()
        invariant
            i <= paths@.len(),
            specs == views(paths@),
            known == ascending::<String>(catalog@),
            expanded@ == selection(specs.take(i as int), catalog@),
            count == known.len(),
            known.to_set() == catalog@,
        decreases paths@.len() - i,
    {
        let path = trim_slashes(paths[i].as_str());
        let ghost base = expanded@;
        let ghost wanted = |t: Seq<char>| t == path@ || below(t, path@);
        let mut matched = false;
        let mut j: usize = 0;
        assert(known.take(0).to_set().filter(wanted) =~= Set::<Seq<char>>::empty());
        assert(base.union(Set::<Seq<char>>::empty()) =~= base);
        while j < count
            invariant
                j <= known.len(),
                known == ascending::<String>(catalog@),
                count == known.len(),
                wanted == (|t: Seq<char>| t == path@ || below(t, path@)),
                expanded@ == base.union(known.take(j as int).to_set().filter(wanted)),
                matched == (known.take(j as int).to_set().filter(wanted) != Set::<
                    Seq<char>,
                >::empty()),
            decreases known.len() - j,
        {
            let candidate = catalog.at(j);
            proof {
                let now = known.take(j as int).to_set().filter(wanted);
                let next = known.take(j + 1).to_set().filter(wanted);
                assert(known.take(j + 1) =~= known.take(j as int).push(known[j as int]));
                lemma_to_set_push(known.take(j as int), known[j as int]);
                if wanted(known[j as int]) {
                    assert(next =~= now.insert(known[j as int]));
                    assert(next.contains(known[j as int]));
                    assert(base.union(now).insert(known[j as int]) =~= base.union(next));
                } else {
                    assert(next =~= now);
                }
            }
            if crate::text::text_is(candidate.as_str(), path.as_str()) || is_path_below(
                candidate.as_str(),
                path.as_str(),
            ) {
                expanded.insert(candidate.clone());
                matched = true;
            }
            j = j + 1;
        }
        proof {
            assert(known.take(j as int) =~= known);
            assert(known.to_set().filter(wanted) =~= catalog@.filter(wanted));
            assert(specs.take(i + 1).drop_last() =~= specs.take(i as int));
            assert(specs.take(i + 1).last() == specs[i as int]);
            let all = catalog@.filter(wanted);
            let spec_path = specs[i as int];
            assert(all =~= catalog@.filter(
                |t: Seq<char>| t == trimmed(spec_path) || below(t, trimmed(spec_path)),
            ));
            if all == Set::<Seq<char>>::empty() {
                assert(base.union(all) =~= base);
                assert(base.union(set![path@]) =~= base.insert(path@));
            }
        }
        if !matched && !path.as_str().is_empty() {
            expanded.insert(path);
        }
        i = i + 1;
    }
    assert(specs.take(i as int) =~= specs);
    expanded.to_vec()
}

} // verus!
