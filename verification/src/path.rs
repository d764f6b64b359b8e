//! Full paths: the path segments from the root of a tree down to a node,
//! joined by `/`.
use vstd::prelude::*;

verus! {

/// The segments in order, with one `/` between each two neighbours. Segments
/// are taken as they are: an empty one, or one that itself begins or ends in
/// `/`, is not mended, so that separators may come to stand side by side.
pub open spec fn joined(names: Seq<Seq<char>>) -> Seq<char>
    decreases names.len(),
{
    if names.len() == 0 {
        Seq::empty()
    } else if names.len() == 1 {
        names[0]
    } else {
        joined(names.drop_last()) + seq!['/'] + names.last()
    }
}

/// Two segments are joined by one `/` between them.
pub proof fn lemma_joined_two(outer: Seq<char>, inner: Seq<char>)
    ensures
        joined(seq![outer, inner]) == outer + seq!['/'] + inner,
{
    assert(seq![outer, inner].drop_last() =~= seq![outer]);
    assert(joined(seq![outer]) == outer);
}

/// A traversal carries the segments above a node in joined form, and nothing
/// as long as there are none: `path` stands for `names`.
pub open spec fn stands_for(path: Option<String>, names: Seq<Seq<char>>) -> bool {
    match path {
        None => names.len() == 0,
        Some(text) => names.len() > 0 && text@ == joined(names),
    }
}

/// The path one segment further down.
pub(crate) fn descend(
    path: &Option<String>,
    name: &str,
    Ghost(names): Ghost<Seq<Seq<char>>>,
) -> (longer: String)
    requires
        stands_for(*path, names),
    ensures
        longer@ == joined(names.push(name@)),
{
    proof {
        assert(names.push(name@).drop_last() =~= names);
    }
    match path {
        None => name.to_owned(),
        Some(text) => {
            let mut longer = text.clone();
            longer.append("/");
            longer.append(name);
            proof {
                reveal_strlit("/");
            }
            longer
        },
    }
}

/// The path as text: empty as long as there are no segments.
pub(crate) fn full(path: &Option<String>, Ghost(names): Ghost<Seq<Seq<char>>>) -> (text: String)
    requires
        stands_for(*path, names),
    ensures
        text@ == joined(names),
{
    match path {
        None => String::new(),
        Some(text) => text.clone(),
    }
}

/// The same path once more.
pub(crate) fn again(path: &Option<String>) -> (copy: Option<String>)
    ensures
        copy == *path,
{
    match path {
        None => None,
        Some(text) => Some(text.clone()),
    }
}

} // verus!
