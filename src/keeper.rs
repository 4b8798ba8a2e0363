use vstd::prelude::*;
use vstd::utf8::encode_utf8;

verus! {

/// The length of a path in bytes of UTF-8.
pub open spec fn byte_len(path: Seq<char>) -> nat {
    encode_utf8(path).len()
}

/// Whether position `k` holds the member to keep: one of minimum byte length, and
/// the first such in the group's order. Ties between paths of equal length are
/// settled by that order alone, which the group's construction does not fix.
pub open spec fn is_keeper(group: Seq<Seq<char>>, k: int) -> bool {
    &&& 0 <= k < group.len()
    &&& forall|j: int| 0 <= j < group.len() ==> byte_len(group[k]) <= byte_len(#[trigger] group[j])
    &&& forall|j: int| 0 <= j < k ==> byte_len(group[k]) < byte_len(#[trigger] group[j])
}

/// The paths of a list as sequences of characters.
pub open spec fn paths_view(paths: Seq<String>) -> Seq<Seq<char>> {
    paths.map_values(|p: String| p@)
}

/// Picks the member of a group to keep: the shortest path, the first on ties.
pub fn keeper_index(group: &Vec<String>) -> (k: usize)
    requires
        group@.len() > 0,
    ensures
        is_keeper(paths_view(group@), k as int),
{
    let ghost g = paths_view(group@);
    let mut best: usize = 0;
    let mut best_len: usize = group[0].as_str().as_bytes().len();
    let mut i: usize = 1;
    while i < group.len()
        invariant
            g == paths_view(group@),
            g.len() == group@.len(),
            1 <= i <= group@.len(),
            best < i,
            best_len == byte_len(g[best as int]),
            forall|j: int| 0 <= j < i ==> byte_len(g[best as int]) <= byte_len(#[trigger] g[j]),
            forall|j: int| 0 <= j < best ==> byte_len(g[best as int]) < byte_len(#[trigger] g[j]),
        decreases group@.len() - i,
    {
        let n = group[i].as_str().as_bytes().len();
        if n < best_len {
            best = i;
            best_len = n;
        }
        i = i + 1;
    }
    best
}

/// Removing every member of a group but the keeper leaves exactly one of its
/// paths: the keeper, which is of minimum length in the group and the first such.
pub proof fn lemma_one_member_kept(group: Seq<Seq<char>>, k: int, removals: Seq<Seq<char>>)
    requires
        is_keeper(group, k),
        removals == group.remove(k),
        group.no_duplicates(),
    ensures
        removals.len() == group.len() - 1,
        !removals.contains(group[k]),
        forall|j: int| 0 <= j < group.len() && j != k ==> removals.contains(#[trigger] group[j]),
        forall|j: int| 0 <= j < group.len() ==> byte_len(group[k]) <= byte_len(#[trigger] group[j]),
        forall|j: int| 0 <= j < k ==> byte_len(group[k]) < byte_len(#[trigger] group[j]),
{
    assert forall|j: int| 0 <= j < group.len() && j != k implies removals.contains(#[trigger] group[j]) by {
        if j < k {
            assert(removals[j] == group[j]);
        } else {
            assert(removals[j - 1] == group[j]);
        }
    }
    if removals.contains(group[k]) {
        let x = choose|x: int| 0 <= x < removals.len() && removals[x] == group[k];
        if x < k {
            assert(removals[x] == group[x]);
        } else {
            assert(removals[x] == group[x + 1]);
        }
    }
}

} // verus!
