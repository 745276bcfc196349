//! Paths along the parent pointers of a list of links.

use crate::utils::utils_robot::link::Link;
use vstd::prelude::*;

verus! {

/// The root has no parent, and every other link has a parent in the list.
pub open spec fn parents_in_range(links: Seq<Link>, root: int) -> bool {
    &&& 0 <= root < links.len()
    &&& links[root].preceding_link_idx is None
    &&& forall|i: int|
        0 <= i < links.len() && i != root ==> {
            &&& (#[trigger] links[i]).preceding_link_idx is Some
            &&& links[i].preceding_link_idx->0 < links.len()
        }
}

/// `rank` grows strictly from every parent to its child, so that no link is its own
/// ancestor.
pub open spec fn is_ranking(links: Seq<Link>, rank: Seq<nat>) -> bool {
    &&& rank.len() == links.len()
    &&& forall|i: int|
        0 <= i < links.len() && (#[trigger] links[i]).preceding_link_idx is Some ==> {
            &&& links[i].preceding_link_idx->0 < links.len()
            &&& rank[links[i].preceding_link_idx->0 as int] < rank[i]
        }
}

/// A nonempty sequence of links in which each is the parent of the next.
pub open spec fn is_link_path(links: Seq<Link>, path: Seq<usize>) -> bool {
    &&& path.len() > 0
    &&& forall|k: int| 0 <= k < path.len() ==> #[trigger] path[k] < links.len()
    &&& forall|k: int|
        0 < k < path.len() ==> (#[trigger] links[path[k] as int]).preceding_link_idx == Some(
            path[k - 1],
        )
}

/// A path that starts at `from` and ends at `to`.
pub open spec fn is_path_between(links: Seq<Link>, path: Seq<usize>, from: int, to: int) -> bool {
    &&& is_link_path(links, path)
    &&& path[0] == from
    &&& path[path.len() - 1] == to
}

/// What a table of chains holds for the pair `(from, to)`: the path that leads from
/// `from` down to `to`, or nothing where there is no such path.
pub open spec fn is_chain_between(links: Seq<Link>, chain: Seq<usize>, from: int, to: int) -> bool {
    if chain.len() == 0 {
        forall|path: Seq<usize>| !is_path_between(links, path, from, to)
    } else {
        is_path_between(links, chain, from, to)
    }
}

/// The two lists give every link the same parent.
pub open spec fn same_parents(a: Seq<Link>, b: Seq<Link>) -> bool {
    &&& a.len() == b.len()
    &&& forall|i: int|
        #![trigger a[i]]
        #![trigger b[i]]
        0 <= i < a.len() ==> a[i].preceding_link_idx == b[i].preceding_link_idx
}

/// Paths depend on the parents alone.
pub proof fn lemma_same_parents_same_paths(a: Seq<Link>, b: Seq<Link>, path: Seq<usize>)
    requires
        same_parents(a, b),
    ensures
        is_link_path(a, path) == is_link_path(b, path),
{
    if is_link_path(a, path) {
        assert forall|k: int| 0 < k < path.len() implies (#[trigger] b[path[k] as int]).preceding_link_idx
            == Some(path[k - 1]) by {
            assert(a[path[k] as int].preceding_link_idx == Some(path[k - 1]));
        }
    }
    if is_link_path(b, path) {
        assert forall|k: int| 0 < k < path.len() implies (#[trigger] a[path[k] as int]).preceding_link_idx
            == Some(path[k - 1]) by {
            assert(b[path[k] as int].preceding_link_idx == Some(path[k - 1]));
        }
    }
}

/// A table of chains depends on the parents alone.
pub proof fn lemma_same_parents_same_chains(
    a: Seq<Link>,
    b: Seq<Link>,
    chains: Seq<Vec<Vec<usize>>>,
)
    requires
        same_parents(a, b),
        chains_are_current(a, chains),
    ensures
        chains_are_current(b, chains),
{
    assert forall|from: int| 0 <= from < b.len() implies chain_row_is_current(
        b,
        #[trigger] chains[from],
        from,
    ) by {
        assert(chain_row_is_current(a, chains[from], from));
        let row = chains[from];
        assert forall|to: int| 0 <= to < b.len() implies {
            &&& is_chain_between(b, (#[trigger] row@[to])@, from, to)
            &&& (to == from ==> row@[to]@ == seq![from as usize])
        } by {
            let chain = row@[to]@;
            assert(is_chain_between(a, chain, from, to));
            if chain.len() == 0 {
                assert forall|path: Seq<usize>| !is_path_between(b, path, from, to) by {
                    lemma_same_parents_same_paths(a, b, path);
                    assert(!is_path_between(a, path, from, to));
                }
            } else {
                lemma_same_parents_same_paths(a, b, chain);
            }
        }
    }
}

/// One row of the table of chains: the chains that start at `from`.
pub open spec fn chain_row_is_current(links: Seq<Link>, row: Vec<Vec<usize>>, from: int) -> bool {
    &&& row@.len() == links.len()
    &&& forall|b: int|
        0 <= b < links.len() ==> {
            &&& is_chain_between(links, (#[trigger] row@[b])@, from, b)
            &&& (b == from ==> row@[b]@ == seq![from as usize])
        }
}

/// The table holds for every ordered pair of links its chain, and for a link paired
/// with itself the path of that one link.
pub open spec fn chains_are_current(links: Seq<Link>, chains: Seq<Vec<Vec<usize>>>) -> bool {
    &&& chains.len() == links.len()
    &&& forall|a: int| 0 <= a < links.len() ==> chain_row_is_current(links, #[trigger] chains[a], a)
}

/// A path that ends where a path from a parentless link ends is the tail of that path.
pub proof fn lemma_path_is_tail_of_root_path(
    links: Seq<Link>,
    root_path: Seq<usize>,
    path: Seq<usize>,
)
    requires
        is_link_path(links, root_path),
        links[root_path[0] as int].preceding_link_idx is None,
        is_link_path(links, path),
        path[path.len() - 1] == root_path[root_path.len() - 1],
    ensures
        path.len() <= root_path.len(),
        path == root_path.subrange(root_path.len() - path.len(), root_path.len() as int),
{
    lemma_tail_agrees(links, root_path, path, path.len() - 1);
    assert(path =~= root_path.subrange(root_path.len() - path.len(), root_path.len() as int))
        by {
        assert forall|k: int| 0 <= k < path.len() implies path[k] == root_path[root_path.len()
            - path.len() + k] by {
            lemma_tail_agrees(links, root_path, path, path.len() - 1 - k);
        }
    }
}

proof fn lemma_tail_agrees(links: Seq<Link>, root_path: Seq<usize>, path: Seq<usize>, back: int)
    requires
        is_link_path(links, root_path),
        links[root_path[0] as int].preceding_link_idx is None,
        is_link_path(links, path),
        path[path.len() - 1] == root_path[root_path.len() - 1],
        0 <= back < path.len(),
    ensures
        back < root_path.len(),
        path[path.len() - 1 - back] == root_path[root_path.len() - 1 - back],
    decreases back,
{
    if back > 0 {
        lemma_tail_agrees(links, root_path, path, back - 1);
        let k = path.len() - back;
        assert(links[path[k] as int].preceding_link_idx == Some(path[k - 1]));
        let j = root_path.len() - back;
        if j == 0 {
            assert(path[k] == root_path[0]);
            assert(false);
        }
        assert(links[root_path[j] as int].preceding_link_idx == Some(root_path[j - 1]));
    }
}

/// Between two links there is at most one path.
pub proof fn lemma_path_between_is_unique(
    links: Seq<Link>,
    root_path: Seq<usize>,
    first: Seq<usize>,
    second: Seq<usize>,
)
    requires
        is_link_path(links, root_path),
        links[root_path[0] as int].preceding_link_idx is None,
        is_link_path(links, first),
        is_link_path(links, second),
        first[0] == second[0],
        first[first.len() - 1] == root_path[root_path.len() - 1],
        second[second.len() - 1] == root_path[root_path.len() - 1],
    ensures
        first == second,
{
    lemma_path_is_tail_of_root_path(links, root_path, first);
    lemma_path_is_tail_of_root_path(links, root_path, second);
    lemma_root_path_has_no_repeat(
        links,
        root_path,
        root_path.len() - first.len(),
        root_path.len() - second.len(),
    );
}

/// No link occurs twice on a path from a parentless link.
pub proof fn lemma_root_path_has_no_repeat(links: Seq<Link>, root_path: Seq<usize>, x: int, y: int)
    requires
        is_link_path(links, root_path),
        links[root_path[0] as int].preceding_link_idx is None,
        0 <= x < root_path.len(),
        0 <= y < root_path.len(),
        root_path[x] == root_path[y],
    ensures
        x == y,
{
    if x < y {
        lemma_no_repeat_ordered(links, root_path, x, y);
    } else if y < x {
        lemma_no_repeat_ordered(links, root_path, y, x);
    }
}

proof fn lemma_no_repeat_ordered(links: Seq<Link>, root_path: Seq<usize>, x: int, y: int)
    requires
        is_link_path(links, root_path),
        links[root_path[0] as int].preceding_link_idx is None,
        0 <= x <= y < root_path.len(),
        root_path[x] == root_path[y],
    ensures
        x == y,
{
    if x != y {
        lemma_repeat_reaches_above_root(links, root_path, x, y);
    }
}

proof fn lemma_repeat_reaches_above_root(links: Seq<Link>, root_path: Seq<usize>, x: int, y: int)
    requires
        is_link_path(links, root_path),
        links[root_path[0] as int].preceding_link_idx is None,
        0 <= x < y < root_path.len(),
    ensures
        root_path[x] != root_path[y],
{
    if root_path[x] == root_path[y] {
        lemma_repeat_contradiction(links, root_path, x, y);
    }
}

proof fn lemma_repeat_contradiction(links: Seq<Link>, root_path: Seq<usize>, x: int, y: int)
    requires
        is_link_path(links, root_path),
        links[root_path[0] as int].preceding_link_idx is None,
        0 <= x < y < root_path.len(),
        root_path[x] == root_path[y],
    ensures
        links[root_path[y - x] as int].preceding_link_idx is None,
        links[root_path[y - x] as int].preceding_link_idx is Some,
{
    let long = root_path.subrange(0, y + 1);
    let short = root_path.subrange(0, x + 1);
    assert(is_link_path(links, long)) by {
        assert forall|k: int| 0 < k < long.len() implies (#[trigger] links[long[k] as int]).preceding_link_idx
            == Some(long[k - 1]) by {
            assert(long[k] == root_path[k]);
            assert(links[root_path[k] as int].preceding_link_idx == Some(root_path[k - 1]));
        }
    }
    assert(is_link_path(links, short)) by {
        assert forall|k: int| 0 < k < short.len() implies (#[trigger] links[short[k] as int]).preceding_link_idx
            == Some(short[k - 1]) by {
            assert(short[k] == root_path[k]);
            assert(links[root_path[k] as int].preceding_link_idx == Some(root_path[k - 1]));
        }
    }
    lemma_tail_agrees(links, long, short, x);
    // The first link of the short path is the root, and it sits inside the long one.
    assert(short[0] == long[y - x]);
    assert(links[long[y - x] as int].preceding_link_idx == Some(long[y - x - 1]));
}

/// How many of the flags are set.
pub open spec fn count_true(flags: Seq<bool>) -> nat
    decreases flags.len(),
{
    if flags.len() == 0 {
        0
    } else {
        count_true(flags.drop_last()) + if flags.last() {
            1nat
        } else {
            0nat
        }
    }
}

proof fn lemma_count_true_bound(flags: Seq<bool>)
    ensures
        count_true(flags) <= flags.len(),
    decreases flags.len(),
{
    if flags.len() > 0 {
        lemma_count_true_bound(flags.drop_last());
    }
}

proof fn lemma_count_true_set(flags: Seq<bool>, i: int)
    requires
        0 <= i < flags.len(),
        !flags[i],
    ensures
        count_true(flags.update(i, true)) == count_true(flags) + 1,
    decreases flags.len(),
{
    let after = flags.update(i, true);
    if i == flags.len() - 1 {
        assert(after.drop_last() =~= flags.drop_last());
    } else {
        lemma_count_true_set(flags.drop_last(), i);
        assert(after.drop_last() =~= flags.drop_last().update(i, true));
    }
}

proof fn lemma_count_true_all_false(flags: Seq<bool>)
    requires
        forall|i: int| 0 <= i < flags.len() ==> !flags[i],
    ensures
        count_true(flags) == 0,
    decreases flags.len(),
{
    if flags.len() > 0 {
        lemma_count_true_all_false(flags.drop_last());
    }
}

/// Where the root is marked and every link with a marked parent is marked, a ranking
/// shows that every link is marked.
proof fn lemma_closed_marks_reach_all(
    links: Seq<Link>,
    root: int,
    done: Seq<bool>,
    rank: Seq<nat>,
    i: int,
)
    requires
        parents_in_range(links, root),
        is_ranking(links, rank),
        done.len() == links.len(),
        done[root],
        forall|k: int|
            0 <= k < links.len() && k != root && done[(#[trigger] links[k]).preceding_link_idx->0 as int]
                ==> done[k],
        0 <= i < links.len(),
    ensures
        done[i],
    decreases rank[i],
{
    if i != root {
        let p = links[i].preceding_link_idx->0 as int;
        lemma_closed_marks_reach_all(links, root, done, rank, p);
    }
}

/// The path of every marked link but the root is the path of its parent, which is
/// marked too, with the link itself added.
spec fn marked_paths_extend(
    links: Seq<Link>,
    root: int,
    done: Seq<bool>,
    paths: Seq<Vec<usize>>,
) -> bool {
    forall|i: int|
        0 <= i < links.len() && i != root && #[trigger] done[i] ==> {
            &&& done[links[i].preceding_link_idx->0 as int]
            &&& paths[i]@ == paths[links[i].preceding_link_idx->0 as int]@.push(i as usize)
        }
}

/// A copy of `source`.
pub fn copy_indices(source: &Vec<usize>) -> (r: Vec<usize>)
    ensures
        r@ == source@,
{
    let mut r: Vec<usize> = Vec::new();
    let mut k: usize = 0;
    while k < source.len()
        invariant
            k <= source@.len(),
            r@ == source@.subrange(0, k as int),
        decreases source@.len() - k,
    {
        r.push(source[k]);
        assert(source@.subrange(0, k as int).push(source@[k as int]) =~= source@.subrange(
            0,
            k + 1,
        ));
        k += 1;
    }
    assert(source@.subrange(0, source@.len() as int) =~= source@);
    r
}

/// For every link the path that leads from the root down to it, or `None` where some
/// link is its own ancestor and so has no such path.
pub fn compute_root_paths(links: &Vec<Link>, root: usize) -> (r: Option<Vec<Vec<usize>>>)
    requires
        parents_in_range(links@, root as int),
    ensures
        r is Some <==> exists|rank: Seq<nat>| is_ranking(links@, rank),
        r matches Some(paths) ==> {
            &&& paths@.len() == links@.len()
            &&& forall|i: int|
                0 <= i < links@.len() ==> {
                    &&& is_path_between(links@, (#[trigger] paths@[i])@, root as int, i)
                    &&& paths@[i]@.len() <= links@.len()
                }
            &&& forall|i: int|
                0 <= i < links@.len() && i != root ==> (#[trigger] paths@[i])@
                    == paths@[links@[i].preceding_link_idx->0 as int]@.push(i as usize)
        },
{
    let n = links.len();
    let mut done: Vec<bool> = Vec::new();
    let mut paths: Vec<Vec<usize>> = Vec::new();
    let mut k: usize = 0;
    while k < n
        invariant
            k <= n,
            done@.len() == k,
            paths@.len() == k,
            forall|i: int| 0 <= i < k ==> !done@[i],
        decreases n - k,
    {
        done.push(false);
        paths.push(Vec::new());
        k += 1;
    }
    proof {
        lemma_count_true_all_false(done@);
        lemma_count_true_set(done@, root as int);
    }
    done[root] = true;
    let mut root_path: Vec<usize> = Vec::new();
    root_path.push(root);
    paths[root] = root_path;
    let mut num_done: usize = 1;
    let mut changed = true;
    while changed
        invariant
            n == links@.len(),
            parents_in_range(links@, root as int),
            done@.len() == n,
            paths@.len() == n,
            done@[root as int],
            num_done == count_true(done@),
            1 <= num_done <= n,
            forall|i: int|
                0 <= i < n && done@[i] ==> {
                    &&& is_path_between(links@, (#[trigger] paths@[i])@, root as int, i)
                    &&& paths@[i]@.len() <= num_done
                },
            marked_paths_extend(links@, root as int, done@, paths@),
            !changed ==> forall|i: int|
                0 <= i < n && i != root && done@[(#[trigger] links@[i]).preceding_link_idx->0 as int]
                    ==> done@[i],
        decreases
                n - num_done + if changed {
                    1int
                } else {
                    0int
                },
    {
        changed = false;
        let ghost done_before = done@;
        let mut i: usize = 0;
        while i < n
            invariant
                i <= n,
                n == links@.len(),
                parents_in_range(links@, root as int),
                done@.len() == n,
                paths@.len() == n,
                done@[root as int],
                num_done == count_true(done@),
                1 <= num_done <= n,
                count_true(done_before) <= num_done,
                changed ==> count_true(done_before) < num_done,
                !changed ==> done@ == done_before,
                forall|a: int|
                    0 <= a < n && done@[a] ==> {
                        &&& is_path_between(links@, (#[trigger] paths@[a])@, root as int, a)
                        &&& paths@[a]@.len() <= num_done
                    },
                marked_paths_extend(links@, root as int, done@, paths@),
                !changed ==> forall|a: int|
                    0 <= a < i && a != root && done@[(#[trigger] links@[a]).preceding_link_idx->0 as int]
                        ==> done@[a],
            decreases n - i,
        {
            if !done[i] {
                assert(i != root);
                let parent = match links[i].preceding_link_idx {
                    Some(p) => p,
                    None => root,
                };
                if done[parent] {
                    let mut path = copy_indices(&paths[parent]);
                    path.push(i);
                    proof {
                        lemma_count_true_set(done@, i as int);
                        lemma_count_true_bound(done@.update(i as int, true));
                        let parent_path = paths@[parent as int]@;
                        assert(is_path_between(links@, parent_path, root as int, parent as int));
                        assert(is_link_path(links@, path@)) by {
                            assert forall|k: int| 0 < k < path@.len() implies (#[trigger] links@[path@[k] as int]).preceding_link_idx
                                == Some(path@[k - 1]) by {
                                if k < parent_path.len() {
                                    assert(path@[k] == parent_path[k]);
                                    assert(links@[parent_path[k] as int].preceding_link_idx == Some(
                                        parent_path[k - 1],
                                    ));
                                }
                            }
                        }
                    }
                    let ghost paths_before = paths@;
                    let ghost done_before_mark = done@;
                    paths[i] = path;
                    done[i] = true;
                    num_done += 1;
                    changed = true;
                    proof {
                        assert forall|a: int|
                            0 <= a < links@.len() && a != root && #[trigger] done@[a] implies {
                            &&& done@[links@[a].preceding_link_idx->0 as int]
                            &&& paths@[a]@ == paths@[links@[a].preceding_link_idx->0 as int]@.push(
                                a as usize,
                            )
                        } by {
                            let pa = links@[a].preceding_link_idx->0 as int;
                            if a != i {
                                assert(done_before_mark[a]);
                                assert(done_before_mark[pa]);
                                assert(pa != i);
                            }
                        }
                    }
                }
            }
            i += 1;
        }
    }
    let mut all_done = true;
    let mut i: usize = 0;
    while i < n
        invariant
            i <= n,
            done@.len() == n,
            all_done <==> forall|a: int| 0 <= a < i ==> done@[a],
        decreases n - i,
    {
        if !done[i] {
            all_done = false;
        }
        i += 1;
    }
    if all_done {
        proof {
            let rank = Seq::new(n as nat, |a: int| paths@[a]@.len());
            assert(is_ranking(links@, rank)) by {
                assert forall|a: int|
                    0 <= a < links@.len() && (#[trigger] links@[a]).preceding_link_idx is Some implies {
                    &&& links@[a].preceding_link_idx->0 < links@.len()
                    &&& rank[links@[a].preceding_link_idx->0 as int] < rank[a]
                } by {
                    assert(a != root);
                    assert(done@[a]);
                    assert(paths@[a]@ == paths@[links@[a].preceding_link_idx->0 as int]@.push(
                        a as usize,
                    ));
                }
            }
        }
        assert forall|a: int| 0 <= a < links@.len() && a != root implies (#[trigger] paths@[a])@
            == paths@[links@[a].preceding_link_idx->0 as int]@.push(a as usize) by {
            assert(done@[a]);
        }
        Some(paths)
    } else {
        proof {
            if exists|rank: Seq<nat>| is_ranking(links@, rank) {
                let rank = choose|rank: Seq<nat>| is_ranking(links@, rank);
                let missing = choose|a: int| 0 <= a < n && !done@[a];
                lemma_closed_marks_reach_all(links@, root as int, done@, rank, missing);
            }
        }
        None
    }
}

/// The chain for the pair `(from, to)`, read off the path that leads from the root to
/// `to`: the part of that path that starts at `from`, or nothing where `from` is not
/// on it.
pub fn compute_link_chain(links: &Vec<Link>, root_path: &Vec<usize>, from: usize, to: usize) -> (r:
    Vec<usize>)
    requires
        from < links@.len(),
        to < links@.len(),
        is_link_path(links@, root_path@),
        links@[root_path@[0] as int].preceding_link_idx is None,
        root_path@[root_path@.len() - 1] == to,
    ensures
        is_chain_between(links@, r@, from as int, to as int),
        from == to ==> r@ == seq![from],
{
    let mut chain: Vec<usize> = Vec::new();
    if from == to {
        chain.push(from);
        return chain;
    }
    let len = root_path.len();
    let mut start: usize = 0;
    while start < len && root_path[start] != from
        invariant
            len == root_path@.len(),
            start <= len,
            forall|k: int| 0 <= k < start ==> root_path@[k] != from,
        decreases len - start,
    {
        start += 1;
    }
    if start == len {
        proof {
            assert forall|path: Seq<usize>| !is_path_between(
                links@,
                path,
                from as int,
                to as int,
            ) by {
                if is_path_between(links@, path, from as int, to as int) {
                    lemma_path_is_tail_of_root_path(links@, root_path@, path);
                    assert(path[0] == root_path@[root_path@.len() - path.len()]);
                }
            }
        }
        return chain;
    }
    let mut k: usize = start;
    while k < len
        invariant
            len == root_path@.len(),
            start <= k <= len,
            chain@ == root_path@.subrange(start as int, k as int),
        decreases len - k,
    {
        chain.push(root_path[k]);
        assert(root_path@.subrange(start as int, k as int).push(root_path@[k as int])
            =~= root_path@.subrange(start as int, k + 1));
        k += 1;
    }
    proof {
        assert(is_link_path(links@, chain@)) by {
            assert forall|j: int| 0 < j < chain@.len() implies (#[trigger] links@[chain@[j] as int]).preceding_link_idx
                == Some(chain@[j - 1]) by {
                assert(chain@[j] == root_path@[start + j]);
                assert(links@[root_path@[start + j] as int].preceding_link_idx == Some(
                    root_path@[start + j - 1],
                ));
            }
        }
    }
    chain
}

/// The table of chains: for every ordered pair of links the path from the first down
/// to the second, or nothing.
pub fn compute_link_chains(links: &Vec<Link>, root_paths: &Vec<Vec<usize>>) -> (r: Vec<
    Vec<Vec<usize>>,
>)
    requires
        root_paths@.len() == links@.len(),
        forall|i: int|
            0 <= i < links@.len() ==> {
                &&& is_link_path(links@, (#[trigger] root_paths@[i])@)
                &&& links@[root_paths@[i]@[0] as int].preceding_link_idx is None
                &&& root_paths@[i]@[root_paths@[i]@.len() - 1] == i
            },
    ensures
        chains_are_current(links@, r@),
{
    let n = links.len();
    let mut chains: Vec<Vec<Vec<usize>>> = Vec::new();
    let mut from: usize = 0;
    while from < n
        invariant
            n == links@.len(),
            from <= n,
            root_paths@.len() == n,
            forall|i: int|
                0 <= i < links@.len() ==> {
                    &&& is_link_path(links@, (#[trigger] root_paths@[i])@)
                    &&& links@[root_paths@[i]@[0] as int].preceding_link_idx is None
                    &&& root_paths@[i]@[root_paths@[i]@.len() - 1] == i
                },
            chains@.len() == from,
            forall|a: int| 0 <= a < from ==> chain_row_is_current(links@, #[trigger] chains@[a], a),
        decreases n - from,
    {
        let mut row: Vec<Vec<usize>> = Vec::new();
        let mut to: usize = 0;
        while to < n
            invariant
                n == links@.len(),
                from < n,
                to <= n,
                root_paths@.len() == n,
                forall|i: int|
                    0 <= i < links@.len() ==> {
                        &&& is_link_path(links@, (#[trigger] root_paths@[i])@)
                        &&& links@[root_paths@[i]@[0] as int].preceding_link_idx is None
                        &&& root_paths@[i]@[root_paths@[i]@.len() - 1] == i
                    },
                row@.len() == to,
                forall|b: int|
                    0 <= b < to ==> {
                        &&& is_chain_between(links@, (#[trigger] row@[b])@, from as int, b)
                        &&& (b == from ==> row@[b]@ == seq![from])
                    },
            decreases n - to,
        {
            let chain = compute_link_chain(links, &root_paths[to], from, to);
            row.push(chain);
            to += 1;
        }
        chains.push(row);
        from += 1;
    }
    chains
}

} // verus!
