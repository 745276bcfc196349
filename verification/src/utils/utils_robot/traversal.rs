//! The layers in which a tree of links is traversed.

use crate::utils::utils_robot::link::Link;
use crate::utils::utils_robot::link_tree::{
    is_link_path, is_path_between, lemma_path_is_tail_of_root_path, parents_in_range,
};
use vstd::prelude::*;

verus! {

/// `root_paths` holds for every link the path from the root down to it, and no path
/// is longer than the number of links.
pub open spec fn root_paths_are_current(
    links: Seq<Link>,
    root_paths: Seq<Vec<usize>>,
    root: int,
) -> bool {
    &&& root_paths.len() == links.len()
    &&& forall|i: int|
        0 <= i < links.len() ==> {
            &&& is_path_between(links, (#[trigger] root_paths[i])@, root, i)
            &&& root_paths[i]@.len() <= links.len()
        }
}

/// Every link of layer `k` lies `k` steps below the root.
pub open spec fn layer_is_at_depth(
    links: Seq<Link>,
    root_paths: Seq<Vec<usize>>,
    layer: Seq<usize>,
    k: int,
) -> bool {
    forall|x: int|
        0 <= x < layer.len() ==> {
            &&& (#[trigger] layer[x]) < links.len()
            &&& root_paths[layer[x] as int]@.len() == k + 1
        }
}

/// The layers start with the root alone, and layer `k` holds links `k` steps below
/// the root, in ascending order.
pub open spec fn layers_follow_depth(
    links: Seq<Link>,
    root_paths: Seq<Vec<usize>>,
    layers: Seq<Vec<usize>>,
    root: int,
) -> bool {
    &&& layers.len() >= 1
    &&& layers[0]@ == seq![root as usize]
    &&& forall|k: int|
        0 <= k < layers.len() ==> {
            &&& layer_is_at_depth(links, root_paths, (#[trigger] layers[k])@, k)
            &&& layer_is_ascending(layers[k]@)
        }
}

/// Every link on the path below its first link is present.
pub open spec fn path_is_present(links: Seq<Link>, path: Seq<usize>) -> bool {
    forall|k: int| 1 <= k < path.len() ==> links[(#[trigger] path[k]) as int].present
}

/// The layer is in ascending order, so that no link occurs twice.
pub open spec fn layer_is_ascending(layer: Seq<usize>) -> bool {
    forall|x: int, y: int| 0 <= x < y < layer.len() ==> layer[x] < layer[y]
}

/// Layer `k` is not empty, is in ascending order, and holds only links that traversal
/// reaches.
pub open spec fn layer_is_reached(
    links: Seq<Link>,
    root_paths: Seq<Vec<usize>>,
    layer: Seq<usize>,
) -> bool {
    &&& layer.len() > 0
    &&& layer_is_ascending(layer)
    &&& forall|x: int|
        0 <= x < layer.len() ==> path_is_present(links, root_paths[(#[trigger] layer[x]) as int]@)
}

/// Link `i`, if traversal reaches it within the first `depth` layers, stands in the
/// layer of its depth.
pub open spec fn link_is_placed(
    links: Seq<Link>,
    root_paths: Seq<Vec<usize>>,
    layers: Seq<Vec<usize>>,
    depth: int,
    i: int,
) -> bool {
    path_is_present(links, root_paths[i]@) && root_paths[i]@.len() <= depth ==> {
        &&& root_paths[i]@.len() <= layers.len()
        &&& layers[root_paths[i]@.len() - 1]@.contains(i as usize)
    }
}

/// The layers hold exactly the links that traversal reaches: the root, and every
/// present link whose ancestors below the root are all present. Each link stands in
/// the layer of its depth, no layer is empty, and each layer is in ascending order.
pub open spec fn layers_are_current(
    links: Seq<Link>,
    root_paths: Seq<Vec<usize>>,
    layers: Seq<Vec<usize>>,
) -> bool {
    &&& forall|k: int|
        0 <= k < layers.len() ==> layer_is_reached(links, root_paths, (#[trigger] layers[k])@)
    &&& forall|i: int|
        0 <= i < links.len() ==> #[trigger] link_is_placed(
            links,
            root_paths,
            layers,
            links.len() as int,
            i,
        )
}

/// Two paths from parentless links to the same link are the same path.
pub proof fn lemma_root_paths_agree(links: Seq<Link>, a: Seq<usize>, b: Seq<usize>)
    requires
        is_link_path(links, a),
        is_link_path(links, b),
        links[a[0] as int].preceding_link_idx is None,
        links[b[0] as int].preceding_link_idx is None,
        a[a.len() - 1] == b[b.len() - 1],
    ensures
        a == b,
{
    lemma_path_is_tail_of_root_path(links, a, b);
    lemma_path_is_tail_of_root_path(links, b, a);
    assert(b.subrange(0, b.len() as int) =~= b);
}

/// The path to a link is the path to its parent with the link added.
pub proof fn lemma_root_path_extends_parent(
    links: Seq<Link>,
    root_paths: Seq<Vec<usize>>,
    root: int,
    i: int,
)
    requires
        parents_in_range(links, root),
        root_paths_are_current(links, root_paths, root),
        0 <= i < links.len() <= usize::MAX,
        i != root,
    ensures
        root_paths[i]@ == root_paths[links[i].preceding_link_idx->0 as int]@.push(i as usize),
{
    let p = links[i].preceding_link_idx->0 as int;
    let parent_path = root_paths[p]@;
    let extended = parent_path.push(i as usize);
    assert(is_path_between(links, parent_path, root, p));
    assert(is_link_path(links, extended)) by {
        assert forall|k: int| 0 < k < extended.len() implies (#[trigger] links[extended[k] as int]).preceding_link_idx
            == Some(extended[k - 1]) by {
            if k < parent_path.len() {
                assert(extended[k] == parent_path[k]);
                assert(links[parent_path[k] as int].preceding_link_idx == Some(parent_path[k - 1]));
            }
        }
    }
    assert(is_path_between(links, root_paths[i]@, root, i));
    lemma_root_paths_agree(links, extended, root_paths[i]@);
}

/// The path to a link on the path to `i` is the part of that path that ends there.
pub proof fn lemma_root_path_prefix(
    links: Seq<Link>,
    root_paths: Seq<Vec<usize>>,
    root: int,
    i: int,
    k: int,
)
    requires
        parents_in_range(links, root),
        root_paths_are_current(links, root_paths, root),
        0 <= i < links.len(),
        0 <= k < root_paths[i]@.len(),
    ensures
        root_paths[i]@[k] < links.len(),
        root_paths[root_paths[i]@[k] as int]@ == root_paths[i]@.subrange(0, k + 1),
{
    let path = root_paths[i]@;
    assert(is_path_between(links, path, root, i));
    let a = path[k];
    let prefix = path.subrange(0, k + 1);
    assert(is_link_path(links, prefix)) by {
        assert forall|x: int| 0 < x < prefix.len() implies (#[trigger] links[prefix[x] as int]).preceding_link_idx
            == Some(prefix[x - 1]) by {
            assert(prefix[x] == path[x]);
            assert(links[path[x] as int].preceding_link_idx == Some(path[x - 1]));
        }
    }
    assert(is_path_between(links, root_paths[a as int]@, root, a as int));
    lemma_root_paths_agree(links, prefix, root_paths[a as int]@);
}

/// Whether `x` occurs in `v`.
pub fn vec_contains(v: &Vec<usize>, x: usize) -> (r: bool)
    ensures
        r == v@.contains(x),
{
    let mut k: usize = 0;
    while k < v.len()
        invariant
            k <= v@.len(),
            forall|a: int| 0 <= a < k ==> v@[a] != x,
        decreases v@.len() - k,
    {
        if v[k] == x {
            return true;
        }
        k += 1;
    }
    false
}

/// The traversal layers of the tree as the links are present now.
pub fn compute_traversal_layers(links: &Vec<Link>, root_paths: &Vec<Vec<usize>>, root: usize) -> (r:
    Vec<Vec<usize>>)
    requires
        parents_in_range(links@, root as int),
        root_paths_are_current(links@, root_paths@, root as int),
    ensures
        layers_follow_depth(links@, root_paths@, r@, root as int),
        layers_are_current(links@, root_paths@, r@),
        r@.len() <= links@.len(),
{
    let n = links.len();
    let mut layers: Vec<Vec<usize>> = Vec::new();
    let mut first: Vec<usize> = Vec::new();
    first.push(root);
    layers.push(first);
    proof {
        assert(is_path_between(links@, root_paths@[root as int]@, root as int, root as int));
        lemma_root_paths_agree(links@, seq![root], root_paths@[root as int]@);
        assert(layers@[0]@ =~= seq![root]);
        assert(layer_is_at_depth(links@, root_paths@, layers@[0]@, 0));
        assert(layer_is_reached(links@, root_paths@, layers@[0]@));
        assert(layer_is_ascending(layers@[0]@));
        assert forall|i: int| 0 <= i < links@.len() implies #[trigger] link_is_placed(
            links@,
            root_paths@,
            layers@,
            1,
            i,
        ) by {
            if root_paths@[i]@.len() <= 1 {
                assert(is_path_between(links@, root_paths@[i]@, root as int, i));
                assert(i == root);
                assert(layers@[0]@[0] == root);
            }
        }
    }
    loop
        invariant
            n == links@.len(),
            parents_in_range(links@, root as int),
            root_paths_are_current(links@, root_paths@, root as int),
            1 <= layers@.len() <= n,
            layers_follow_depth(links@, root_paths@, layers@, root as int),
            forall|k: int|
                0 <= k < layers@.len() ==> layer_is_reached(
                    links@,
                    root_paths@,
                    (#[trigger] layers@[k])@,
                ),
            forall|i: int|
                0 <= i < links@.len() ==> #[trigger] link_is_placed(
                    links@,
                    root_paths@,
                    layers@,
                    layers@.len() as int,
                    i,
                ),
        ensures
            layers@.len() <= links@.len(),
            layers_follow_depth(links@, root_paths@, layers@, root as int),
            layers_are_current(links@, root_paths@, layers@),
        decreases n - layers@.len(),
    {
        let depth = layers.len();
        let mut layer: Vec<usize> = Vec::new();
        let mut i: usize = 0;
        while i < n
            invariant
                n == links@.len(),
                i <= n,
                depth == layers@.len(),
                1 <= depth <= n,
                parents_in_range(links@, root as int),
                root_paths_are_current(links@, root_paths@, root as int),
                layers_follow_depth(links@, root_paths@, layers@, root as int),
                forall|k: int|
                    0 <= k < layers@.len() ==> layer_is_reached(
                        links@,
                        root_paths@,
                        (#[trigger] layers@[k])@,
                    ),
                layer_is_at_depth(links@, root_paths@, layer@, depth as int),
                layer_is_ascending(layer@),
                forall|x: int| 0 <= x < layer@.len() ==> layer@[x] < i,
                forall|x: int|
                    0 <= x < layer@.len() ==> path_is_present(
                        links@,
                        root_paths@[(#[trigger] layer@[x]) as int]@,
                    ),
                forall|a: int|
                    0 <= a < i && a != root && (#[trigger] links@[a]).present && layers@[depth - 1]@.contains(
                        links@[a].preceding_link_idx->0,
                    ) ==> layer@.contains(a as usize),
            decreases n - i,
        {
            match links[i].preceding_link_idx {
                Some(p) => {
                    if links[i].present && vec_contains(&layers[depth - 1], p) {
                        proof {
                            lemma_root_path_extends_parent(links@, root_paths@, root as int, i as int);
                            let previous = layers@[depth - 1]@;
                            let w = choose|w: int| 0 <= w < previous.len() && previous[w] == p;
                            assert(layer_is_at_depth(links@, root_paths@, previous, depth - 1));
                            assert(previous[w] == p);
                            assert(layer_is_reached(links@, root_paths@, layers@[depth - 1]@));
                            let parent_path = root_paths@[p as int]@;
                            assert(path_is_present(links@, parent_path));
                            assert(path_is_present(links@, root_paths@[i as int]@)) by {
                                let path = root_paths@[i as int]@;
                                assert forall|k: int| 1 <= k < path.len() implies links@[(
                                #[trigger] path[k]) as int].present by {
                                    if k < parent_path.len() {
                                        assert(path[k] == parent_path[k]);
                                    }
                                }
                            }
                        }
                        let ghost before = layer@;
                        layer.push(i);
                        proof {
                            assert forall|a: int|
                                0 <= a < i + 1 && a != root && (#[trigger] links@[a]).present
                                    && layers@[depth - 1]@.contains(
                                    links@[a].preceding_link_idx->0,
                                ) implies layer@.contains(a as usize) by {
                                if a < i {
                                    let w = choose|w: int|
                                        0 <= w < before.len() && before[w] == a as usize;
                                    assert(layer@[w] == a as usize);
                                } else {
                                    assert(layer@[layer@.len() - 1] == i);
                                }
                            }
                        }
                    }
                },
                None => {
                    assert(i == root);
                },
            }
            i += 1;
        }
        if layer.len() == 0 {
            proof {
                assert forall|a: int| 0 <= a < links@.len() implies #[trigger] link_is_placed(
                    links@,
                    root_paths@,
                    layers@,
                    links@.len() as int,
                    a,
                ) by {
                    let path = root_paths@[a]@;
                    if path_is_present(links@, path) && path.len() > depth {
                        // The link `depth` steps down this path would stand in the new layer.
                        let below = path[depth as int];
                        let above = path[depth - 1];
                        assert(is_path_between(links@, path, root as int, a));
                        lemma_root_path_prefix(links@, root_paths@, root as int, a, depth as int);
                        lemma_root_path_prefix(links@, root_paths@, root as int, a, depth - 1);
                        assert(links@[below as int].preceding_link_idx == Some(above));
                        assert(path_is_present(links@, root_paths@[above as int]@)) by {
                            let short = root_paths@[above as int]@;
                            assert forall|k: int| 1 <= k < short.len() implies links@[(
                            #[trigger] short[k]) as int].present by {
                                assert(short[k] == path[k]);
                            }
                        }
                        assert(link_is_placed(
                            links@,
                            root_paths@,
                            layers@,
                            depth as int,
                            above as int,
                        ));
                        assert(root_paths@[above as int]@.len() == depth);
                        assert(layers@[depth - 1]@.contains(above));
                        assert(links@[below as int].present);
                        assert(below != root);
                        assert(layer@.contains(below));
                    }
                    assert(link_is_placed(links@, root_paths@, layers@, depth as int, a));
                }
            }
            break ;
        }
        proof {
            assert(root_paths@[layer@[0] as int]@.len() == depth + 1);
            assert(is_path_between(
                links@,
                root_paths@[layer@[0] as int]@,
                root as int,
                layer@[0] as int,
            ));
        }
        let ghost before = layers@;
        layers.push(layer);
        proof {
            assert forall|k: int| 0 <= k < layers@.len() implies {
                &&& layer_is_at_depth(links@, root_paths@, (#[trigger] layers@[k])@, k)
                &&& layer_is_ascending(layers@[k]@)
            } by {
                if k < depth {
                    assert(layers@[k] == before[k]);
                    assert(layer_is_at_depth(links@, root_paths@, before[k]@, k));
                }
            }
            assert forall|k: int| 0 <= k < layers@.len() implies layer_is_reached(
                links@,
                root_paths@,
                (#[trigger] layers@[k])@,
            ) by {
                if k < depth {
                    assert(layers@[k] == before[k]);
                }
            }
            assert forall|a: int| 0 <= a < links@.len() implies #[trigger] link_is_placed(
                links@,
                root_paths@,
                layers@,
                layers@.len() as int,
                a,
            ) by {
                let path = root_paths@[a]@;
                if path_is_present(links@, path) && path.len() <= depth + 1 {
                    if path.len() <= depth {
                        assert(link_is_placed(links@, root_paths@, before, depth as int, a));
                        assert(layers@[path.len() - 1] == before[path.len() - 1]);
                    } else {
                        assert(is_path_between(links@, path, root as int, a));
                        assert(a != root) by {
                            if a == root {
                                lemma_root_paths_agree(links@, seq![root], path);
                            }
                        }
                        let p = links@[a].preceding_link_idx->0;
                        lemma_root_path_extends_parent(links@, root_paths@, root as int, a);
                        let parent_path = root_paths@[p as int]@;
                        assert(path_is_present(links@, parent_path)) by {
                            assert forall|k: int| 1 <= k < parent_path.len() implies links@[(
                            #[trigger] parent_path[k]) as int].present by {
                                assert(parent_path[k] == path[k]);
                            }
                        }
                        assert(link_is_placed(links@, root_paths@, before, depth as int, p as int));
                        assert(before[depth - 1]@.contains(p));
                        assert(links@[path[path.len() - 1] as int].present);
                        assert(layers@[depth as int]@.contains(a as usize));
                    }
                }
            }
        }
    }
    layers
}

} // verus!
