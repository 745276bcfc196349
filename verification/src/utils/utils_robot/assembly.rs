//! Putting links and joints together once the names of a description have been
//! resolved to positions.

use crate::utils::utils_robot::joint::{free_axes, joint_type_axis_kinds, Joint, URDFJoint};
use crate::utils::utils_robot::link::{Link, URDFLink};
use vstd::prelude::*;

verus! {

/// The entry `c` in the list of children of link `p` is a link to which one of the
/// first `upto` joints leads from `p`.
pub open spec fn child_entry_connected(
    parents: Seq<usize>,
    links: Seq<Link>,
    upto: int,
    p: int,
    c: usize,
) -> bool {
    &&& c < links.len()
    &&& links[c as int].preceding_joint_idx is Some
    &&& links[c as int].preceding_joint_idx->0 < upto
    &&& parents[links[c as int].preceding_joint_idx->0 as int] == p
}

/// Link `i` after the first `upto` joints have been connected.
pub open spec fn link_connected(
    raw: Seq<URDFLink>,
    parents: Seq<usize>,
    children: Seq<usize>,
    links: Seq<Link>,
    upto: int,
    i: int,
) -> bool {
    let link = links[i];
    &&& link.link_idx == i
    &&& link.name@ == raw[i].name@
    &&& link.present
    &&& match link.preceding_joint_idx {
        Some(j) => j < upto && children[j as int] == i && link.preceding_link_idx == Some(
            parents[j as int],
        ),
        None => link.preceding_link_idx is None,
    }
    &&& forall|k: int|
        0 <= k < link.children_link_idxs@.len() ==> child_entry_connected(
            parents,
            links,
            upto,
            i,
            #[trigger] link.children_link_idxs@[k],
        )
    &&& forall|k1: int, k2: int|
        0 <= k1 < k2 < link.children_link_idxs@.len() ==> links[(
        #[trigger] link.children_link_idxs@[k1]) as int].preceding_joint_idx->0 < links[(
        #[trigger] link.children_link_idxs@[k2]) as int].preceding_joint_idx->0
}

/// The child of joint `j` names the joint, and its parent lists the child.
pub open spec fn joint_connected(
    parents: Seq<usize>,
    children: Seq<usize>,
    links: Seq<Link>,
    j: int,
) -> bool {
    &&& links[children[j] as int].preceding_joint_idx == Some(j as usize)
    &&& links[parents[j] as int].children_link_idxs@.contains(children[j])
}

/// The links after the first `upto` joints have been connected.
pub open spec fn links_connected(
    raw: Seq<URDFLink>,
    parents: Seq<usize>,
    children: Seq<usize>,
    links: Seq<Link>,
    upto: int,
) -> bool {
    &&& links.len() == raw.len()
    &&& forall|i: int|
        0 <= i < links.len() ==> #[trigger] link_connected(raw, parents, children, links, upto, i)
    &&& forall|j: int| 0 <= j < upto ==> #[trigger] joint_connected(parents, children, links, j)
}

/// The links of a description with the relations that its joints give them, or
/// `None` where two joints lead to the same link.
pub fn connect_links(raw: &Vec<URDFLink>, parents: &Vec<usize>, children: &Vec<usize>) -> (r:
    Option<Vec<Link>>)
    requires
        parents@.len() == children@.len(),
        forall|j: int| 0 <= j < parents@.len() ==> parents@[j] < raw@.len(),
        forall|j: int| 0 <= j < children@.len() ==> children@[j] < raw@.len(),
    ensures
        r is Some <==> forall|a: int, b: int|
            0 <= a < b < children@.len() ==> children@[a] != children@[b],
        r matches Some(links) ==> links_connected(
            raw@,
            parents@,
            children@,
            links@,
            children@.len() as int,
        ),
{
    let n = raw.len();
    let m = children.len();
    let mut links: Vec<Link> = Vec::new();
    let mut i: usize = 0;
    while i < n
        invariant
            n == raw@.len(),
            i <= n,
            links@.len() == i,
            forall|a: int|
                0 <= a < i ==> {
                    &&& (#[trigger] links@[a]).link_idx == a
                    &&& links@[a].name@ == raw@[a].name@
                    &&& links@[a].present
                    &&& links@[a].preceding_joint_idx is None
                    &&& links@[a].preceding_link_idx is None
                    &&& links@[a].children_link_idxs@.len() == 0
                },
        decreases n - i,
    {
        links.push(Link::new(&raw[i], i));
        i += 1;
    }
    let mut j: usize = 0;
    while j < m
        invariant
            n == raw@.len(),
            m == children@.len(),
            m == parents@.len(),
            j <= m,
            forall|a: int| 0 <= a < parents@.len() ==> parents@[a] < raw@.len(),
            forall|a: int| 0 <= a < children@.len() ==> children@[a] < raw@.len(),
            links_connected(raw@, parents@, children@, links@, j as int),
        decreases m - j,
    {
        let c = children[j];
        let p = parents[j];
        assert(link_connected(raw@, parents@, children@, links@, j as int, c as int));
        if links[c].preceding_joint_idx.is_some() {
            assert(children@[links@[c as int].preceding_joint_idx->0 as int] == children@[j as int]);
            return None;
        }
        let ghost before = links@;
        links[c].preceding_link_idx = Some(p);
        links[c].preceding_joint_idx = Some(j);
        let ghost middle = links@;
        links[p].children_link_idxs.push(c);
        proof {
            let after = links@;
            assert(after.len() == n);
            assert forall|a: int| 0 <= a < n && a != c && a != p implies after[a] == before[a] by {}
            assert(middle[c as int].preceding_joint_idx == Some(j));
            assert(after[c as int].preceding_joint_idx == Some(j));
            assert(after[c as int].preceding_link_idx == Some(p));
            assert forall|a: int| 0 <= a < n implies (#[trigger] after[a]).preceding_joint_idx == (if a
                == c {
                Some(j)
            } else {
                before[a].preceding_joint_idx
            }) by {}
            assert forall|a: int| 0 <= a < n implies (#[trigger] after[a]).children_link_idxs@ == (if a
                == p {
                before[a].children_link_idxs@.push(c)
            } else {
                before[a].children_link_idxs@
            }) by {}
            assert forall|a: int| 0 <= a < n implies #[trigger] link_connected(
                raw@,
                parents@,
                children@,
                after,
                j + 1,
                a,
            ) by {
                assert(link_connected(raw@, parents@, children@, before, j as int, a));
                let kids = after[a].children_link_idxs@;
                let old_kids = before[a].children_link_idxs@;
                assert forall|k: int| 0 <= k < kids.len() implies child_entry_connected(
                    parents@,
                    after,
                    j + 1,
                    a,
                    #[trigger] kids[k],
                ) by {
                    if k < old_kids.len() {
                        assert(kids[k] == old_kids[k]);
                        assert(child_entry_connected(parents@, before, j as int, a, old_kids[k]));
                    }
                }
                assert forall|k1: int, k2: int| 0 <= k1 < k2 < kids.len() implies after[(
                #[trigger] kids[k1]) as int].preceding_joint_idx->0 < after[(
                #[trigger] kids[k2]) as int].preceding_joint_idx->0 by {
                    assert(kids[k1] == old_kids[k1]);
                    assert(child_entry_connected(parents@, before, j as int, a, old_kids[k1]));
                    if k2 < old_kids.len() {
                        assert(kids[k2] == old_kids[k2]);
                        assert(child_entry_connected(parents@, before, j as int, a, old_kids[k2]));
                    }
                }
            }
            assert forall|b: int| 0 <= b < j + 1 implies #[trigger] joint_connected(
                parents@,
                children@,
                after,
                b,
            ) by {
                if b < j {
                    assert(joint_connected(parents@, children@, before, b));
                    let w = choose|w: int|
                        0 <= w < before[parents@[b] as int].children_link_idxs@.len()
                            && before[parents@[b] as int].children_link_idxs@[w] == children@[b];
                    assert(after[parents@[b] as int].children_link_idxs@[w] == children@[b]);
                } else {
                    let kids = after[p as int].children_link_idxs@;
                    assert(kids[kids.len() - 1] == c);
                }
            }
        }
        j += 1;
    }
    proof {
        assert forall|a: int, b: int| 0 <= a < b < children@.len() implies children@[a]
            != children@[b] by {
            assert(joint_connected(parents@, children@, links@, a));
            assert(joint_connected(parents@, children@, links@, b));
        }
    }
    Some(links)
}

/// The joints of a description, each with the positions of the links it connects.
pub fn connect_joints<T: Copy>(
    raw: &Vec<URDFJoint<T>>,
    parents: &Vec<usize>,
    children: &Vec<usize>,
) -> (r: Vec<Joint<T>>)
    requires
        parents@.len() == raw@.len(),
        children@.len() == raw@.len(),
    ensures
        r@.len() == raw@.len(),
        forall|j: int|
            0 <= j < raw@.len() ==> {
                &&& (#[trigger] r@[j]).name@ == raw@[j].name@
                &&& r@[j].joint_idx == j
                &&& r@[j].joint_type == raw@[j].joint_type
                &&& r@[j].present
                &&& r@[j].preceding_link_idx == Some(parents@[j])
                &&& r@[j].child_link_idx == Some(children@[j])
                &&& r@[j].joint_axes@ == free_axes(
                    joint_type_axis_kinds(raw@[j].joint_type),
                    j as usize,
                    raw@[j].limits,
                )
            },
{
    let m = raw.len();
    let mut joints: Vec<Joint<T>> = Vec::new();
    let mut j: usize = 0;
    while j < m
        invariant
            m == raw@.len(),
            parents@.len() == m,
            children@.len() == m,
            j <= m,
            joints@.len() == j,
            forall|a: int|
                0 <= a < j ==> {
                    &&& (#[trigger] joints@[a]).name@ == raw@[a].name@
                    &&& joints@[a].joint_idx == a
                    &&& joints@[a].joint_type == raw@[a].joint_type
                    &&& joints@[a].present
                    &&& joints@[a].preceding_link_idx == Some(parents@[a])
                    &&& joints@[a].child_link_idx == Some(children@[a])
                    &&& joints@[a].joint_axes@ == free_axes(
                        joint_type_axis_kinds(raw@[a].joint_type),
                        a as usize,
                        raw@[a].limits,
                    )
                },
        decreases m - j,
    {
        let mut joint = Joint::new(&raw[j], j);
        joint.preceding_link_idx = Some(parents[j]);
        joint.child_link_idx = Some(children[j]);
        joints.push(joint);
        j += 1;
    }
    joints
}

/// The one link without a preceding joint, or `None` where there is none or more
/// than one.
pub fn find_root(links: &Vec<Link>) -> (r: Option<usize>)
    ensures
        r matches Some(root) ==> {
            &&& root < links@.len()
            &&& links@[root as int].preceding_joint_idx is None
            &&& forall|i: int|
                0 <= i < links@.len() && i != root ==> (#[trigger] links@[i]).preceding_joint_idx is Some
        },
        r is None ==> {
            ||| forall|i: int|
                0 <= i < links@.len() ==> (#[trigger] links@[i]).preceding_joint_idx is Some
            ||| exists|a: int, b: int|
                0 <= a < b < links@.len() && (#[trigger] links@[a]).preceding_joint_idx is None && (
                #[trigger] links@[b]).preceding_joint_idx is None
        },
{
    let n = links.len();
    let mut found: Option<usize> = None;
    let mut i: usize = 0;
    while i < n
        invariant
            n == links@.len(),
            i <= n,
            found is None ==> forall|a: int|
                0 <= a < i ==> (#[trigger] links@[a]).preceding_joint_idx is Some,
            found matches Some(root) ==> {
                &&& root < i
                &&& links@[root as int].preceding_joint_idx is None
                &&& forall|a: int|
                    0 <= a < i && a != root ==> (#[trigger] links@[a]).preceding_joint_idx is Some
            },
        decreases n - i,
    {
        if links[i].preceding_joint_idx.is_none() {
            match found {
                Some(first) => {
                    assert(links@[first as int].preceding_joint_idx is None && links@[i as int].preceding_joint_idx is None);
                    return None;
                },
                None => {
                    found = Some(i);
                },
            }
        }
        i += 1;
    }
    found
}

} // verus!
