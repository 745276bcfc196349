//! What makes a list of named links and joints the description of one rooted tree,
//! and the resolution of the names to positions.

use crate::utils::utils_robot::joint::URDFJoint;
use crate::utils::utils_robot::link::URDFLink;
use vstd::prelude::*;

verus! {

/// The link at position `i` carries the name `name`.
pub open spec fn link_named(links: Seq<URDFLink>, i: int, name: Seq<char>) -> bool {
    0 <= i < links.len() && links[i].name@ == name
}

/// No two links share a name.
pub open spec fn link_names_distinct(links: Seq<URDFLink>) -> bool {
    forall|a: int, b: int|
        0 <= a < b < links.len() ==> (#[trigger] links[a]).name@ != (#[trigger] links[b]).name@
}

/// Both links that each joint names exist.
pub open spec fn joint_links_exist<T>(links: Seq<URDFLink>, joints: Seq<URDFJoint<T>>) -> bool {
    forall|j: int|
        0 <= j < joints.len() ==> {
            &&& exists|p: int| link_named(links, p, (#[trigger] joints[j]).parent_link@)
            &&& exists|c: int| link_named(links, c, joints[j].child_link@)
        }
}

/// The position of the parent link of joint `j`.
pub open spec fn joint_parent<T>(links: Seq<URDFLink>, joints: Seq<URDFJoint<T>>, j: int) -> int {
    choose|p: int| link_named(links, p, joints[j].parent_link@)
}

/// The position of the child link of joint `j`.
pub open spec fn joint_child<T>(links: Seq<URDFLink>, joints: Seq<URDFJoint<T>>, j: int) -> int {
    choose|c: int| link_named(links, c, joints[j].child_link@)
}

/// Joint `j` leads to link `i`.
pub open spec fn joint_leads_to<T>(
    links: Seq<URDFLink>,
    joints: Seq<URDFJoint<T>>,
    j: int,
    i: int,
) -> bool {
    0 <= j < joints.len() && joint_child(links, joints, j) == i
}

/// Some joint leads to link `i`.
pub open spec fn link_has_joint<T>(links: Seq<URDFLink>, joints: Seq<URDFJoint<T>>, i: int) -> bool {
    exists|j: int| joint_leads_to(links, joints, j, i)
}

/// `root` is the one link to which no joint leads.
pub open spec fn is_description_root<T>(
    links: Seq<URDFLink>,
    joints: Seq<URDFJoint<T>>,
    root: int,
) -> bool {
    &&& 0 <= root < links.len()
    &&& !link_has_joint(links, joints, root)
    &&& forall|i: int|
        0 <= i < links.len() && i != root ==> #[trigger] link_has_joint(links, joints, i)
}

/// `rank` grows strictly across every joint, from the parent link to the child link.
pub open spec fn is_description_ranking<T>(
    links: Seq<URDFLink>,
    joints: Seq<URDFJoint<T>>,
    rank: Seq<nat>,
) -> bool {
    &&& rank.len() == links.len()
    &&& forall|j: int|
        0 <= j < joints.len() ==> rank[#[trigger] joint_parent(links, joints, j)] < rank[joint_child(
            links,
            joints,
            j,
        )]
}

/// The links and joints describe a single rooted tree: no two links share a name,
/// every joint connects two links of the list, at most one joint leads to a link,
/// exactly one link has no joint leading to it, and no link is its own ancestor.
/// Joints may share a name.
pub open spec fn is_valid_description<T>(links: Seq<URDFLink>, joints: Seq<URDFJoint<T>>) -> bool {
    &&& link_names_distinct(links)
    &&& joint_links_exist(links, joints)
    &&& forall|a: int, b: int|
        0 <= a < b < joints.len() ==> #[trigger] joint_child(links, joints, a)
            != #[trigger] joint_child(links, joints, b)
    &&& exists|root: int| is_description_root(links, joints, root)
    &&& exists|rank: Seq<nat>| is_description_ranking(links, joints, rank)
}

/// With distinct names, the position of a name is the one position that carries it.
pub proof fn lemma_named_position_is_unique(links: Seq<URDFLink>, a: int, b: int, name: Seq<char>)
    requires
        link_names_distinct(links),
        link_named(links, a, name),
        link_named(links, b, name),
    ensures
        a == b,
{
    if a < b {
        assert(links[a].name@ != links[b].name@);
    } else if b < a {
        assert(links[b].name@ != links[a].name@);
    }
}

/// The first position at which a link carries `name`.
pub fn find_link_by_name(links: &Vec<URDFLink>, name: &String) -> (r: Option<usize>)
    ensures
        r matches Some(i) ==> link_named(links@, i as int, name@),
        r is None ==> forall|k: int| !link_named(links@, k, name@),
{
    let mut k: usize = 0;
    while k < links.len()
        invariant
            k <= links@.len(),
            forall|a: int| 0 <= a < k ==> links@[a].name@ != name@,
        decreases links@.len() - k,
    {
        if links[k].name == *name {
            return Some(k);
        }
        k += 1;
    }
    None
}

/// Whether no two links share a name.
pub fn check_link_names_distinct(links: &Vec<URDFLink>) -> (r: bool)
    ensures
        r == link_names_distinct(links@),
{
    let n = links.len();
    let mut b: usize = 0;
    while b < n
        invariant
            n == links@.len(),
            b <= n,
            forall|x: int, y: int|
                0 <= x < y < b ==> (#[trigger] links@[x]).name@ != (#[trigger] links@[y]).name@,
        decreases n - b,
    {
        let mut a: usize = 0;
        while a < b
            invariant
                n == links@.len(),
                a <= b < n,
                forall|x: int| 0 <= x < a ==> (#[trigger] links@[x]).name@ != links@[b as int].name@,
            decreases b - a,
        {
            if links[a].name == links[b].name {
                return false;
            }
            a += 1;
        }
        b += 1;
    }
    true
}

/// The positions of the parent and of the child link of every joint, or `None`
/// where a joint names a link that is not in the list.
pub fn resolve_joint_links<T>(links: &Vec<URDFLink>, joints: &Vec<URDFJoint<T>>) -> (r: Option<
    (Vec<usize>, Vec<usize>),
>)
    requires
        link_names_distinct(links@),
    ensures
        r is Some <==> joint_links_exist(links@, joints@),
        r matches Some((parents, children)) ==> {
            &&& parents@.len() == joints@.len()
            &&& children@.len() == joints@.len()
            &&& forall|j: int|
                0 <= j < joints@.len() ==> {
                    &&& (#[trigger] parents@[j]) == joint_parent(links@, joints@, j)
                    &&& parents@[j] < links@.len()
                }
            &&& forall|j: int|
                0 <= j < joints@.len() ==> {
                    &&& (#[trigger] children@[j]) == joint_child(links@, joints@, j)
                    &&& children@[j] < links@.len()
                }
        },
{
    let mut parents: Vec<usize> = Vec::new();
    let mut children: Vec<usize> = Vec::new();
    let mut j: usize = 0;
    while j < joints.len()
        invariant
            j <= joints@.len(),
            link_names_distinct(links@),
            parents@.len() == j,
            children@.len() == j,
            forall|a: int|
                0 <= a < j ==> {
                    &&& exists|p: int| link_named(links@, p, (#[trigger] joints@[a]).parent_link@)
                    &&& exists|c: int| link_named(links@, c, joints@[a].child_link@)
                },
            forall|a: int|
                0 <= a < j ==> {
                    &&& (#[trigger] parents@[a]) == joint_parent(links@, joints@, a)
                    &&& parents@[a] < links@.len()
                },
            forall|a: int|
                0 <= a < j ==> {
                    &&& (#[trigger] children@[a]) == joint_child(links@, joints@, a)
                    &&& children@[a] < links@.len()
                },
        decreases joints@.len() - j,
    {
        let parent = match find_link_by_name(links, &joints[j].parent_link) {
            Some(p) => p,
            None => {
                assert(!joint_links_exist(links@, joints@)) by {
                    if joint_links_exist(links@, joints@) {
                        let p = choose|p: int|
                            link_named(links@, p, joints@[j as int].parent_link@);
                        assert(link_named(links@, p, joints@[j as int].parent_link@));
                    }
                }
                return None;
            },
        };
        let child = match find_link_by_name(links, &joints[j].child_link) {
            Some(c) => c,
            None => {
                assert(!joint_links_exist(links@, joints@)) by {
                    if joint_links_exist(links@, joints@) {
                        let c = choose|c: int| link_named(links@, c, joints@[j as int].child_link@);
                        assert(link_named(links@, c, joints@[j as int].child_link@));
                    }
                }
                return None;
            },
        };
        proof {
            lemma_named_position_is_unique(
                links@,
                parent as int,
                joint_parent(links@, joints@, j as int),
                joints@[j as int].parent_link@,
            );
            lemma_named_position_is_unique(
                links@,
                child as int,
                joint_child(links@, joints@, j as int),
                joints@[j as int].child_link@,
            );
        }
        parents.push(parent);
        children.push(child);
        j += 1;
    }
    Some((parents, children))
}

} // verus!
