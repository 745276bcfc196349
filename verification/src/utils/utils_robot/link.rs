use vstd::prelude::*;

verus! {

/// A link as the kinematic description names it.
pub struct URDFLink {
    pub name: String,
}

impl URDFLink {
    pub fn new(name: String) -> (r: Self)
        ensures
            r.name == name,
    {
        URDFLink { name }
    }

    pub fn name(&self) -> (r: &String)
        ensures
            r == &self.name,
    {
        &self.name
    }
}

/// A rigid body of the robot, addressed by its position in the model's list of links.
/// Relations to other links and to joints are held as indices.
pub struct Link {
    pub name: String,
    pub link_idx: usize,
    /// A link that is not present is left out of traversal and of every state.
    pub present: bool,
    /// The parent link; `None` for the root.
    pub preceding_link_idx: Option<usize>,
    /// The joint that connects the parent to this link; `None` for the root.
    pub preceding_joint_idx: Option<usize>,
    /// The links whose parent is this link.
    pub children_link_idxs: Vec<usize>,
}

impl Link {
    /// A present link without relations.
    pub fn new(urdf_link: &URDFLink, link_idx: usize) -> (r: Self)
        ensures
            r.name@ == urdf_link.name@,
            r.link_idx == link_idx,
            r.present,
            r.preceding_link_idx is None,
            r.preceding_joint_idx is None,
            r.children_link_idxs@.len() == 0,
    {
        Link {
            name: urdf_link.name.clone(),
            link_idx,
            present: true,
            preceding_link_idx: None,
            preceding_joint_idx: None,
            children_link_idxs: Vec::new(),
        }
    }

    /// The synthetic link that carries a mobile base: a present root whose only
    /// child is `child_link_idx`.
    pub fn new_base_of_chain_link(name: String, link_idx: usize, child_link_idx: usize) -> (r: Self)
        ensures
            r.name == name,
            r.link_idx == link_idx,
            r.present,
            r.preceding_link_idx is None,
            r.preceding_joint_idx is None,
            r.children_link_idxs@ == seq![child_link_idx],
    {
        let mut children_link_idxs: Vec<usize> = Vec::new();
        children_link_idxs.push(child_link_idx);
        Link {
            name,
            link_idx,
            present: true,
            preceding_link_idx: None,
            preceding_joint_idx: None,
            children_link_idxs,
        }
    }

    pub fn name(&self) -> (r: &String)
        ensures
            r == &self.name,
    {
        &self.name
    }

    pub fn link_idx(&self) -> (r: usize)
        ensures
            r == self.link_idx,
    {
        self.link_idx
    }

    pub fn present(&self) -> (r: bool)
        ensures
            r == self.present,
    {
        self.present
    }

    pub fn preceding_link_idx(&self) -> (r: Option<usize>)
        ensures
            r == self.preceding_link_idx,
    {
        self.preceding_link_idx
    }

    pub fn preceding_joint_idx(&self) -> (r: Option<usize>)
        ensures
            r == self.preceding_joint_idx,
    {
        self.preceding_joint_idx
    }

    pub fn children_link_idxs(&self) -> (r: &Vec<usize>)
        ensures
            r == &self.children_link_idxs,
    {
        &self.children_link_idxs
    }
}

} // verus!
