use vstd::prelude::*;

verus! {

/// What the ring needs of a node descriptor: a stable string identity,
/// used as its name and as the seed of its placements, and a weight, its
/// capacity in units.
pub trait WithWeightInfo {
    /// The node's string identity.
    spec fn spec_name(&self) -> Seq<char>;

    /// The node's weight.
    spec fn spec_weight(&self) -> usize;

    /// The node's weight; zero keeps the node off the ring.
    fn get_weight(&self) -> (r: usize)
        ensures
            r == self.spec_weight(),
    ;

    /// The node's string identity.
    fn to_string(&self) -> (r: String)
        ensures
            r@ == self.spec_name(),
    ;
}

/// A node with a name and an explicit weight.
#[derive(Clone, Copy, Debug, Hash)]
pub struct NodeInfoWithWeigth {
    pub node_name: &'static str,
    pub weight: usize,
}

impl WithWeightInfo for NodeInfoWithWeigth {
    open spec fn spec_name(&self) -> Seq<char> {
        self.node_name@
    }

    open spec fn spec_weight(&self) -> usize {
        self.weight
    }

    fn get_weight(&self) -> (r: usize) {
        self.weight
    }

    fn to_string(&self) -> (r: String) {
        self.node_name.to_owned()
    }
}

/// A node with a name and the weight 1.
#[derive(Clone, Copy, Debug, Hash)]
pub struct NodeInfo {
    pub node_name: &'static str,
}

impl WithWeightInfo for NodeInfo {
    open spec fn spec_name(&self) -> Seq<char> {
        self.node_name@
    }

    open spec fn spec_weight(&self) -> usize {
        1
    }

    fn get_weight(&self) -> (r: usize) {
        1
    }

    fn to_string(&self) -> (r: String) {
        self.node_name.to_owned()
    }
}

} // verus!
