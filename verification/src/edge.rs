use vstd::prelude::*;

verus! {

/// A weighted edge between two labelled vertices.
pub struct Edge<V> {
    src: V,
    dst: V,
    weight: u64,
}

impl<V> Edge<V> {
    /// The label at which the edge starts.
    pub closed spec fn source(&self) -> V {
        self.src
    }

    /// The label at which the edge ends.
    pub closed spec fn target(&self) -> V {
        self.dst
    }

    /// The weight of the edge.
    pub closed spec fn cost(&self) -> u64 {
        self.weight
    }

    /// The edge from `src` to `dst` with the given weight.
    pub fn new(src: V, dst: V, weight: u64) -> (e: Self)
        ensures
            e.source() == src,
            e.target() == dst,
            e.cost() == weight,
    {
        Edge { src, dst, weight }
    }

    /// The label at which the edge starts.
    pub fn get_src(&self) -> (v: &V)
        ensures
            *v == self.source(),
    {
        &self.src
    }

    /// The label at which the edge ends.
    pub fn get_dst(&self) -> (v: &V)
        ensures
            *v == self.target(),
    {
        &self.dst
    }

    /// The weight of the edge.
    pub fn get_weight(&self) -> (w: u64)
        ensures
            w == self.cost(),
    {
        self.weight
    }
}

} // verus!
