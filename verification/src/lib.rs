//! Index bookkeeping for procedurally grown stone meshes: cyclic index
//! arithmetic on vertex rings, the stitching of two neighbouring rings into
//! triangles, the plan of rings that a stone is built from, and the random
//! tree that links the nodes of a lava flow.
pub mod modular;
pub mod rings;
pub mod flow;
pub mod plan;
mod random;
