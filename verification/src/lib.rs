//! Skeletons of triangulated meshes, and paths generated in their likeness.
//!
//! A mesh is read into a vertex table and a mesh graph (`mesh`, `assemble`).
//! Orientation lays directed, acyclic chains over the mesh graph (`orient`),
//! kept with the table in a `VertexDag` (`dag`, `views`). From every root the
//! longest walk is extracted (`longest`, `paths`), lowest root first
//! (`rank`). The steps of a walk are written as offset tokens (`token`), whose
//! fields are numbers in text (`number`); on such tokens a variable-order
//! Markov chain is trained that generates new token sequences from a seed
//! (`markov`, `rng`).
//!
//! Positions and other coordinates are carried as single-precision bit
//! patterns and never computed with; what is computed from them lies outside
//! this library.
//!
//! `walks` holds the vocabulary of the graph contracts. `store`, `seen` and
//! one function of `rank` rest on `petgraph`, `rustc-hash` and `itertools`;
//! their contracts are stated there and taken on trust. `indices` and
//! `motion` serve the display: index lists, and the steering of the camera.

pub mod assemble;
pub mod dag;
pub mod indices;
pub mod longest;
pub mod markov;
pub mod mesh;
pub mod motion;
pub mod number;
pub mod orient;
pub mod paths;
pub mod rank;
pub mod rng;
pub mod seen;
pub mod store;
pub mod token;
pub mod views;
pub mod walks;
