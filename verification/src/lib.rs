//! Flat encodings of structured values for a decision procedure.
//!
//! A structured value (a list, a key-ordered mapping, an optional field, a
//! tagged union, an array, a tuple, a scalar) is laid out as an ordered run
//! of leaf slots, each of one logic sort. The crate says how such values are
//! laid out and merged, which constraints their encodings obey, and how one
//! flat array of expressions is computed from another without copying it.
//!
//! # Values
//!
//! [`composite::Composite`] is what every structured value offers: the
//! number and the sorts of its leaves, the merge with another value of its
//! type, a walk over the leaves of two values in the order of their merge,
//! and the constraints of its encoding. What each of them gives is stated
//! over the [`shape::Shape`] of the value, the mathematical model of its
//! layout. [`laws`] holds what follows for all shapes.
//!
//! Sequences ([`sequence`]), mappings with integer keys ([`treemap`]),
//! optional values, tuples and the unit value are laid out part by part;
//! tagged unions ([`choice`]) put a boolean selector in front of each
//! alternative; arrays ([`array`]) lay out their element only.
//!
//! # Sorts and expressions
//!
//! Sorts ([`sort`]) and expressions ([`expr`]) are plain trees whose
//! equality is structural. The variables of an expression are numbers; what
//! they stand for is up to who hands the expressions in. Nothing in this
//! crate builds the sorts or expressions of a logic engine: it describes
//! them.
//!
//! # Graphs
//!
//! A [`transformation::Transformation`] is a graph of nodes, each of which
//! stands for a flat array that is computed from a base array. Nodes are
//! named by their numbers and refer to nodes that were made before them, so
//! that one node can be part of many without being copied. A node that maps
//! a function over all slots of another keeps the result in a cache, which
//! belongs to the base array it was filled over: the contracts say when a
//! cache may be read, and [`transformation::Transformation::clear_cache`]
//! makes a node fit for another base array. The functions of such nodes
//! have to be pure: called on equal arguments they give equal results.
//! [`graph`] is the model of graphs that the contracts speak of.
//!
//! # Transitions
//!
//! A [`transition::Transition`] changes a value and the node of its flat
//! array in step: taking an item out of a sequence, putting one in, reading
//! an array at an index.
pub mod list;
pub mod sort;
pub mod expr;
pub mod getter;
pub mod shape;
pub mod layout;
pub mod laws;
pub mod fold;
pub mod composite;
pub mod keyed;
pub mod sequence;
pub mod choice;
pub mod keyorder;
pub mod treemap;
pub mod array;
pub mod graph;
pub mod evaluation;
pub mod transformation;
pub mod transition;
