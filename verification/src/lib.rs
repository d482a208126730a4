//! A static site generator's verified core: document discovery and
//! structural parsing, the markup rewrite passes (diagrams, math, asset
//! relinking, figures), the math-delimiter tokenizer, the
//! content-addressed media store, and the monoidal merge of tag styling
//! directives. The unverified edges, such as file and network transfer,
//! the external renderer subprocesses, and the markup parser itself,
//! live outside and talk to this crate through plain values.

use vstd::prelude::*;

pub mod color;
pub mod docs;
pub mod errors;
pub mod model;
pub mod nav;
pub mod pipeline;
pub mod site;
pub mod store;
pub mod tags;
pub mod tokenizer;
pub mod tree;
pub mod util;

verus! {

} // verus!
