pub mod commands;
pub mod file_cache;
pub mod paths;
pub mod store;
pub mod text;
pub mod tree;
pub mod webdav;

use vstd::prelude::*;

verus! {

/// The greeting for `name`.
pub fn greet(name: &str) -> (r: String)
    ensures
        r@ == "Hello, "@ + name@ + "! You've been greeted from Rust!"@,
{
    let head = text::concat("Hello, ", name);
    text::concat(head.as_str(), "! You've been greeted from Rust!")
}

} // verus!
