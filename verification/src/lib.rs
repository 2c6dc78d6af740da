use vstd::prelude::*;

pub mod text;
pub mod numtext;
pub mod ini;
pub mod messages;
pub mod html;
pub mod naming;
pub mod config;
pub mod order;
pub mod pipeline;
pub mod report;
pub mod stats;

verus! {

} // verus!
