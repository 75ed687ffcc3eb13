use vstd::prelude::*;

pub mod assets;
pub mod binary32;
pub mod cli;
pub mod entity;
pub mod frame;
pub mod host;
pub mod input;
pub mod plugins;
pub mod scaffold;
pub mod spawn;
pub mod sprites;
pub mod text;
pub mod textures;

verus! {

} // verus!
