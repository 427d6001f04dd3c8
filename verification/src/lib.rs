//! Verified core of the challenge watcher: the algorithms of the solved
//! challenges and the bookkeeping decisions of the watcher itself.

pub mod vault;
pub mod fenwick;
pub mod median;
pub mod text;
pub mod decode;
pub mod resonance;
pub mod life_path;
pub mod harvest;
pub mod heist;
pub mod spell;
pub mod watcher;
pub mod tree;
pub mod route;
pub mod rescue;
