//! Seed analysis for the cultivation simulator: the game's two random number
//! generators, reproduced bit for bit, the terrain generator that they drive,
//! the text-seed hash and its inverse, and the helpers that read the game's
//! encrypted data files.
pub mod fp_round;
pub mod sampling;
pub mod rng;
pub mod npc;
pub mod scan;
pub mod text_seed;
pub mod map_maker;
pub mod map_steps;
pub mod spiral_rings;
pub mod crypto;
pub mod text;
pub mod xml;
pub mod xml_parse;
pub mod dict;
pub mod npc_tables;
pub mod sect;
pub mod task;
pub mod things;
pub mod spells;
pub mod lang;
pub mod packed;
pub mod items;
pub mod shadow;
