//! The integer core of the Worldbuilder water bake: height keys, the flood queue, the graph
//! the water runs on, the priority flood, the drainage check, the order flow is passed on in,
//! the reach network, the pond search on a strip of cells, notch cuts, and the record: its
//! assembly, its words, and encoding and decoding it.
pub mod keys;
pub mod heap;
pub mod reaches;
pub mod seqs;
pub mod drainage;
pub mod graph;
pub mod flood;
pub mod hydro;
pub mod record;
pub mod links;
pub mod components;
pub mod hollows;
pub mod ponds;
pub mod kinematics;
pub mod crossings;
pub mod lakes;
pub mod words;
pub mod codec;
pub mod channels;
pub mod strips;
pub mod accumulation;
pub mod rings;
pub mod cuts;
pub mod assembly;
pub mod routing;
pub mod bake;
pub mod assemble;
pub mod rewriting;
pub mod extent;
pub mod counts;
