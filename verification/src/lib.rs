pub mod text;
pub mod charmap;
pub mod sorted;
pub mod utils;
pub mod alphabet;
pub mod prng;
pub mod bitio;
pub mod ngram;
pub mod encode;
pub mod decode;
pub mod laws;
