//! FRI low-degree testing over finite fields, and the bagging of Merkle
//! mountain range peaks.

pub mod algebra;
pub mod b_field_element;
pub mod bytes;
pub mod codec;
pub mod digest;
pub mod extension;
pub mod field;
pub mod field_laws;
pub mod fri;
pub mod fri_laws;
pub mod fri_lemmas;
pub mod fri_model;
pub mod generator;
pub mod group;
pub mod interpolation;
pub mod low_degree;
pub mod merkle_laws;
pub mod merkle_tree;
pub mod messages;
pub mod ntt;
pub mod other;
pub mod parameter_laws;
pub mod polynomial;
pub mod primality;
pub mod proof_stream;
pub mod protocol_laws;
pub mod prover_laws;
pub mod roots;
pub mod sampling_laws;
pub mod shared;
pub mod tip5;
pub mod tip5_laws;
pub mod utils;
pub mod x_field_element;
