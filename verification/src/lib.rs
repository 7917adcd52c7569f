//! Client side of the YPIR private information retrieval protocol.
pub mod aligned;
pub mod answer_laws;
pub mod arith;
pub mod bits;
pub mod byte_laws;
pub mod cache;
pub mod cache_aligned;
pub mod cache_laws;
pub mod client;
pub mod client_laws;
pub mod constants;
pub mod double_answer;
pub mod double_answer_laws;
pub mod double_laws;
pub mod double_query;
pub mod kernel;
pub mod kernel_laws;
pub mod key_laws;
pub mod lwe;
pub mod lwe_laws;
pub mod modulus_switch;
pub mod noise_analysis;
pub mod offline;
pub mod offline_bytes;
pub mod offline_size;
pub mod pack_laws;
pub mod params;
pub mod params_json;
pub mod pir_client;
pub mod poly;
pub mod pt_iter;
pub mod query;
pub mod query_laws;
pub mod ring;
pub mod ring_laws;
pub mod scheme;
pub mod serialize;
pub mod spiral;
pub mod text;
pub mod to_bytes;
