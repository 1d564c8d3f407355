//! Verified building blocks of a small GPT-2 text generator: the random
//! number generator and top-k ranking used for sampling, the byte-level BPE
//! tokenizer, the safetensors container format, and the bookkeeping of the
//! generation loop.

pub mod buckets;
pub mod sampler;
pub mod tokenizer;
pub mod safetensors;
pub mod model;
