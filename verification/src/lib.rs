use vstd::prelude::*;

pub mod agent;
pub mod architecture;
pub mod bpe;
pub mod cache;
pub mod byte_token;
pub mod cancel;
pub mod chat_view;
pub mod chatml;
pub mod cli;
pub mod colbert;
pub mod config;
pub mod dequant;
pub mod events;
pub mod gemma;
pub mod gemma_inputs;
pub mod gguf;
pub mod index;
pub mod model;
pub mod quant_dot;
pub mod sampling;
pub mod sentencepiece;
pub mod tensor;
pub mod text;
pub mod tokenizer;
pub mod tool;
pub mod tui;

verus! {

} // verus!
