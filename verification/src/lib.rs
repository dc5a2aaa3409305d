//! A byte-pair-encoding tokenizer: vocabularies, merge training, encoding and
//! decoding, the csv form of a vocabulary, and the settings around them.

pub mod bisection;
pub mod bpe;
pub mod config;
pub mod counts;
pub mod error;
pub mod evaluator;
pub mod model;
pub mod optimizer;
pub mod round_trip;
pub mod storage;
pub mod text;
pub mod token;
pub mod tokenizer;
pub mod training;
pub mod vocabulary;

pub use bisection::{Bisection, Toward};
pub use bpe::BPE;
pub use config::{Cfg, Config, ConfigView};
pub use error::{TokenizerError, TokenizerResult};
pub use evaluator::Evaluator;
pub use model::GPT;
pub use optimizer::Optimizer;
pub use storage::Storage;
pub use token::{Pair, PairV, Token};
pub use tokenizer::Tokenizer;
pub use vocabulary::Vocabulary;
