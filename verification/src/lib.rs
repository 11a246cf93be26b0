//! Sparse trigram matching: strings are turned into sparse rows over a fixed
//! trigram vocabulary, and for every left row the best-scoring right rows are
//! kept. All matrices are stored in compressed-sparse-row form.

pub mod assemble;
pub mod cossim;
pub mod csr;
pub mod driver;
pub mod kernel;
pub mod laws;
pub mod matching;
pub mod order;
pub mod partition;
pub mod reduce;
pub mod rows;
pub mod select;
pub mod storage;
pub mod transpose;
pub mod vectorize;
pub mod vocab;

pub use assemble::Matches;
pub use csr::CsrMatBase;
pub use matching::awesome_cossim;
pub use reduce::topn_from_csr_batches;
pub use storage::{DataStorage, IndPtrStorage, IndexStorage};
