use vstd::prelude::*;

verus! {

/// The errors of the pipeline, each with its message.
#[derive(Clone, Debug)]
pub enum Error {
    Config(String),
    Database(String),
    Processing(String),
    IO(String),
    Json(String),
    Parquet(String),
    Other(String),
}

} // verus!
