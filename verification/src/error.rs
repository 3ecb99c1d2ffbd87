use vstd::prelude::*;

verus! {

/// Error of the corpus line source: the corpus could not be read.
#[derive(Debug)]
pub struct LoaderError {
    pub msg: String,
}

impl LoaderError {
    pub fn new(msg: &str) -> (e: LoaderError)
        ensures
            e.msg@ == msg@,
    {
        LoaderError { msg: msg.to_owned() }
    }
}

/// Error of the vocabulary store: a duplicate token was appended, or a
/// persisted vocabulary could not be loaded.
#[derive(Debug)]
pub struct VocabError {
    pub msg: String,
}

impl VocabError {
    pub fn new(msg: &str) -> (e: VocabError)
        ensures
            e.msg@ == msg@,
    {
        VocabError { msg: msg.to_owned() }
    }
}

/// Error of the training pipeline: corpus ingestion failed.
#[derive(Debug)]
pub struct TrainingError {
    pub msg: String,
}

impl TrainingError {
    pub fn new(msg: &str) -> (e: TrainingError)
        ensures
            e.msg@ == msg@,
    {
        TrainingError { msg: msg.to_owned() }
    }
}

/// Error of vocabulary export: the destination or its format was not usable.
#[derive(Debug)]
pub struct ExportError {
    pub msg: String,
}

impl ExportError {
    pub fn new(msg: &str) -> (e: ExportError)
        ensures
            e.msg@ == msg@,
    {
        ExportError { msg: msg.to_owned() }
    }
}

} // verus!
