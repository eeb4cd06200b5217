//! The graph-merge strategy, as far as it decides: what becomes of source
//! documents that were read or could not be read, and of the outcome of
//! writing the merged document.

use crate::document::Document;
use crate::document::DocumentView;
use crate::err::BuildInvoiceError;
use crate::merge::merge;
use crate::merge::merged;
use crate::merge::views_of;
use vstd::prelude::*;
use vstd::string::StringExecFns;

verus! {

/// What reading a source document came to.
#[derive(Debug, PartialEq, Eq)]
pub enum Loaded {
    /// The file is absent or could not be read.
    Missing,
    /// The file was read, but is no document; the text says why.
    Unreadable(String),
    /// The document that the file holds.
    Read(Document),
}

/// A source document: where it was looked for, and what was found.
#[derive(Debug, PartialEq, Eq)]
pub struct Source {
    pub path: String,
    pub loaded: Loaded,
}

/// Whether the source at place `at` is the first that gave no document.
pub open spec fn is_first_failure(sources: Seq<Source>, at: int) -> bool {
    &&& 0 <= at < sources.len()
    &&& !(sources[at].loaded is Read)
    &&& forall|before: int| 0 <= before < at ==> (#[trigger] sources[before]).loaded is Read
}

/// Whether every source gave a document.
pub open spec fn all_read(sources: Seq<Source>) -> bool {
    forall|i: int| 0 <= i < sources.len() ==> (#[trigger] sources[i]).loaded is Read
}

/// The documents that the sources gave, in their order.
pub open spec fn documents_of(sources: Seq<Source>) -> Seq<DocumentView> {
    Seq::new(sources.len(), |i: int| sources[i].loaded->Read_0@)
}

/// What is said of a file that could not be read as a document, or not be
/// written: its path, a colon, and the reason.
pub open spec fn codec_text(path: Seq<char>, why: Seq<char>) -> Seq<char> {
    path + ": "@ + why
}

/// Only one source is the first that gave no document.
proof fn lemma_one_first_failure(sources: Seq<Source>, first: int)
    requires
        is_first_failure(sources, first),
    ensures
        forall|at: int| #[trigger] is_first_failure(sources, at) ==> at == first,
{
    assert forall|at: int| #[trigger] is_first_failure(sources, at) implies at == first by {
        if at < first {
            assert(sources[at].loaded is Read);
        }
        if first < at {
            assert(sources[first].loaded is Read);
        }
    }
}

/// Says why a file could not be read as a document, or not be written.
fn codec_error(path: &str, why: &str) -> (error: BuildInvoiceError)
    ensures
        error matches BuildInvoiceError::Codec(text) && text@ == codec_text(path@, why@),
{
    BuildInvoiceError::Codec(String::from_str(path).concat(": ").concat(why))
}

/// Merges the source documents in their order, once all of them are at
/// hand.
///
/// The first source that gave no document decides the error: a file that
/// is absent or unreadable is reported as a missing input, by its path, and
/// a file that is no document as a failure of the codec, with its path and
/// the reason. Where every source gave a document, the result is that of
/// merging them.
pub fn merge_sources(sources: &Vec<Source>) -> (done: Result<Document, BuildInvoiceError>)
    ensures
        forall|at: int| #[trigger]
            is_first_failure(sources@, at) ==> match sources[at].loaded {
                Loaded::Missing => done matches Err(BuildInvoiceError::MissingInput(path))
                    && path@ == sources[at].path@,
                Loaded::Unreadable(why) => done matches Err(BuildInvoiceError::Codec(text))
                    && text@ == codec_text(sources[at].path@, why@),
                Loaded::Read(_) => true,
            },
        all_read(sources@) ==> match merged(documents_of(sources@)) {
            Ok(wanted) => done matches Ok(doc) && doc@ == wanted,
            Err(e) => done matches Err(refused) && refused == e,
        },
{
    let mut docs: Vec<Document> = Vec::new();
    let mut i: usize = 0;
    while i < sources.len()
        invariant
            i <= sources.len(),
            docs.len() == i,
            forall|k: int| 0 <= k < i ==> (#[trigger] sources[k]).loaded is Read,
            forall|k: int| 0 <= k < i ==> (#[trigger] docs[k])@ == sources[k].loaded->Read_0@,
        decreases sources.len() - i,
    {
        match &sources[i].loaded {
            Loaded::Missing => {
                let error = BuildInvoiceError::MissingInput(sources[i].path.clone());
                proof {
                    lemma_one_first_failure(sources@, i as int);
                }
                return Err(error);
            },
            Loaded::Unreadable(why) => {
                let error = codec_error(sources[i].path.as_str(), why.as_str());
                proof {
                    lemma_one_first_failure(sources@, i as int);
                }
                return Err(error);
            },
            Loaded::Read(doc) => {
                docs.push(doc.copy());
            },
        }
        i += 1;
    }
    proof {
        assert(views_of(docs@) =~= documents_of(sources@));
        assert forall|at: int| !is_first_failure(sources@, at) by {
            if 0 <= at < sources.len() {
                assert(sources[at].loaded is Read);
            }
        }
    }
    merge(&docs)
}

/// What writing the merged document came to: a failure is reported as a
/// failure of the codec, with the path of the output and the reason, and is
/// not tried again.
pub fn written(output_path: &str, outcome: Result<(), String>) -> (done: Result<
    (),
    BuildInvoiceError,
>)
    ensures
        outcome is Ok ==> done is Ok,
        outcome matches Err(why) ==> (done matches Err(BuildInvoiceError::Codec(text)) && text@
            == codec_text(output_path@, why@)),
{
    match outcome {
        Ok(()) => Ok(()),
        Err(why) => Err(codec_error(output_path, why.as_str())),
    }
}

} // verus!
