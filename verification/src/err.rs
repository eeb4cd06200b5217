//! The errors that building an invoice document can end in.

use vstd::prelude::*;
use vstd::string::StringExecFns;

verus! {

/// Why an invoice could not be built.
#[derive(Debug, Clone, PartialEq, Eq)]
pub enum BuildInvoiceError {
    /// The output stream of the ghostscript process could not be captured.
    GsRetrieveStdout,
    /// The path of the directory is not valid UTF-8.
    InputNameNotUtf8,
    /// The name of the directory holds no invoice identifier.
    InputNameMalformed,
    /// The ghostscript process could not be started; the text says why.
    GsCommandRun(String),
    /// The path has no final component to read a directory name from.
    ParseInvoiceDirName,
    /// A required source file is absent or unreadable; the text names it.
    MissingInput(String),
    /// No source document holds a pages root.
    NoPagesRoot,
    /// No source document holds a catalog.
    NoCatalogRoot,
    /// Reading or writing a document failed; the text says where and why.
    Codec(String),
    /// The merged objects cannot be numbered within 32 bits.
    IdentifierSpaceExhausted,
}

impl BuildInvoiceError {
    /// The sentence that reports this error.
    pub open spec fn message_spec(self) -> Seq<char> {
        match self {
            BuildInvoiceError::GsRetrieveStdout =>
                "could not retrieve child ghostscript process' \"stdout\""@,
            BuildInvoiceError::InputNameNotUtf8 => "input directory name is not valid UTF-8"@,
            BuildInvoiceError::InputNameMalformed => "input directory name is malformed"@,
            BuildInvoiceError::GsCommandRun(why) =>
                "unable to run ghostscript command: "@ + why@,
            BuildInvoiceError::ParseInvoiceDirName =>
                "unable to extract name of invoice directory from provided path"@,
            BuildInvoiceError::MissingInput(name) => "required source file is missing: "@ + name@,
            BuildInvoiceError::NoPagesRoot => "no pages root found in the source documents"@,
            BuildInvoiceError::NoCatalogRoot => "no catalog found in the source documents"@,
            BuildInvoiceError::Codec(why) => "document could not be read or written: "@ + why@,
            BuildInvoiceError::IdentifierSpaceExhausted =>
                "the merged objects cannot be numbered within 32 bits"@,
        }
    }

    /// Renders the error as text.
    pub fn message(&self) -> (text: String)
        ensures
            text@ == self.message_spec(),
    {
        match self {
            BuildInvoiceError::GsRetrieveStdout => String::from_str(
                "could not retrieve child ghostscript process' \"stdout\"",
            ),
            BuildInvoiceError::InputNameNotUtf8 => String::from_str(
                "input directory name is not valid UTF-8",
            ),
            BuildInvoiceError::InputNameMalformed => String::from_str(
                "input directory name is malformed",
            ),
            BuildInvoiceError::GsCommandRun(why) => String::from_str(
                "unable to run ghostscript command: ",
            ).concat(why.as_str()),
            BuildInvoiceError::ParseInvoiceDirName => String::from_str(
                "unable to extract name of invoice directory from provided path",
            ),
            BuildInvoiceError::MissingInput(name) => String::from_str(
                "required source file is missing: ",
            ).concat(name.as_str()),
            BuildInvoiceError::NoPagesRoot => String::from_str(
                "no pages root found in the source documents",
            ),
            BuildInvoiceError::NoCatalogRoot => String::from_str(
                "no catalog found in the source documents",
            ),
            BuildInvoiceError::Codec(why) => String::from_str(
                "document could not be read or written: ",
            ).concat(why.as_str()),
            BuildInvoiceError::IdentifierSpaceExhausted => String::from_str(
                "the merged objects cannot be numbered within 32 bits",
            ),
        }
    }
}

} // verus!
