//! The ghostscript strategy: the command line that has ghostscript rasterize
//! the source documents into one output document.

use crate::err::BuildInvoiceError;
use vstd::prelude::*;
use vstd::string::StringExecFns;

verus! {

/// Builds an invoice by handing the source documents to ghostscript.
#[derive(Debug, Clone, Copy, PartialEq, Eq)]
pub struct Builder {}

/// The flags that every ghostscript run is started with: the writer device,
/// the page size, fitting to fixed media, the compatibility level, and the
/// flag that announces the output path.
pub open spec fn creation_flags() -> Seq<Seq<char>> {
    seq![
        "-sDEVICE=pdfwrite"@,
        "-sPAPERSIZE=letter"@,
        "-dFIXEDMEDIA"@,
        "-dPDFFitPage"@,
        "-dCompatibilityLevel=1.4"@,
        "-o"@,
    ]
}

/// The arguments of a ghostscript run: the flags, the output path, then the
/// input paths in their order.
pub open spec fn arguments_of(input_paths: Seq<Seq<char>>, output_path: Seq<char>) -> Seq<
    Seq<char>,
> {
    creation_flags() + seq![output_path] + input_paths
}

impl Builder {
    /// The name of the program that is run.
    pub fn program(&self) -> (name: String)
        ensures
            name@ == "gs"@,
    {
        String::from_str("gs")
    }

    /// The arguments that the program is run with.
    pub fn arguments(&self, input_paths: &Vec<String>, output_path: &str) -> (args: Vec<String>)
        ensures
            args.deep_view() == arguments_of(input_paths.deep_view(), output_path@),
    {
        let mut args: Vec<String> = Vec::new();
        args.push(String::from_str("-sDEVICE=pdfwrite"));
        args.push(String::from_str("-sPAPERSIZE=letter"));
        args.push(String::from_str("-dFIXEDMEDIA"));
        args.push(String::from_str("-dPDFFitPage"));
        args.push(String::from_str("-dCompatibilityLevel=1.4"));
        args.push(String::from_str("-o"));
        args.push(String::from_str(output_path));
        assert(args.deep_view() =~= creation_flags() + seq![output_path@]);
        let mut i: usize = 0;
        while i < input_paths.len()
            invariant
                i <= input_paths.len(),
                args.deep_view() == creation_flags() + seq![output_path@]
                    + input_paths.deep_view().subrange(0, i as int),
            decreases input_paths.len() - i,
        {
            let ghost before = args.deep_view();
            args.push(input_paths[i].clone());
            i += 1;
            assert(args.deep_view() =~= before.push(input_paths[i - 1]@));
            assert(input_paths.deep_view().subrange(0, i as int) =~= input_paths.deep_view().subrange(
                0,
                i - 1,
            ).push(input_paths[i - 1]@));
            assert(args.deep_view() =~= creation_flags() + seq![output_path@]
                + input_paths.deep_view().subrange(0, i as int));
        }
        assert(input_paths.deep_view().subrange(0, i as int) =~= input_paths.deep_view());
        args
    }
}

/// Says what starting the program came to. The program may have failed to
/// start, with a reason, or have started, with or without an output stream
/// to read from.
///
/// A program that did not start is reported with the reason; one whose
/// output cannot be read is reported as such; otherwise all is well.
pub fn launched(started: Result<bool, String>) -> (done: Result<(), BuildInvoiceError>)
    ensures
        started matches Err(why) ==> (done matches Err(BuildInvoiceError::GsCommandRun(text))
            && text@ == why@),
        started == Ok::<bool, String>(false) ==> done == Err::<(), BuildInvoiceError>(
            BuildInvoiceError::GsRetrieveStdout,
        ),
        started == Ok::<bool, String>(true) ==> done is Ok,
{
    match started {
        Err(why) => Err(BuildInvoiceError::GsCommandRun(why)),
        Ok(false) => Err(BuildInvoiceError::GsRetrieveStdout),
        Ok(true) => Ok(()),
    }
}

} // verus!
