//! Building one invoice: from the directory of an invoice to the call of the
//! strategy that writes its document.

use crate::err::BuildInvoiceError;
use crate::naming::has_invoice_id;
use crate::naming::invoice_document_order;
use crate::naming::invoice_id_of;
use crate::naming::is_digit;
use crate::naming::matches_at;
use crate::naming::output_file_name;
use crate::naming::output_head;
use crate::naming::output_tail;
use crate::naming::parse_invoice_dir_name;
use crate::naming::source_names;
use crate::naming::InvoiceId;
use vstd::prelude::*;
use vstd::string::StringExecFns;

verus! {

/// A strategy that turns source documents into one output document.
pub trait InvoiceBuilder {
    /// Writes the document at `output_path` from the documents at
    /// `input_paths`, taken in their order.
    fn build(self, input_paths: Vec<String>, output_path: String) -> Result<
        (),
        BuildInvoiceError,
    >;
}

/// What is needed to build an invoice.
#[derive(Debug, Clone, PartialEq, Eq)]
pub struct BuildInvoiceArguments {
    /// The directory that holds the source documents.
    pub input_dir: String,
    /// The names of the files that the directory holds.
    pub files: Vec<String>,
}

/// What is to be done for one invoice directory.
#[derive(Debug, PartialEq, Eq)]
pub struct InvoicePlan {
    pub invoice_id: InvoiceId,
    /// The name of the document to write.
    pub output_name: String,
    /// The names of the documents to merge, in merge order.
    pub input_names: Vec<String>,
}

/// Whether `part` stands somewhere in `whole`.
pub open spec fn is_part_of(part: Seq<char>, whole: Seq<char>) -> bool {
    exists|at: int|
        0 <= at && at + part.len() <= whole.len() && #[trigger] whole.subrange(
            at,
            at + part.len(),
        ) == part
}

/// The final component of a path, as `std::path::Path::file_name` finds it
/// on the platform that the library is built for. There it is a function
/// of the path alone.
pub uninterp spec fn final_component_of(path: Seq<char>) -> Option<Seq<char>>;

/// The path of the entry `name` of the directory `dir`, as
/// `std::path::PathBuf::push` makes it on the platform that the library is
/// built for. There it is a function of the two alone.
pub uninterp spec fn entry_path_of(dir: Seq<char>, name: Seq<char>) -> Seq<char>;

/// The final component of a path, by `std::path::Path::file_name`. It is
/// the named result, and it stands somewhere in the path.
#[verifier::external_body]
fn final_component(path: &str) -> (name: Option<String>)
    ensures
        match name {
            Some(n) => final_component_of(path@) == Some(n@) && is_part_of(n@, path@),
            None => final_component_of(path@) is None,
        },
{
    match std::path::Path::new(path).file_name() {
        Some(name) => Some(name.to_string_lossy().into_owned()),
        None => None,
    }
}

/// The path of an entry of a directory, by `std::path::PathBuf::push`. It
/// is the named result; nothing else is claimed of it.
#[verifier::external_body]
fn entry_of(dir: &str, name: &str) -> (path: String)
    ensures
        path@ == entry_path_of(dir@, name@),
{
    let mut path = std::path::PathBuf::from(dir);
    path.push(name);
    path.to_string_lossy().into_owned()
}

/// Plans the work for a directory, given the final component of its path.
///
/// Without a final component there is no name to read. A name that holds no
/// identifier is refused as malformed. Otherwise the plan names the output document after
/// the identifier and lists the source documents in merge order.
pub fn plan_invoice(dir_name: Option<&str>) -> (plan: Result<InvoicePlan, BuildInvoiceError>)
    ensures
        dir_name is None ==> plan == Err::<InvoicePlan, BuildInvoiceError>(
            BuildInvoiceError::ParseInvoiceDirName,
        ),
        dir_name matches Some(name) ==> (!has_invoice_id(name@) ==> plan == Err::<
            InvoicePlan,
            BuildInvoiceError,
        >(BuildInvoiceError::InputNameMalformed)),
        dir_name matches Some(name) ==> (has_invoice_id(name@) ==> (plan matches Ok(p) && {
            &&& Some(p.invoice_id@) == invoice_id_of(name@)
            &&& p.output_name@ == output_head() + p.invoice_id@ + output_tail()
            &&& p.input_names.deep_view() == source_names()
        })),
{
    let name = match dir_name {
        Some(name) => name,
        None => {
            return Err(BuildInvoiceError::ParseInvoiceDirName);
        },
    };
    let invoice_id = match parse_invoice_dir_name(name) {
        Some(id) => id,
        None => {
            return Err(BuildInvoiceError::InputNameMalformed);
        },
    };
    let output_name = output_file_name(&invoice_id);
    let input_names = invoice_document_order();
    assert(input_names.deep_view() =~= source_names());
    Ok(InvoicePlan { invoice_id, output_name, input_names })
}

/// Whether one of the names is the given one.
pub open spec fn holds_name(names: Seq<String>, name: Seq<char>) -> bool {
    exists|i: int| 0 <= i < names.len() && (#[trigger] names[i])@ == name
}

/// Whether the source document at place `at` of the merge order is the
/// first that is not among the names.
pub open spec fn is_first_missing(names: Seq<String>, at: int) -> bool {
    &&& 0 <= at < source_names().len()
    &&& !holds_name(names, source_names()[at])
    &&& forall|before: int| 0 <= before < at ==> holds_name(names, #[trigger] source_names()[before])
}

/// Whether one of the names is the given one.
fn holds(names: &Vec<String>, name: &String) -> (yes: bool)
    ensures
        yes == holds_name(names@, name@),
{
    let mut i: usize = 0;
    while i < names.len()
        invariant
            i <= names.len(),
            forall|k: int| 0 <= k < i ==> (#[trigger] names[k])@ != name@,
        decreases names.len() - i,
    {
        if names[i] == *name {
            return true;
        }
        i += 1;
    }
    false
}

/// Checks that a directory holds every source document, given the names of
/// the files that it holds. Where one is missing, the error names the first
/// that is, in merge order.
pub fn check_inputs(found: &Vec<String>) -> (checked: Result<(), BuildInvoiceError>)
    ensures
        checked is Ok <==> forall|i: int|
            0 <= i < source_names().len() ==> holds_name(found@, #[trigger] source_names()[i]),
        checked matches Err(e) ==> (e matches BuildInvoiceError::MissingInput(name) && exists|
            at: int,
        | #[trigger] is_first_missing(found@, at) && name@ == source_names()[at]),
{
    let wanted = invoice_document_order();
    let mut i: usize = 0;
    while i < wanted.len()
        invariant
            i <= wanted.len(),
            wanted@.len() == 3,
            forall|k: int| 0 <= k < 3 ==> (#[trigger] wanted@[k])@ == source_names()[k],
            forall|k: int| 0 <= k < i ==> holds_name(found@, #[trigger] source_names()[k]),
        decreases wanted.len() - i,
    {
        if !holds(found, &wanted[i]) {
            let name = wanted[i].clone();
            proof {
                assert(is_first_missing(found@, i as int));
            }
            return Err(BuildInvoiceError::MissingInput(name));
        }
        i += 1;
    }
    Ok(())
}

/// An identifier in a part of a name is an identifier in the name.
pub proof fn lemma_id_in_part(part: Seq<char>, whole: Seq<char>)
    requires
        is_part_of(part, whole),
        has_invoice_id(part),
    ensures
        has_invoice_id(whole),
{
    let start = choose|start: int|
        0 <= start && start + part.len() <= whole.len() && #[trigger] whole.subrange(
            start,
            start + part.len(),
        ) == part;
    let at = choose|at: int| matches_at(part, at);
    let copy = whole.subrange(start, start + part.len());
    assert(whole.subrange(start + at, start + at + 8) =~= part.subrange(at, at + 8));
    assert forall|k: int| start + at + 8 <= k < start + at + 15 implies is_digit(
        #[trigger] whole[k],
    ) by {
        assert(whole[k] == copy[k - start]);
    }
    assert(matches_at(whole, start + at));
}

/// Whether every source document is among the names.
pub open spec fn holds_all(names: Seq<String>) -> bool {
    forall|i: int| 0 <= i < source_names().len() ==> holds_name(names, #[trigger] source_names()[i])
}

/// The paths of the source documents in a directory, in merge order.
pub open spec fn input_paths_in(dir: Seq<char>) -> Seq<Seq<char>> {
    Seq::new(3, |i: int| entry_path_of(dir, source_names()[i]))
}

/// The path of the output document of an invoice in a directory.
pub open spec fn output_path_in(dir: Seq<char>, id: Seq<char>) -> Seq<char> {
    entry_path_of(dir, output_head() + id + output_tail())
}

/// Builds the invoice of a directory with the given strategy.
///
/// A path without a final component ends in the error that says so. A
/// final component that holds no invoice identifier is refused as
/// malformed. A directory that lacks a source document ends in the error
/// that names the first one missing, in merge order. In none of these cases
/// is the strategy called. Otherwise the strategy is called once, with the
/// paths of the three source documents in merge order and the path of the
/// output document, all inside the directory, and what it returns is
/// returned as it is.
pub fn build<B: InvoiceBuilder>(args: BuildInvoiceArguments, builder: B) -> (done: Result<
    (),
    BuildInvoiceError,
>)
    ensures
        !has_invoice_id(args.input_dir@) ==> (done == Err::<(), BuildInvoiceError>(
            BuildInvoiceError::ParseInvoiceDirName,
        ) || done == Err::<(), BuildInvoiceError>(BuildInvoiceError::InputNameMalformed)),
        final_component_of(args.input_dir@) is None ==> done == Err::<(), BuildInvoiceError>(
            BuildInvoiceError::ParseInvoiceDirName,
        ),
        final_component_of(args.input_dir@) matches Some(name) ==> (!has_invoice_id(name) ==> done
            == Err::<(), BuildInvoiceError>(BuildInvoiceError::InputNameMalformed)),
        final_component_of(args.input_dir@) matches Some(name) ==> (has_invoice_id(name)
            && !holds_all(args.files@) ==> (done matches Err(
            BuildInvoiceError::MissingInput(missing),
        ) && exists|at: int| #[trigger]
            is_first_missing(args.files@, at) && missing@ == source_names()[at])),
        final_component_of(args.input_dir@) matches Some(name) ==> (has_invoice_id(name)
            && holds_all(args.files@) ==> exists|input_paths: Vec<String>, output_path: String|
            output_path@ == output_path_in(args.input_dir@, invoice_id_of(name)->0)
                && input_paths.deep_view() == input_paths_in(args.input_dir@)
                && #[trigger] call_ensures(
                B::build,
                (builder, input_paths, output_path),
                done,
            )),
{
    let dir_name = final_component(args.input_dir.as_str());
    let planned = match &dir_name {
        Some(name) => plan_invoice(Some(name.as_str())),
        None => plan_invoice(None),
    };
    let plan = match planned {
        Ok(plan) => plan,
        Err(e) => {
            return Err(e);
        },
    };
    proof {
        lemma_id_in_part(dir_name->0@, args.input_dir@);
    }
    match check_inputs(&args.files) {
        Ok(()) => {},
        Err(e) => {
            return Err(e);
        },
    }
    proof {
        assert(source_names().len() == 3);
        assert(plan.input_names.deep_view().len() == plan.input_names.len());
    }
    let output_path = entry_of(args.input_dir.as_str(), plan.output_name.as_str());
    let mut input_paths: Vec<String> = Vec::new();
    let mut i: usize = 0;
    while i < plan.input_names.len()
        invariant
            i <= plan.input_names.len(),
            plan.input_names.len() == 3,
            plan.input_names.deep_view() == source_names(),
            input_paths.len() == i,
            forall|k: int|
                0 <= k < i ==> (#[trigger] input_paths[k])@ == entry_path_of(
                    args.input_dir@,
                    source_names()[k],
                ),
        decreases plan.input_names.len() - i,
    {
        proof {
            assert(plan.input_names.deep_view()[i as int] == plan.input_names[i as int]@);
        }
        input_paths.push(entry_of(args.input_dir.as_str(), plan.input_names[i].as_str()));
        i += 1;
    }
    proof {
        assert(input_paths.deep_view() =~= input_paths_in(args.input_dir@));
    }
    builder.build(input_paths, output_path)
}

/// The messages of the errors, each on a line of its own, in their order.
pub open spec fn lines_of(errors: Seq<BuildInvoiceError>) -> Seq<char>
    decreases errors.len(),
{
    if errors.len() == 0 {
        Seq::empty()
    } else if errors.len() == 1 {
        errors[0].message_spec()
    } else {
        lines_of(errors.drop_last()) + "\n"@ + errors.last().message_spec()
    }
}

/// The report of a run over many directories: nothing where every
/// directory was built, and otherwise the message of every error, each on a
/// line of its own, in the order of the errors.
pub fn build_invoice(errors: Vec<BuildInvoiceError>) -> (report: Option<String>)
    ensures
        errors.len() == 0 ==> report is None,
        errors.len() > 0 ==> (report matches Some(text) && text@ == lines_of(errors@)),
{
    if errors.len() == 0 {
        return None;
    }
    let mut text = errors[0].message();
    let mut i: usize = 1;
    proof {
        assert(errors@.take(1).len() == 1);
        assert(errors@.take(1)[0] == errors[0]);
    }
    while i < errors.len()
        invariant
            1 <= i <= errors.len(),
            text@ == lines_of(errors@.take(i as int)),
        decreases errors.len() - i,
    {
        proof {
            assert(errors@.take(i + 1).drop_last() =~= errors@.take(i as int));
            assert(errors@.take(i + 1).last() == errors[i as int]);
        }
        text.append("\n");
        text.append(errors[i].message().as_str());
        i += 1;
    }
    proof {
        assert(errors@.take(i as int) =~= errors@);
    }
    Some(text)
}

} // verus!
