use invoy::builder_util::build;
use invoy::builder_util::build_invoice;
use invoy::builder_util::check_inputs;
use invoy::builder_util::plan_invoice;
use invoy::builder_util::BuildInvoiceArguments;
use invoy::builder_util::InvoiceBuilder;
use invoy::err::BuildInvoiceError;
use invoy::gs::Builder;
use std::cell::RefCell;
use std::path::PathBuf;
use std::rc::Rc;

/// A strategy that notes what it was handed and answers as it was told.
struct Recorder {
    calls: Rc<RefCell<Vec<(Vec<String>, String)>>>,
    answer: Result<(), BuildInvoiceError>,
}

impl InvoiceBuilder for Recorder {
    fn build(
        self,
        input_paths: Vec<String>,
        output_path: String,
    ) -> Result<(), BuildInvoiceError> {
        self.calls.borrow_mut().push((input_paths, output_path));
        self.answer
    }
}

/// The names of the files of a directory that holds every source document.
fn sources() -> Vec<String> {
    vec![
        "bol.pdf".to_owned(),
        "confirmation.pdf".to_owned(),
        "notes.txt".to_owned(),
        "summary.pdf".to_owned(),
    ]
}

fn inside(dir: &str, name: &str) -> String {
    let mut path = PathBuf::from(dir);
    path.push(name);
    path.to_str().unwrap().to_owned()
}

#[test]
fn plans_nothing_without_a_directory_name() {
    assert_eq!(plan_invoice(None), Err(BuildInvoiceError::ParseInvoiceDirName));
}

#[test]
fn plans_nothing_for_a_name_without_identifier() {
    assert_eq!(plan_invoice(Some("not-an-invoice")), Err(BuildInvoiceError::InputNameMalformed));
    assert_eq!(plan_invoice(Some("invoice 123456")), Err(BuildInvoiceError::InputNameMalformed));
}

#[test]
fn plans_the_documents_of_an_invoice() {
    let plan = plan_invoice(Some("invoice 250407017622")).unwrap();
    assert_eq!(plan.invoice_id.as_str(), "250407017622");
    assert_eq!(plan.output_name, "Invoice # 250407017622 - Tradeport - Star Transport.pdf");
    assert_eq!(
        plan.input_names,
        vec!["summary.pdf".to_owned(), "confirmation.pdf".to_owned(), "bol.pdf".to_owned()]
    );
}

#[test]
fn hands_the_strategy_the_paths_inside_the_directory() {
    let calls = Rc::new(RefCell::new(Vec::new()));
    let dir = inside(&inside("data", "2025"), "invoice 250407017622");
    let done = build(
        BuildInvoiceArguments { input_dir: dir.clone(), files: sources() },
        Recorder { calls: calls.clone(), answer: Ok(()) },
    );
    assert_eq!(done, Ok(()));
    let calls = calls.borrow();
    assert_eq!(calls.len(), 1);
    assert_eq!(
        calls[0].0,
        vec![inside(&dir, "summary.pdf"), inside(&dir, "confirmation.pdf"), inside(&dir, "bol.pdf")]
    );
    assert_eq!(
        calls[0].1,
        inside(&dir, "Invoice # 250407017622 - Tradeport - Star Transport.pdf")
    );
}

#[test]
fn reads_the_identifier_from_the_last_component_only() {
    let calls = Rc::new(RefCell::new(Vec::new()));
    let dir = inside("invoice 250407017622", "scans");
    let done = build(
        BuildInvoiceArguments { input_dir: dir, files: sources() },
        Recorder { calls: calls.clone(), answer: Ok(()) },
    );
    assert_eq!(done, Err(BuildInvoiceError::InputNameMalformed));
    assert!(calls.borrow().is_empty());
}

#[test]
fn returns_what_the_strategy_answers() {
    let calls = Rc::new(RefCell::new(Vec::new()));
    let done = build(
        BuildInvoiceArguments { input_dir: "invoice 250407017622".to_owned(), files: sources() },
        Recorder { calls: calls.clone(), answer: Err(BuildInvoiceError::GsRetrieveStdout) },
    );
    assert_eq!(done, Err(BuildInvoiceError::GsRetrieveStdout));
    assert_eq!(calls.borrow().len(), 1);
}

#[test]
fn does_not_call_the_strategy_for_other_directories() {
    let calls = Rc::new(RefCell::new(Vec::new()));
    let done = build(
        BuildInvoiceArguments { input_dir: "not-an-invoice".to_owned(), files: Vec::new() },
        Recorder { calls: calls.clone(), answer: Ok(()) },
    );
    assert_eq!(done, Err(BuildInvoiceError::InputNameMalformed));
    assert!(calls.borrow().is_empty());
}

#[test]
fn finds_no_directory_name_in_a_path_that_ends_above() {
    let calls = Rc::new(RefCell::new(Vec::new()));
    let done = build(
        BuildInvoiceArguments { input_dir: inside("invoice 250407017622", ".."), files: sources() },
        Recorder { calls: calls.clone(), answer: Ok(()) },
    );
    assert_eq!(done, Err(BuildInvoiceError::ParseInvoiceDirName));
    assert!(calls.borrow().is_empty());
    let done = build(
        BuildInvoiceArguments { input_dir: String::new(), files: sources() },
        Recorder { calls: calls.clone(), answer: Ok(()) },
    );
    assert_eq!(done, Err(BuildInvoiceError::ParseInvoiceDirName));
}

#[test]
fn reports_every_error_of_a_run() {
    assert_eq!(build_invoice(Vec::new()), None);
    assert_eq!(
        build_invoice(vec![BuildInvoiceError::NoPagesRoot]),
        Some("no pages root found in the source documents".to_owned())
    );
    assert_eq!(
        build_invoice(vec![
            BuildInvoiceError::InputNameMalformed,
            BuildInvoiceError::ParseInvoiceDirName,
            BuildInvoiceError::MissingInput("bol.pdf".to_owned()),
        ]),
        Some(
            "input directory name is malformed\n\
             unable to extract name of invoice directory from provided path\n\
             required source file is missing: bol.pdf"
                .to_owned()
        )
    );
}

#[test]
fn does_not_call_the_strategy_where_a_source_document_is_missing() {
    let calls = Rc::new(RefCell::new(Vec::new()));
    let done = build(
        BuildInvoiceArguments {
            input_dir: "invoice 250407017622".to_owned(),
            files: vec!["summary.pdf".to_owned(), "bol.pdf".to_owned()],
        },
        Recorder { calls: calls.clone(), answer: Ok(()) },
    );
    assert_eq!(done, Err(BuildInvoiceError::MissingInput("confirmation.pdf".to_owned())));
    assert!(calls.borrow().is_empty());
    // The name is looked at before the files.
    let done = build(
        BuildInvoiceArguments { input_dir: "not-an-invoice".to_owned(), files: Vec::new() },
        Recorder { calls: calls.clone(), answer: Ok(()) },
    );
    assert_eq!(done, Err(BuildInvoiceError::InputNameMalformed));
    assert!(calls.borrow().is_empty());
}

#[test]
fn says_what_starting_ghostscript_came_to() {
    assert_eq!(invoy::gs::launched(Ok(true)), Ok(()));
    assert_eq!(invoy::gs::launched(Ok(false)), Err(BuildInvoiceError::GsRetrieveStdout));
    assert_eq!(
        invoy::gs::launched(Err("No such file or directory".to_owned())),
        Err(BuildInvoiceError::GsCommandRun("No such file or directory".to_owned()))
    );
}

#[test]
fn words_every_error() {
    assert_eq!(
        BuildInvoiceError::GsRetrieveStdout.message(),
        "could not retrieve child ghostscript process' \"stdout\""
    );
    assert_eq!(
        BuildInvoiceError::InputNameNotUtf8.message(),
        "input directory name is not valid UTF-8"
    );
    assert_eq!(BuildInvoiceError::InputNameMalformed.message(), "input directory name is malformed");
    assert_eq!(
        BuildInvoiceError::GsCommandRun("No such file or directory".to_owned()).message(),
        "unable to run ghostscript command: No such file or directory"
    );
    assert_eq!(
        BuildInvoiceError::ParseInvoiceDirName.message(),
        "unable to extract name of invoice directory from provided path"
    );
    assert_eq!(
        BuildInvoiceError::MissingInput("bol.pdf".to_owned()).message(),
        "required source file is missing: bol.pdf"
    );
    assert_eq!(
        BuildInvoiceError::NoPagesRoot.message(),
        "no pages root found in the source documents"
    );
    assert_eq!(
        BuildInvoiceError::NoCatalogRoot.message(),
        "no catalog found in the source documents"
    );
    assert_eq!(
        BuildInvoiceError::Codec("summary.pdf: broken".to_owned()).message(),
        "document could not be read or written: summary.pdf: broken"
    );
    assert_eq!(
        BuildInvoiceError::IdentifierSpaceExhausted.message(),
        "the merged objects cannot be numbered within 32 bits"
    );
}

#[test]
fn runs_ghostscript_with_the_fixed_flags() {
    let gs = Builder {};
    assert_eq!(gs.program(), "gs");
    let inputs = vec!["summary.pdf".to_owned(), "confirmation.pdf".to_owned(), "bol.pdf".to_owned()];
    assert_eq!(
        gs.arguments(&inputs, "invoice.pdf"),
        vec![
            "-sDEVICE=pdfwrite".to_owned(),
            "-sPAPERSIZE=letter".to_owned(),
            "-dFIXEDMEDIA".to_owned(),
            "-dPDFFitPage".to_owned(),
            "-dCompatibilityLevel=1.4".to_owned(),
            "-o".to_owned(),
            "invoice.pdf".to_owned(),
            "summary.pdf".to_owned(),
            "confirmation.pdf".to_owned(),
            "bol.pdf".to_owned(),
        ]
    );
    assert_eq!(gs.arguments(&Vec::new(), "out.pdf").len(), 7);
}

fn names(list: &[&str]) -> Vec<String> {
    list.iter().map(|name| (*name).to_owned()).collect()
}

#[test]
fn accepts_a_directory_that_holds_every_source_document() {
    assert_eq!(check_inputs(&names(&["bol.pdf", "notes.txt", "summary.pdf", "confirmation.pdf"])), Ok(()));
    assert_eq!(check_inputs(&names(&["summary.pdf", "confirmation.pdf", "bol.pdf"])), Ok(()));
}

#[test]
fn names_the_first_source_document_that_is_missing() {
    assert_eq!(
        check_inputs(&names(&["bol.pdf", "summary.pdf"])),
        Err(BuildInvoiceError::MissingInput("confirmation.pdf".to_owned()))
    );
    assert_eq!(
        check_inputs(&names(&["confirmation.pdf"])),
        Err(BuildInvoiceError::MissingInput("summary.pdf".to_owned()))
    );
    assert_eq!(
        check_inputs(&names(&["summary.pdf", "confirmation.pdf", "BOL.pdf", "bol.pdf.bak"])),
        Err(BuildInvoiceError::MissingInput("bol.pdf".to_owned()))
    );
    assert_eq!(
        check_inputs(&Vec::new()),
        Err(BuildInvoiceError::MissingInput("summary.pdf".to_owned()))
    );
}
