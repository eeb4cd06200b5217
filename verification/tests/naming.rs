use invoy::naming::invoice_document_order;
use invoy::naming::is_invoice_dir_name;
use invoy::naming::output_file_name;
use invoy::naming::parse_invoice_dir_name;

/// The pattern that invoice directories are recognised by, as a regular
/// expression.
const DIR_NAME_PATTERN: &str = r"(?x)
invoice\ 
(?<invoice_id> # invoice id
    (?<year>[0-9]{2}) # invoice year
    (?<month>[0-9]{2}) # invoice month
    (?<day>[0-9]{2}) # invoice day
    (?<load_number>[0-9]+) # invoice load number
)
";

#[test]
fn parses_the_identifier_of_an_invoice_directory() {
    let id = parse_invoice_dir_name("invoice 250407017622").unwrap();
    assert_eq!(id.as_str(), "250407017622");
    assert_eq!(id.year(), "25");
    assert_eq!(id.month(), "04");
    assert_eq!(id.day(), "07");
    assert_eq!(id.load_number(), "017622");
    assert!(is_invoice_dir_name("invoice 250407017622"));
}

#[test]
fn refuses_a_name_without_identifier() {
    assert_eq!(parse_invoice_dir_name("not-an-invoice"), None);
    assert!(!is_invoice_dir_name("not-an-invoice"));
    assert_eq!(parse_invoice_dir_name(""), None);
    assert_eq!(parse_invoice_dir_name("invoice "), None);
    assert_eq!(parse_invoice_dir_name("invoice"), None);
}

#[test]
fn needs_seven_digits() {
    assert_eq!(parse_invoice_dir_name("invoice 123456"), None);
    let id = parse_invoice_dir_name("invoice 1234567").unwrap();
    assert_eq!(id.as_str(), "1234567");
    assert_eq!(id.year(), "12");
    assert_eq!(id.month(), "34");
    assert_eq!(id.day(), "56");
    assert_eq!(id.load_number(), "7");
}

#[test]
fn takes_the_whole_run_of_digits() {
    let id = parse_invoice_dir_name("invoice 2504070176229999 (copy)").unwrap();
    assert_eq!(id.as_str(), "2504070176229999");
    assert_eq!(id.load_number(), "0176229999");
}

#[test]
fn finds_the_identifier_inside_a_longer_name() {
    let id = parse_invoice_dir_name("old invoice 25040701 draft").unwrap();
    assert_eq!(id.as_str(), "25040701");
}

#[test]
fn takes_the_leftmost_place_that_matches() {
    let id = parse_invoice_dir_name("invoice 12 invoice 2504070176 invoice 9999999").unwrap();
    assert_eq!(id.as_str(), "2504070176");
    let id = parse_invoice_dir_name("invoice invoice 1111111").unwrap();
    assert_eq!(id.as_str(), "1111111");
}

#[test]
fn is_strict_about_the_marker_and_the_digits() {
    assert_eq!(parse_invoice_dir_name("Invoice 2504070176"), None);
    assert_eq!(parse_invoice_dir_name("invoice  2504070176"), None);
    assert_eq!(parse_invoice_dir_name("invoice_2504070176"), None);
    assert_eq!(parse_invoice_dir_name("invoice 250407x0176"), None);
    // Digits of other scripts are no digits here.
    assert_eq!(parse_invoice_dir_name("invoice ٢٥٠٤٠٧٠١٧٦"), None);
    let id = parse_invoice_dir_name("é invoice 2504070176é").unwrap();
    assert_eq!(id.as_str(), "2504070176");
}

#[test]
fn agrees_with_the_regular_expression() {
    let pattern = regex::Regex::new(DIR_NAME_PATTERN).unwrap();
    let names = [
        "invoice 250407017622",
        "not-an-invoice",
        "invoice 123456",
        "invoice 1234567",
        "invoice 12 invoice 2504070176",
        "xinvoice 99999999999999999999999999y",
        "invoice 123456 7",
        "invoice 1234567invoice 7654321",
        "INVOICE 1234567",
        "invoice\t1234567",
        "invoice 25040701é",
        "ünvoice invoice 0000000",
        "",
        "invoice ",
        "invoic 1234567",
        "invoice 12345678901234567890",
    ];
    for name in names {
        let expected = pattern
            .captures(name)
            .and_then(|found| found.name("invoice_id"))
            .map(|id| id.as_str().to_owned());
        let groups = pattern.captures(name).map(|found| {
            (
                found["year"].to_owned(),
                found["month"].to_owned(),
                found["day"].to_owned(),
                found["load_number"].to_owned(),
            )
        });
        let id = parse_invoice_dir_name(name);
        assert_eq!(id.as_ref().map(|id| id.as_str().to_owned()), expected, "{name:?}");
        assert_eq!(
            id.map(|id| (id.year(), id.month(), id.day(), id.load_number())),
            groups,
            "{name:?}"
        );
        assert_eq!(is_invoice_dir_name(name), pattern.is_match(name), "{name:?}");
    }
}

#[test]
fn names_the_output_document_after_the_identifier() {
    let id = parse_invoice_dir_name("invoice 250407017622").unwrap();
    assert_eq!(
        output_file_name(&id),
        "Invoice # 250407017622 - Tradeport - Star Transport.pdf"
    );
}

#[test]
fn lists_the_source_documents_in_merge_order() {
    assert_eq!(
        invoice_document_order(),
        vec!["summary.pdf".to_owned(), "confirmation.pdf".to_owned(), "bol.pdf".to_owned()]
    );
}
