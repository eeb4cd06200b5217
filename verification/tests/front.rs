use invoy::document::lower_bound;
use invoy::front::explorer_address;
use invoy::front::greet;
use invoy::front::picked;
use invoy::front::update;
use invoy::front::Action;
use invoy::front::Message;
use invoy::front::State;

fn state(dir: &str) -> State {
    State { invoice_dir: dir.to_owned() }
}

#[test]
fn remembers_the_directory_that_was_picked() {
    let mut window = state("");
    let action = update(&mut window, Message::EndPickInvoiceDir("invoice 250407017622".to_owned()));
    assert_eq!(action, Action::Nothing);
    assert_eq!(window, state("invoice 250407017622"));
    let action = update(&mut window, Message::EndPickInvoiceDir("other".to_owned()));
    assert_eq!(action, Action::Nothing);
    assert_eq!(window, state("other"));
}

#[test]
fn builds_the_invoice_of_the_remembered_directory() {
    let mut window = state("invoice 250407017622");
    assert_eq!(
        update(&mut window, Message::BuildInvoice),
        Action::BuildInvoice("invoice 250407017622".to_owned())
    );
    assert_eq!(window, state("invoice 250407017622"));
    let mut fresh = state("");
    assert_eq!(update(&mut fresh, Message::BuildInvoice), Action::BuildInvoice(String::new()));
}

#[test]
fn opens_the_dialog_on_request() {
    let mut window = state("kept");
    assert_eq!(update(&mut window, Message::BeginPickInvoiceDir), Action::PickInvoiceDir);
    assert_eq!(window, state("kept"));
}

#[test]
fn reports_a_cancelled_dialog() {
    let mut window = state("kept");
    assert_eq!(
        update(&mut window, Message::CancelledPickInvoiceDir),
        Action::Report("user cancelled picking an invoice directory".to_owned())
    );
    assert_eq!(window, state("kept"));
}

#[test]
fn tells_of_the_outcome_of_the_dialog() {
    assert_eq!(picked(None), Message::CancelledPickInvoiceDir);
    assert_eq!(picked(Some("dir".to_owned())), Message::EndPickInvoiceDir("dir".to_owned()));
}

#[test]
fn greets_by_name() {
    assert_eq!(greet("Tom"), "Hello, Tom!");
    assert_eq!(greet(""), "Hello, !");
}

#[test]
fn reads_the_address_behind_its_label() {
    assert_eq!(explorer_address("Address: C:\\invoices"), "C:\\invoices");
    assert_eq!(explorer_address("C:\\invoices"), "C:\\invoices");
    assert_eq!(explorer_address("Address: "), "");
    assert_eq!(explorer_address("Address:"), "Address:");
    assert_eq!(explorer_address("address: x"), "address: x");
    assert_eq!(explorer_address("Address: Address: é"), "Address: é");
    assert_eq!(explorer_address(""), "");
}

#[test]
fn finds_where_an_identifier_belongs() {
    let ids = vec![2, 3, 5, 8];
    assert_eq!(lower_bound(&ids, 1), 0);
    assert_eq!(lower_bound(&ids, 2), 0);
    assert_eq!(lower_bound(&ids, 4), 2);
    assert_eq!(lower_bound(&ids, 8), 3);
    assert_eq!(lower_bound(&ids, 9), 4);
    assert_eq!(lower_bound(&Vec::new(), 9), 0);
}
