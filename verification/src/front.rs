//! What the front ends decide: how the window answers a message, what a
//! greeting says, and where the address of a file explorer begins.

use vstd::prelude::*;
use vstd::string::StrSliceExecFns;
use vstd::string::StringExecFns;

verus! {

/// What the window is told.
#[derive(Debug, Clone, PartialEq, Eq)]
pub enum Message {
    /// The user asks for the invoice to be built.
    BuildInvoice,
    /// The user asks to pick the invoice directory.
    BeginPickInvoiceDir,
    /// The user has picked this directory.
    EndPickInvoiceDir(String),
    /// The user has picked no directory.
    CancelledPickInvoiceDir,
}

/// What the window is to do next.
#[derive(Debug, Clone, PartialEq, Eq)]
pub enum Action {
    Nothing,
    /// Let the user pick a directory.
    PickInvoiceDir,
    /// Build the invoice of this directory.
    BuildInvoice(String),
    /// Tell the user this.
    Report(String),
}

/// What the window remembers.
#[derive(Debug, Clone, PartialEq, Eq)]
pub struct State {
    /// The invoice directory that was picked last; empty at the start.
    pub invoice_dir: String,
}

/// What the user is told when no directory was picked.
pub open spec fn cancelled_text() -> Seq<char> {
    "user cancelled picking an invoice directory"@
}

/// Answers a message: a picked directory is remembered, a request to build
/// is passed on with the directory that is remembered, a request to pick
/// opens the dialog, and a cancelled dialog is reported.
pub fn update(state: &mut State, message: Message) -> (action: Action)
    ensures
        message matches Message::EndPickInvoiceDir(dir) ==> action is Nothing
            && final(state).invoice_dir@ == dir@,
        !(message is EndPickInvoiceDir) ==> final(state).invoice_dir@ == old(state).invoice_dir@,
        message is BeginPickInvoiceDir ==> action is PickInvoiceDir,
        message is BuildInvoice ==> (action matches Action::BuildInvoice(dir) && dir@
            == old(state).invoice_dir@),
        message is CancelledPickInvoiceDir ==> (action matches Action::Report(text) && text@
            == cancelled_text()),
{
    match message {
        Message::BeginPickInvoiceDir => Action::PickInvoiceDir,
        Message::EndPickInvoiceDir(dir) => {
            state.invoice_dir = dir;
            Action::Nothing
        },
        Message::BuildInvoice => Action::BuildInvoice(state.invoice_dir.clone()),
        Message::CancelledPickInvoiceDir => Action::Report(
            String::from_str("user cancelled picking an invoice directory"),
        ),
    }
}

/// The message that tells of the outcome of picking a directory.
pub fn picked(dir: Option<String>) -> (message: Message)
    ensures
        dir is None ==> message is CancelledPickInvoiceDir,
        dir matches Some(path) ==> (message matches Message::EndPickInvoiceDir(told) && told@
            == path@),
{
    match dir {
        Some(path) => Message::EndPickInvoiceDir(path),
        None => Message::CancelledPickInvoiceDir,
    }
}

/// Greets someone by name.
pub fn greet(name: &str) -> (greeting: String)
    ensures
        greeting@ == "Hello, "@ + name@ + "!"@,
{
    String::from_str("Hello, ").concat(name).concat("!")
}

/// The label that a file explorer puts before its address.
pub open spec fn address_label() -> Seq<char> {
    "Address: "@
}

/// Whether a text begins with the label.
pub open spec fn is_labelled(text: Seq<char>) -> bool {
    text.len() >= address_label().len() && text.subrange(0, address_label().len() as int)
        == address_label()
}

/// The address in the text of a file explorer's address bar: the text
/// without the label, where it begins with one.
pub open spec fn address_in(text: Seq<char>) -> Seq<char> {
    if is_labelled(text) {
        text.subrange(address_label().len() as int, text.len() as int)
    } else {
        text
    }
}

/// Reads the address out of the text of a file explorer's address bar.
pub fn explorer_address(text: &str) -> (address: String)
    ensures
        address@ == address_in(text@),
{
    proof {
        reveal_strlit("Address: ");
    }
    let count = text.unicode_len();
    let labelled = count >= 9 && text.get_char(0) == 'A' && text.get_char(1) == 'd'
        && text.get_char(2) == 'd' && text.get_char(3) == 'r' && text.get_char(4) == 'e'
        && text.get_char(5) == 's' && text.get_char(6) == 's' && text.get_char(7) == ':'
        && text.get_char(8) == ' ';
    proof {
        if labelled {
            assert(text@.subrange(0, 9) =~= address_label());
        } else if count >= 9 {
            let part = text@.subrange(0, 9);
            assert(part[0] == text@[0]);
            assert(part[1] == text@[1]);
            assert(part[2] == text@[2]);
            assert(part[3] == text@[3]);
            assert(part[4] == text@[4]);
            assert(part[5] == text@[5]);
            assert(part[6] == text@[6]);
            assert(part[7] == text@[7]);
            assert(part[8] == text@[8]);
        }
    }
    if labelled {
        text.substring_char(9, count).to_owned()
    } else {
        text.to_owned()
    }
}

} // verus!
