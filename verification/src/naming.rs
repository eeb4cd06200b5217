//! How invoice directories and the documents in them are named.
//!
//! A directory belongs to an invoice when its name contains the word
//! `invoice`, a space and at least seven decimal digits. The digits are the
//! invoice identifier: two for the year, two for the month, two for the day,
//! and the rest for the load number.

use vstd::prelude::*;
use vstd::string::StrSliceExecFns;
use vstd::string::StringExecFns;

verus! {

/// The decimal digits `0` to `9`.
pub open spec fn is_digit(c: char) -> bool {
    '0' <= c && c <= '9'
}

/// The marker that stands before an identifier in a directory name.
pub open spec fn marker() -> Seq<char> {
    seq!['i', 'n', 'v', 'o', 'i', 'c', 'e', ' ']
}

/// The fewest digits an identifier has: a date and one digit of load number.
pub open spec fn min_digits() -> int {
    7
}

/// Whether an identifier starts behind a marker that stands at `at`.
pub open spec fn matches_at(name: Seq<char>, at: int) -> bool {
    &&& 0 <= at
    &&& at + marker().len() + min_digits() <= name.len()
    &&& name.subrange(at, at + marker().len()) == marker()
    &&& forall|k: int|
        at + marker().len() <= k < at + marker().len() + min_digits() ==> is_digit(
            #[trigger] name[k],
        )
}

/// Whether the name holds an identifier anywhere.
pub open spec fn has_invoice_id(name: Seq<char>) -> bool {
    exists|at: int| matches_at(name, at)
}

/// Whether `at` is the leftmost place where an identifier's marker stands.
pub open spec fn is_first_match(name: Seq<char>, at: int) -> bool {
    &&& matches_at(name, at)
    &&& forall|before: int| 0 <= before < at ==> !matches_at(name, before)
}

/// Where the run of digits that begins at `from` ends.
pub open spec fn digits_end(name: Seq<char>, from: int) -> int
    decreases name.len() - from,
{
    if 0 <= from < name.len() && is_digit(name[from]) {
        digits_end(name, from + 1)
    } else {
        from
    }
}

/// The identifier that a directory name holds: the whole run of digits behind
/// the leftmost marker that seven digits follow.
pub open spec fn invoice_id_of(name: Seq<char>) -> Option<Seq<char>> {
    if has_invoice_id(name) {
        let at = choose|at: int| is_first_match(name, at);
        Some(name.subrange(at + marker().len(), digits_end(name, at + marker().len())))
    } else {
        None
    }
}

/// An invoice identifier: seven or more decimal digits.
#[derive(Debug, PartialEq, Eq)]
pub struct InvoiceId {
    digits: String,
}

impl View for InvoiceId {
    type V = Seq<char>;

    closed spec fn view(&self) -> Seq<char> {
        self.digits@
    }
}

/// What every identifier is made of.
pub open spec fn is_identifier(digits: Seq<char>) -> bool {
    &&& digits.len() >= min_digits()
    &&& forall|k: int| 0 <= k < digits.len() ==> is_digit(#[trigger] digits[k])
}

impl InvoiceId {
    #[verifier::type_invariant]
    spec fn well_formed(self) -> bool {
        is_identifier(self.digits@)
    }

    /// The identifier as text: seven or more digits.
    pub fn as_str(&self) -> (text: &str)
        ensures
            text@ == self@,
            is_identifier(self@),
    {
        proof {
            use_type_invariant(self);
        }
        self.digits.as_str()
    }

    /// The two digits of the year.
    pub fn year(&self) -> (text: String)
        ensures
            text@ == self@.subrange(0, 2),
    {
        proof {
            use_type_invariant(self);
        }
        self.digits.as_str().substring_char(0, 2).to_owned()
    }

    /// The two digits of the month.
    pub fn month(&self) -> (text: String)
        ensures
            text@ == self@.subrange(2, 4),
    {
        proof {
            use_type_invariant(self);
        }
        self.digits.as_str().substring_char(2, 4).to_owned()
    }

    /// The two digits of the day.
    pub fn day(&self) -> (text: String)
        ensures
            text@ == self@.subrange(4, 6),
    {
        proof {
            use_type_invariant(self);
        }
        self.digits.as_str().substring_char(4, 6).to_owned()
    }

    /// The digits of the load number: all that follow the date.
    pub fn load_number(&self) -> (text: String)
        ensures
            text@ == self@.subrange(6, self@.len() as int),
    {
        proof {
            use_type_invariant(self);
        }
        let text = self.digits.as_str();
        text.substring_char(6, text.unicode_len()).to_owned()
    }
}

/// Whether a character is a decimal digit.
fn digit(c: char) -> (yes: bool)
    ensures
        yes == is_digit(c),
{
    '0' <= c && c <= '9'
}

/// The characters of a text.
fn chars_of(text: &str) -> (chars: Vec<char>)
    ensures
        chars@ == text@,
{
    let count = text.unicode_len();
    let mut chars: Vec<char> = Vec::new();
    let mut i: usize = 0;
    while i < count
        invariant
            count == text@.len(),
            i <= count,
            chars@ == text@.subrange(0, i as int),
        decreases count - i,
    {
        chars.push(text.get_char(i));
        i += 1;
        assert(chars@ =~= text@.subrange(0, i as int));
    }
    assert(text@.subrange(0, count as int) =~= text@);
    chars
}

/// Whether an identifier starts behind a marker that stands at `at`.
fn check_at(chars: &Vec<char>, at: usize) -> (yes: bool)
    requires
        at + 15 <= chars.len(),
    ensures
        yes == matches_at(chars@, at as int),
{
    let marked = chars[at] == 'i' && chars[at + 1] == 'n' && chars[at + 2] == 'v' && chars[at + 3]
        == 'o' && chars[at + 4] == 'i' && chars[at + 5] == 'c' && chars[at + 6] == 'e' && chars[at
        + 7] == ' ';
    proof {
        let part = chars@.subrange(at as int, at + 8);
        if marked {
            assert(part =~= marker());
        } else {
            assert(part[0] == chars@[at as int]);
            assert(part[1] == chars@[at + 1]);
            assert(part[2] == chars@[at + 2]);
            assert(part[3] == chars@[at + 3]);
            assert(part[4] == chars@[at + 4]);
            assert(part[5] == chars@[at + 5]);
            assert(part[6] == chars@[at + 6]);
            assert(part[7] == chars@[at + 7]);
        }
    }
    if !marked {
        return false;
    }
    let mut k: usize = at + 8;
    while k < at + 15
        invariant
            at + 8 <= k <= at + 15,
            at + 15 <= chars.len(),
            forall|j: int| at + 8 <= j < k ==> is_digit(#[trigger] chars@[j]),
        decreases at + 15 - k,
    {
        if !digit(chars[k]) {
            return false;
        }
        k += 1;
    }
    true
}

/// Finds where the run of digits that begins at `from` ends.
fn run_end(chars: &Vec<char>, from: usize) -> (end: usize)
    requires
        from <= chars.len(),
    ensures
        end == digits_end(chars@, from as int),
        from <= end <= chars.len(),
        forall|k: int| from <= k < end ==> is_digit(#[trigger] chars@[k]),
{
    let mut end: usize = from;
    while end < chars.len() && digit(chars[end])
        invariant
            from <= end <= chars.len(),
            digits_end(chars@, from as int) == digits_end(chars@, end as int),
            forall|k: int| from <= k < end ==> is_digit(#[trigger] chars@[k]),
        decreases chars.len() - end,
    {
        end += 1;
    }
    end
}

/// Finds the leftmost place where an identifier's marker stands.
fn find_match(chars: &Vec<char>) -> (found: Option<usize>)
    ensures
        found is None ==> !has_invoice_id(chars@),
        found matches Some(at) ==> is_first_match(chars@, at as int) && at + 15 <= chars.len(),
{
    let count = chars.len();
    if count < 15 {
        return None;
    }
    let mut at: usize = 0;
    while at <= count - 15
        invariant
            count == chars.len(),
            count >= 15,
            forall|before: int| 0 <= before < at ==> !matches_at(chars@, before),
        decreases count - at,
    {
        if check_at(chars, at) {
            return Some(at);
        }
        at += 1;
    }
    assert forall|i: int| !matches_at(chars@, i) by {
        if 0 <= i && i + 15 <= count {
            assert(i < at);
        }
    }
    None
}

/// Reads the invoice identifier out of a directory name.
///
/// Returns the whole run of digits behind the leftmost marker that at least
/// seven digits follow, and `None` where the name holds no such place.
pub fn parse_invoice_dir_name(name: &str) -> (id: Option<InvoiceId>)
    ensures
        id is Some <==> has_invoice_id(name@),
        id matches Some(found) ==> Some(found@) == invoice_id_of(name@),
{
    let chars = chars_of(name);
    match find_match(&chars) {
        None => None,
        Some(at) => {
            let end = run_end(&chars, at + 8);
            proof {
                let first = choose|first: int| is_first_match(name@, first);
                assert(is_first_match(name@, at as int));
                assert(first == at) by {
                    if first < at {
                        assert(!matches_at(name@, first));
                    }
                    if at < first {
                        assert(!matches_at(name@, at as int));
                    }
                }
                lemma_run_covers(chars@, at + 8, at + 15);
            }
            let digits = name.substring_char(at + 8, end).to_owned();
            Some(InvoiceId { digits })
        },
    }
}

/// A run of digits reaches at least as far as any stretch of digits from
/// its start.
proof fn lemma_run_covers(name: Seq<char>, from: int, to: int)
    requires
        0 <= from <= to <= name.len(),
        forall|k: int| from <= k < to ==> is_digit(#[trigger] name[k]),
    ensures
        digits_end(name, from) >= to,
        digits_end(name, from) == digits_end(name, to),
    decreases to - from,
{
    if from < to {
        assert(is_digit(name[from]));
        lemma_run_covers(name, from + 1, to);
    } else {
        lemma_run_extends(name, to);
    }
}

/// A run of digits does not end before it starts, nor behind the name.
proof fn lemma_run_extends(name: Seq<char>, from: int)
    requires
        0 <= from <= name.len(),
    ensures
        from <= digits_end(name, from) <= name.len(),
    decreases name.len() - from,
{
    if from < name.len() && is_digit(name[from]) {
        lemma_run_extends(name, from + 1);
    }
}

/// Whether a directory name is that of an invoice.
pub fn is_invoice_dir_name(name: &str) -> (yes: bool)
    ensures
        yes == has_invoice_id(name@),
{
    let chars = chars_of(name);
    find_match(&chars).is_some()
}

/// What comes before the identifier in the name of the output document.
pub open spec fn output_head() -> Seq<char> {
    "Invoice # "@
}

/// What follows the identifier in the name of the output document.
pub open spec fn output_tail() -> Seq<char> {
    " - Tradeport - Star Transport.pdf"@
}

/// The name of the document that is written for an invoice.
pub fn output_file_name(id: &InvoiceId) -> (name: String)
    ensures
        name@ == output_head() + id@ + output_tail(),
{
    String::from_str("Invoice # ").concat(id.as_str()).concat(" - Tradeport - Star Transport.pdf")
}

/// The names of the source documents, in the order in which they are merged.
pub open spec fn source_names() -> Seq<Seq<char>> {
    seq!["summary.pdf"@, "confirmation.pdf"@, "bol.pdf"@]
}

/// The source documents of an invoice, in merge order.
pub fn invoice_document_order() -> (names: Vec<String>)
    ensures
        names@.len() == 3,
        forall|i: int| 0 <= i < 3 ==> (#[trigger] names@[i])@ == source_names()[i],
{
    let mut names: Vec<String> = Vec::new();
    names.push(String::from_str("summary.pdf"));
    names.push(String::from_str("confirmation.pdf"));
    names.push(String::from_str("bol.pdf"));
    names
}

} // verus!
