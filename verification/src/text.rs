//! What the library takes from the standard library's strings, and what it
//! says of each: the order of two texts, a text without one character, a
//! text in lower case, and a text read as an unsigned number.
use vstd::prelude::*;

verus! {

/// How the first of two values stands to the second.
#[derive(Clone, Copy, Debug, PartialEq, Eq, Structural)]
pub enum Order {
    Less,
    Equal,
    Greater,
}

/// Whether `a` comes before `b` in dictionary order, character by character
/// by code point; a proper prefix comes before the longer text.
pub open spec fn text_less(a: Seq<char>, b: Seq<char>) -> bool
    decreases a.len(),
{
    if b.len() == 0 {
        false
    } else if a.len() == 0 {
        true
    } else if a[0] != b[0] {
        a[0] < b[0]
    } else {
        text_less(a.drop_first(), b.drop_first())
    }
}

/// The order of two texts.
pub open spec fn text_order(a: Seq<char>, b: Seq<char>) -> Order {
    if a == b {
        Order::Equal
    } else if text_less(a, b) {
        Order::Less
    } else {
        Order::Greater
    }
}

/// Dictionary order never holds both ways, so no text comes before itself.
pub proof fn lemma_text_less_asymmetric(a: Seq<char>, b: Seq<char>)
    requires
        text_less(a, b),
    ensures
        !text_less(b, a),
        a != b,
    decreases a.len(),
{
    if a.len() > 0 && b.len() > 0 && a[0] == b[0] {
        lemma_text_less_asymmetric(a.drop_first(), b.drop_first());
    }
}

/// Of two different texts one comes before the other.
pub proof fn lemma_text_less_total(a: Seq<char>, b: Seq<char>)
    requires
        a != b,
    ensures
        text_less(a, b) || text_less(b, a),
    decreases a.len(),
{
    if a.len() > 0 && b.len() > 0 && a[0] == b[0] {
        if a.drop_first() == b.drop_first() {
            assert(a =~= seq![a[0]] + a.drop_first());
            assert(b =~= seq![b[0]] + b.drop_first());
        }
        lemma_text_less_total(a.drop_first(), b.drop_first());
    } else if a.len() == 0 && b.len() == 0 {
        assert(a =~= b);
    }
}

/// Dictionary order is transitive.
pub proof fn lemma_text_less_transitive(a: Seq<char>, b: Seq<char>, c: Seq<char>)
    requires
        text_less(a, b),
        text_less(b, c),
    ensures
        text_less(a, c),
    decreases a.len(),
{
    if a.len() > 0 && a[0] == b[0] && b[0] == c[0] {
        lemma_text_less_transitive(a.drop_first(), b.drop_first(), c.drop_first());
    }
}

/// The text with every occurrence of one character taken out.
pub open spec fn without(text: Seq<char>, unwanted: char) -> Seq<char> {
    text.filter(|c: char| c != unwanted)
}

/// Whether the character is one of the ten decimal digits.
pub open spec fn is_digit(c: char) -> bool {
    '0' <= c <= '9'
}

/// The number that a run of decimal digits writes.
pub open spec fn digits_value(digits: Seq<char>) -> nat
    decreases digits.len(),
{
    if digits.len() == 0 {
        0
    } else {
        (digits_value(digits.drop_last()) * 10 + (digits.last() as u32 - '0' as u32)) as nat
    }
}

/// The text read as an unsigned 32-bit number: one or more decimal digits,
/// a single `+` allowed before them, nothing else anywhere, and a value
/// that fits in 32 bits.
pub open spec fn unsigned_of(text: Seq<char>) -> Option<u32> {
    let digits = if text.len() > 0 && text[0] == '+' {
        text.drop_first()
    } else {
        text
    };
    if digits.len() > 0 && (forall|i: int| 0 <= i < digits.len() ==> is_digit(#[trigger] digits[i]))
        && digits_value(digits) <= u32::MAX {
        Some(digits_value(digits) as u32)
    } else {
        None
    }
}

/// The text in lower case, as the standard library's `str::to_lowercase`
/// gives it: a function of the text alone, fixed by the Unicode tables.
pub uninterp spec fn lowercase_of(text: Seq<char>) -> Seq<char>;

/// `str::cmp`. Strings are ordered by their bytes, which for UTF-8 is the
/// dictionary order of their code points: the claim here.
#[verifier::external_body]
pub(crate) fn compare_text(a: &str, b: &str) -> (o: Order)
    ensures
        o == text_order(a@, b@),
{
    match a.cmp(b) {
        core::cmp::Ordering::Less => Order::Less,
        core::cmp::Ordering::Equal => Order::Equal,
        core::cmp::Ordering::Greater => Order::Greater,
    }
}

/// `str::replace` with a character as the pattern and the empty string in
/// its place: every match of the character is dropped and the rest is kept
/// in order.
#[verifier::external_body]
pub(crate) fn remove_char(text: &str, unwanted: char) -> (kept: String)
    ensures
        kept@ == without(text@, unwanted),
{
    text.replace(unwanted, "")
}

/// `str::to_lowercase`. The result is named, not described.
#[verifier::external_body]
pub(crate) fn lowercase(text: &str) -> (lowered: String)
    ensures
        lowered@ == lowercase_of(text@),
{
    text.to_lowercase()
}

/// `str::parse::<u32>`, its error dropped. The standard library accepts an
/// optional `+` and then decimal digits only, at least one, and refuses a
/// value beyond 32 bits.
#[verifier::external_body]
pub(crate) fn parse_unsigned(text: &str) -> (number: Option<u32>)
    ensures
        number == unsigned_of(text@),
{
    text.parse::<u32>().ok()
}

} // verus!
