//! The record codec: a contact record and its one-line comma-delimited text
//! form. A line is well formed when it has exactly three comma-separated
//! fields and its first field is a decimal numeral that fits the identifier
//! type; any other line, the empty line included, is malformed.

use vstd::prelude::*;
use vstd::string::*;

use crate::text::{
    all_digits, digit_val, free_of, is_digit, lemma_num_val_nonneg, lemma_split_field,
    lemma_split_whole, num_val, parse_digits, split_char, split_on,
};

verus! {

/// One contact: an identifier, a required name, and an optional email, the
/// empty string standing for "no email".
#[derive(Debug, Clone, PartialEq)]
pub struct Record {
    pub id: u16,
    pub name: String,
    pub email: String,
}

/// The mathematical value of a record: its identifier and the character
/// sequences of its two text fields.
#[verifier::ext_equal]
pub struct RecordV {
    pub id: u16,
    pub name: Seq<char>,
    pub email: Seq<char>,
}

impl View for Record {
    type V = RecordV;

    open spec fn view(&self) -> RecordV {
        RecordV { id: self.id, name: self.name@, email: self.email@ }
    }
}

/// A text field that survives the line format: it contains neither the field
/// separator nor a line terminator.
pub open spec fn valid_field(f: Seq<char>) -> bool {
    free_of(f, ',') && free_of(f, '\n')
}

/// A record whose text fields survive encoding and decoding unchanged.
pub open spec fn valid_record(r: RecordV) -> bool {
    valid_field(r.name) && valid_field(r.email)
}

/// A non-empty digit string whose value fits the identifier type.
pub open spec fn is_id_numeral(d: Seq<char>) -> bool {
    d.len() > 0 && all_digits(d) && num_val(d) <= 65535
}

/// The record denoted by one line body (no terminator): exactly three
/// comma-separated fields whose first is an identifier numeral, or nothing.
pub open spec fn parse_line(s: Seq<char>) -> Option<RecordV> {
    let fs = split_on(s, ',');
    if fs.len() == 3 && is_id_numeral(fs[0]) {
        Some(RecordV { id: num_val(fs[0]) as u16, name: fs[1], email: fs[2] })
    } else {
        None
    }
}

/// The character of the decimal digit `n`.
pub open spec fn digit_char(n: nat) -> char {
    if n == 0 {
        '0'
    } else if n == 1 {
        '1'
    } else if n == 2 {
        '2'
    } else if n == 3 {
        '3'
    } else if n == 4 {
        '4'
    } else if n == 5 {
        '5'
    } else if n == 6 {
        '6'
    } else if n == 7 {
        '7'
    } else if n == 8 {
        '8'
    } else {
        '9'
    }
}

/// The decimal numeral of `n`, most significant digit first, no sign and no
/// leading zero (a single zero for 0).
pub open spec fn dec_digits(n: nat) -> Seq<char>
    decreases n,
{
    if n < 10 {
        seq![digit_char(n)]
    } else {
        dec_digits(n / 10).push(digit_char(n % 10))
    }
}

/// The one line that encodes `r`: numeral, separator, name, separator,
/// email, line terminator.
pub open spec fn encode_line(r: RecordV) -> Seq<char> {
    dec_digits(r.id as nat) + seq![','] + r.name + seq![','] + r.email + seq!['\n']
}

/// `s` with one trailing line terminator removed, if it has one.
pub open spec fn strip_newline(s: Seq<char>) -> Seq<char> {
    if s.len() > 0 && s.last() == '\n' {
        s.drop_last()
    } else {
        s
    }
}

/// The numeral of `n` is a non-empty digit string with value `n`.
pub proof fn lemma_dec_digits(n: nat)
    ensures
        dec_digits(n).len() >= 1,
        all_digits(dec_digits(n)),
        num_val(dec_digits(n)) == n,
    decreases n,
{
    if n < 10 {
        assert(seq![digit_char(n)].drop_last() =~= Seq::<char>::empty());
        assert(seq![digit_char(n)].last() == digit_char(n));
        assert(num_val(Seq::<char>::empty()) == 0);
        assert(num_val(seq![digit_char(n)]) == digit_val(digit_char(n)));
    } else {
        lemma_dec_digits(n / 10);
        let d = dec_digits(n / 10);
        let c = digit_char(n % 10);
        assert(d.push(c).drop_last() =~= d);
        assert(d.push(c).last() == c);
        assert(num_val(d.push(c)) == 10 * num_val(d) + digit_val(c));
        assert(digit_val(c) == n % 10);
        assert(n == 10 * (n / 10) + n % 10);
        assert(forall|i: int| 0 <= i < d.push(c).len() ==> is_digit(d.push(c)[i]));
    }
}

/// A digit string contains neither a separator nor a line terminator.
pub proof fn lemma_digits_valid_field(d: Seq<char>)
    requires
        all_digits(d),
    ensures
        valid_field(d),
{
    assert(',' as u32 == 44);
    assert('\n' as u32 == 10);
}

/// Round trip: decoding the encoded line of any valid record gives that
/// record back.
pub proof fn lemma_round_trip(r: RecordV)
    requires
        valid_record(r),
    ensures
        parse_line(strip_newline(encode_line(r))) == Some(r),
{
    let d = dec_digits(r.id as nat);
    lemma_dec_digits(r.id as nat);
    lemma_digits_valid_field(d);
    let body = d + seq![','] + r.name + seq![','] + r.email;
    assert(encode_line(r) =~= body.push('\n'));
    assert(strip_newline(encode_line(r)) =~= body);
    lemma_split_field(d, r.name + seq![','] + r.email, ',');
    assert(body =~= d + seq![','] + (r.name + seq![','] + r.email));
    lemma_split_field(r.name, r.email, ',');
    lemma_split_whole(r.email, ',');
    let fs = split_on(body, ',');
    assert(fs =~~= seq![d, r.name, r.email]);
    assert(is_id_numeral(d));
    assert(parse_line(body) matches Some(p) && p =~= r);
}

/// A line with a field count other than three, or whose first field is not
/// an identifier numeral, denotes no record.
pub proof fn lemma_malformed(s: Seq<char>)
    requires
        split_on(s, ',').len() != 3 || !is_id_numeral(split_on(s, ',')[0]),
    ensures
        parse_line(s) is None,
{
}

/// The empty line denotes no record.
pub proof fn lemma_empty_malformed()
    ensures
        parse_line(Seq::<char>::empty()) is None,
{
    assert(split_on(Seq::<char>::empty(), ',') =~~= seq![Seq::<char>::empty()]);
}

/// Decodes one line of text, with or without its trailing terminator, into
/// the record it denotes; a malformed line gives `None`, never an error and
/// never a partial record.
pub fn decode(line: &str) -> (r: Option<Record>)
    ensures
        r is Some <==> parse_line(strip_newline(line@)) is Some,
        r matches Some(rec) ==> Some(rec@) == parse_line(strip_newline(line@)),
{
    let n = line.unicode_len();
    let body: &str = if n > 0 && line.get_char(n - 1) == '\n' {
        let b = line.substring_char(0, n - 1);
        proof {
            assert(b@ =~= strip_newline(line@));
        }
        b
    } else {
        line
    };
    let ghost fs = split_on(body@, ',');
    let mut fields = split_char(body, ',');
    if fields.len() != 3 {
        return None;
    }
    let email = fields.pop().unwrap();
    let name = fields.pop().unwrap();
    let idf = fields.pop().unwrap();
    proof {
        assert(idf@ == fs[0] && name@ == fs[1] && email@ == fs[2]);
        assert(idf@.subrange(0, idf@.len() as int) =~= idf@);
    }
    match parse_digits(idf.as_str(), 0, 65535) {
        Some(v) => {
            proof {
                lemma_num_val_nonneg(idf@);
            }
            Some(Record { id: v as u16, name, email })
        },
        None => None,
    }
}

/// Encodes `r` as exactly one line: decimal identifier, separator, name
/// verbatim, separator, email verbatim, line terminator.
pub fn encode(r: &Record) -> (s: String)
    ensures
        s@ == encode_line(r@),
{
    let mut s = u16_to_decimal(r.id);
    s.append(",");
    s.append(r.name.as_str());
    s.append(",");
    s.append(r.email.as_str());
    s.append("\n");
    proof {
        reveal_strlit(",");
        reveal_strlit("\n");
        assert(","@ =~= seq![',']);
        assert("\n"@ =~= seq!['\n']);
        assert(s@ =~= encode_line(r@));
    }
    s
}

/// Builds a record from its parts, copying the two text fields.
pub fn create_csv_record(id: u16, name: &str, email: &str) -> (r: Record)
    ensures
        r@ == (RecordV { id: id, name: name@, email: email@ }),
{
    let entry = Record { id, name: name.to_owned(), email: email.to_owned() };
    entry
}

/// Whether `s` can stand verbatim as a name or email field: it contains
/// neither the field separator nor a line terminator, so a record built from
/// it is valid and survives the round trip.
pub fn field_is_clean(s: &str) -> (b: bool)
    ensures
        b == valid_field(s@),
{
    let n = s.unicode_len();
    let mut i: usize = 0;
    while i < n
        invariant
            i <= n,
            n == s@.len(),
            forall|j: int| 0 <= j < i ==> s@[j] != ',' && s@[j] != '\n',
        decreases n - i,
    {
        let c = s.get_char(i);
        if c == ',' || c == '\n' {
            return false;
        }
        i = i + 1;
    }
    true
}

/// Reads a whole string as an identifier numeral.
pub fn parse_u16(s: &str) -> (r: Option<u16>)
    ensures
        r is Some <==> is_id_numeral(s@),
        r matches Some(v) ==> v == num_val(s@),
{
    proof {
        assert(s@.subrange(0, s@.len() as int) =~= s@);
    }
    match parse_digits(s, 0, 65535) {
        Some(v) => {
            proof {
                lemma_num_val_nonneg(s@);
            }
            Some(v as u16)
        },
        None => None,
    }
}

/// The decimal numeral of `n` as text.
pub fn u16_to_decimal(n: u16) -> (s: String)
    ensures
        s@ == dec_digits(n as nat),
    decreases n,
{
    if n < 10 {
        digit_str(n).to_owned()
    } else {
        let mut s = u16_to_decimal(n / 10);
        s.append(digit_str(n % 10));
        proof {
            assert(dec_digits((n as nat) / 10).push(digit_char((n as nat) % 10)) =~= dec_digits(
                (n as nat) / 10,
            ) + seq![digit_char((n as nat) % 10)]);
        }
        s
    }
}

/// The one-character text of the decimal digit `d`.
fn digit_str(d: u16) -> (s: &'static str)
    requires
        d < 10,
    ensures
        s@ == seq![digit_char(d as nat)],
{
    proof {
        reveal_strlit("0");
        reveal_strlit("1");
        reveal_strlit("2");
        reveal_strlit("3");
        reveal_strlit("4");
        reveal_strlit("5");
        reveal_strlit("6");
        reveal_strlit("7");
        reveal_strlit("8");
        reveal_strlit("9");
        assert("0"@ =~= seq!['0']);
        assert("1"@ =~= seq!['1']);
        assert("2"@ =~= seq!['2']);
        assert("3"@ =~= seq!['3']);
        assert("4"@ =~= seq!['4']);
        assert("5"@ =~= seq!['5']);
        assert("6"@ =~= seq!['6']);
        assert("7"@ =~= seq!['7']);
        assert("8"@ =~= seq!['8']);
        assert("9"@ =~= seq!['9']);
    }
    if d == 0 {
        "0"
    } else if d == 1 {
        "1"
    } else if d == 2 {
        "2"
    } else if d == 3 {
        "3"
    } else if d == 4 {
        "4"
    } else if d == 5 {
        "5"
    } else if d == 6 {
        "6"
    } else if d == 7 {
        "7"
    } else if d == 8 {
        "8"
    } else {
        "9"
    }
}

} // verus!
