//! The record store: reading every well-formed record out of a file's text
//! contents, appending one record to those contents, and choosing the next
//! free identifier.

use vstd::prelude::*;
use vstd::string::*;

use crate::codec::{
    decode, encode, encode_line, lemma_digits_valid_field, lemma_round_trip, parse_line,
    strip_newline, valid_record, dec_digits, lemma_dec_digits, Record, RecordV,
};
use crate::text::{free_of, lemma_split_concat, lemma_split_field, split_char, split_on};

verus! {

/// The records denoted by a sequence of line bodies: each body decoded on
/// its own, the well-formed ones kept in order, the malformed ones dropped.
pub open spec fn records_from_lines(ls: Seq<Seq<char>>) -> Seq<RecordV>
    decreases ls.len(),
{
    if ls.len() == 0 {
        Seq::<RecordV>::empty()
    } else {
        records_from_lines(ls.drop_last()) + (match parse_line(ls.last()) {
            Some(r) => seq![r],
            None => Seq::<RecordV>::empty(),
        })
    }
}

/// The records stored in the file contents `s`: the text split into lines on
/// the terminator, every line decoded independently, file order preserved.
pub open spec fn records_of(s: Seq<char>) -> Seq<RecordV> {
    records_from_lines(split_on(s, '\n'))
}

/// The values of a sequence of records.
pub open spec fn recs_view(v: Seq<Record>) -> Seq<RecordV> {
    v.map_values(|r: Record| r@)
}

/// The largest identifier among `s`, or zero when `s` is empty.
pub open spec fn max_id(s: Seq<RecordV>) -> int
    decreases s.len(),
{
    if s.len() == 0 {
        0
    } else if s.last().id > max_id(s.drop_last()) {
        s.last().id as int
    } else {
        max_id(s.drop_last())
    }
}

/// Every field of a split is free of the separator.
pub proof fn lemma_split_fields_free(s: Seq<char>, sep: char)
    ensures
        forall|i: int|
            0 <= i < split_on(s, sep).len() ==> free_of(#[trigger] split_on(s, sep)[i], sep),
    decreases s.len(),
{
    if s.len() == 0 {
    } else if s[0] == sep {
        lemma_split_fields_free(s.drop_first(), sep);
        assert(forall|i: int|
            1 <= i < split_on(s, sep).len() ==> split_on(s, sep)[i] == split_on(
                s.drop_first(),
                sep,
            )[i - 1]);
    } else {
        lemma_split_fields_free(s.drop_first(), sep);
        crate::text::lemma_split_len(s.drop_first(), sep);
        let rest = split_on(s.drop_first(), sep);
        let f0 = seq![s[0]] + rest[0];
        assert(free_of(rest[0], sep));
        assert forall|i: int| 0 <= i < f0.len() implies f0[i] != sep by {
            if i == 0 {
                assert(f0[0] == s[0]);
            } else {
                assert(f0[i] == rest[0][i - 1]);
            }
        }
        assert(free_of(f0, sep));
        assert forall|i: int| 1 <= i < split_on(s, sep).len() implies split_on(s, sep)[i]
            == rest[i] by {
            assert(split_on(s, sep) == rest.update(0, f0));
            assert(rest.update(0, f0)[i] == rest[i]);
        }
    }
}

/// Decoding a concatenation of line bodies decodes each part on its own.
pub proof fn lemma_records_concat(x: Seq<Seq<char>>, y: Seq<Seq<char>>)
    ensures
        records_from_lines(x + y) =~~= records_from_lines(x) + records_from_lines(y),
    decreases y.len(),
{
    if y.len() == 0 {
        assert(x + y =~= x);
    } else {
        lemma_records_concat(x, y.drop_last());
        assert((x + y).drop_last() =~= x + y.drop_last());
        assert((x + y).last() == y.last());
    }
}

/// Loading keeps exactly the well-formed lines: the records of a sequence of
/// line bodies are the decodings of the lines that decode, in their given
/// order — as many records as well-formed lines, however many malformed or
/// blank lines stand among them, and never a failure on their account.
pub proof fn lemma_load_keeps_wellformed_lines(ls: Seq<Seq<char>>)
    ensures
        records_from_lines(ls) =~~= ls.filter(|l: Seq<char>| parse_line(l) is Some).map_values(
            |l: Seq<char>| parse_line(l).unwrap(),
        ),
        records_from_lines(ls).len() == ls.filter(|l: Seq<char>| parse_line(l) is Some).len(),
    decreases ls.len(),
{
    reveal(Seq::filter);
    if ls.len() > 0 {
        lemma_load_keeps_wellformed_lines(ls.drop_last());
        let f = ls.drop_last().filter(|l: Seq<char>| parse_line(l) is Some);
        if parse_line(ls.last()) is Some {
            assert(ls.filter(|l: Seq<char>| parse_line(l) is Some) == f.push(ls.last()));
            assert(f.push(ls.last()).map_values(|l: Seq<char>| parse_line(l).unwrap()) =~~= f
                .map_values(|l: Seq<char>| parse_line(l).unwrap()).push(
                parse_line(ls.last()).unwrap(),
            ));
        } else {
            assert(ls.filter(|l: Seq<char>| parse_line(l) is Some) == f);
        }
    }
}

/// Loads every record out of the file contents: each line is decoded on its
/// own, well-formed lines become records in file order, malformed and blank
/// lines are dropped without failing; the count of loaded records is
/// returned beside them.
pub fn read_from_csv(contents: &str) -> (out: (Vec<Record>, usize))
    ensures
        recs_view(out.0@) == records_of(contents@),
        out.1 == out.0@.len(),
{
    let lines = split_char(contents, '\n');
    let ghost ls = split_on(contents@, '\n');
    proof {
        lemma_split_fields_free(contents@, '\n');
    }
    let mut records: Vec<Record> = Vec::new();
    let mut i: usize = 0;
    proof {
        assert(ls.subrange(0, 0) =~= Seq::<Seq<char>>::empty());
        assert(recs_view(records@) =~~= Seq::<RecordV>::empty());
    }
    while i < lines.len()
        invariant
            i <= lines.len(),
            lines@.map_values(|f: String| f@) == ls,
            ls == split_on(contents@, '\n'),
            forall|j: int| 0 <= j < ls.len() ==> free_of(#[trigger] ls[j], '\n'),
            recs_view(records@) =~~= records_from_lines(ls.subrange(0, i as int)),
        decreases lines.len() - i,
    {
        let line: &String = &lines[i];
        proof {
            assert(line@ == ls[i as int]);
            if line@.len() > 0 {
                assert(line@.last() != '\n');
            }
            assert(strip_newline(line@) == line@);
            assert(ls.subrange(0, i + 1).drop_last() =~= ls.subrange(0, i as int));
            assert(ls.subrange(0, i + 1).last() == ls[i as int]);
        }
        match decode(line.as_str()) {
            Some(r) => {
                proof {
                    assert(records@.push(r).map_values(|x: Record| x@) =~~= recs_view(
                        records@,
                    ).push(r@));
                }
                records.push(r);
            },
            None => {},
        }
        i = i + 1;
    }
    proof {
        assert(ls.subrange(0, i as int) =~= ls);
    }
    let count = records.len();
    (records, count)
}

/// Appends the encoded line of `r` to the file contents, after everything
/// already there and changing none of it.
pub fn append_to_csv(contents: &str, r: &Record) -> (out: String)
    ensures
        out@ == contents@ + encode_line(r@),
{
    let mut s = contents.to_owned();
    let line = encode(r);
    s.append(line.as_str());
    s
}

/// The next free identifier: one past the largest identifier on file, or
/// nothing when that largest identifier already fills the type.
pub fn next_id(records: &Vec<Record>) -> (r: Option<u16>)
    ensures
        r is Some <==> max_id(recs_view(records@)) < 65535,
        r matches Some(v) ==> v == max_id(recs_view(records@)) + 1,
{
    let ghost rs = recs_view(records@);
    let mut m: u16 = 0;
    let mut i: usize = 0;
    proof {
        assert(rs.subrange(0, 0) =~= Seq::<RecordV>::empty());
    }
    while i < records.len()
        invariant
            i <= records.len(),
            rs == recs_view(records@),
            rs.len() == records@.len(),
            m == max_id(rs.subrange(0, i as int)),
        decreases records.len() - i,
    {
        proof {
            assert(rs.subrange(0, i + 1).drop_last() =~= rs.subrange(0, i as int));
            assert(rs.subrange(0, i + 1).last() == rs[i as int]);
            assert(rs[i as int] == records@[i as int]@);
        }
        if records[i].id > m {
            m = records[i].id;
        }
        i = i + 1;
    }
    proof {
        assert(rs.subrange(0, i as int) =~= rs);
    }
    if m == 65535 {
        None
    } else {
        Some(m + 1)
    }
}

/// Appending one valid record and loading afresh gives exactly the records
/// loaded before, with the new record at the end: one more record, its
/// fields as appended. Holds of contents that are empty or end with a line
/// terminator, as a file of whole lines does.
pub proof fn lemma_append_then_load(contents: Seq<char>, r: RecordV)
    requires
        valid_record(r),
        contents.len() == 0 || contents.last() == '\n',
    ensures
        records_of(contents + encode_line(r)) == records_of(contents).push(r),
{
    let enc = encode_line(r);
    let d = dec_digits(r.id as nat);
    lemma_dec_digits(r.id as nat);
    lemma_digits_valid_field(d);
    let body = d + seq![','] + r.name + seq![','] + r.email;
    assert(enc =~= body + seq!['\n'] + Seq::<char>::empty());
    assert(free_of(body, '\n')) by {
        assert(forall|i: int|
            0 <= i < body.len() ==> body[i] != '\n');
    }
    lemma_split_field(body, Seq::<char>::empty(), '\n');
    assert(split_on(enc, '\n') =~~= seq![body, Seq::<char>::empty()]);
    let a = split_on(contents, '\n');
    lemma_split_concat(contents, enc, '\n');
    assert(split_on(contents + enc, '\n') =~~= a.drop_last() + seq![body, Seq::<char>::empty()]);
    crate::text::lemma_split_last(contents, '\n');
    assert(a =~~= a.drop_last() + seq![Seq::<char>::empty()]);
    lemma_round_trip(r);
    assert(strip_newline(enc) =~= body);
    assert(parse_line(body) == Some(r));
    lemma_records_concat(a.drop_last(), seq![body, Seq::<char>::empty()]);
    lemma_records_concat(a.drop_last(), seq![Seq::<char>::empty()]);
    assert(records_from_lines(seq![body, Seq::<char>::empty()]) =~~= seq![r]) by {
        let two = seq![body, Seq::<char>::empty()];
        assert(two.drop_last() =~= seq![body]);
        assert(two.last() =~= Seq::<char>::empty());
        assert(parse_line(Seq::<char>::empty()) is None) by {
            assert(split_on(Seq::<char>::empty(), ',') =~~= seq![Seq::<char>::empty()]);
        }
        assert(seq![body].drop_last() =~= Seq::<Seq<char>>::empty());
        assert(seq![body].last() == body);
        assert(records_from_lines(Seq::<Seq<char>>::empty()) =~~= Seq::<RecordV>::empty());
        assert(records_from_lines(seq![body]) =~~= seq![r]);
        assert(records_from_lines(two) =~~= records_from_lines(seq![body]));
    }
    assert(records_from_lines(seq![Seq::<char>::empty()]) =~~= Seq::<RecordV>::empty()) by {
        assert(seq![Seq::<char>::empty()].drop_last() =~= Seq::<Seq<char>>::empty());
        assert(parse_line(Seq::<char>::empty()) is None) by {
            assert(split_on(Seq::<char>::empty(), ',') =~~= seq![Seq::<char>::empty()]);
        }
    }
    assert(records_of(contents + enc) =~= records_of(contents).push(r));
}

} // verus!
