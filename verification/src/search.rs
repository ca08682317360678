//! The search filter: an exact-match scan over the raw rows of the file
//! contents. A row matches when it is well formed and one of its fields
//! equals the query in full; matching rows come back in file order, and no
//! match is not an error.

use vstd::prelude::*;
use vstd::string::*;

use crate::codec::{is_id_numeral, parse_line, parse_u16};
use crate::text::{split_char, split_on};

verus! {

/// One row matches the query: the row is well formed and some field of it is
/// exactly the query, full-field equality and nothing weaker.
pub open spec fn line_matches(l: Seq<char>, q: Seq<char>) -> bool {
    parse_line(l) is Some && exists|i: int|
        0 <= i < split_on(l, ',').len() && split_on(l, ',')[i] == q
}

/// The rows among `ls` that match the query, in their given order.
pub open spec fn matching_lines(ls: Seq<Seq<char>>, q: Seq<char>) -> Seq<Seq<char>>
    decreases ls.len(),
{
    if ls.len() == 0 {
        Seq::<Seq<char>>::empty()
    } else {
        matching_lines(ls.drop_last(), q) + (if line_matches(ls.last(), q) {
            seq![ls.last()]
        } else {
            Seq::<Seq<char>>::empty()
        })
    }
}

/// The rows of the file contents `s` that match the query, in file order.
pub open spec fn matching_rows(s: Seq<char>, q: Seq<char>) -> Seq<Seq<char>> {
    matching_lines(split_on(s, '\n'), q)
}

/// Every row the search keeps matches the query: it is well formed and one
/// of its fields is exactly the query.
pub proof fn lemma_search_sound(ls: Seq<Seq<char>>, q: Seq<char>)
    ensures
        forall|i: int|
            0 <= i < matching_lines(ls, q).len() ==> line_matches(
                #[trigger] matching_lines(ls, q)[i],
                q,
            ),
    decreases ls.len(),
{
    if ls.len() > 0 {
        lemma_search_sound(ls.drop_last(), q);
        let left = matching_lines(ls.drop_last(), q);
        assert forall|i: int| 0 <= i < matching_lines(ls, q).len() implies line_matches(
            matching_lines(ls, q)[i],
            q,
        ) by {
            if i < left.len() {
                assert(matching_lines(ls, q)[i] == left[i]);
            } else {
                assert(matching_lines(ls, q)[i] == ls.last());
            }
        }
    }
}

/// A query that matches no row yields the empty result; an absent match is
/// no error.
pub proof fn lemma_search_no_match_empty(ls: Seq<Seq<char>>, q: Seq<char>)
    requires
        forall|i: int| 0 <= i < ls.len() ==> !line_matches(#[trigger] ls[i], q),
    ensures
        matching_lines(ls, q) =~~= Seq::<Seq<char>>::empty(),
    decreases ls.len(),
{
    if ls.len() > 0 {
        assert(forall|i: int|
            0 <= i < ls.drop_last().len() ==> ls.drop_last()[i] == ls[i]);
        lemma_search_no_match_empty(ls.drop_last(), q);
        assert(!line_matches(ls.last(), q));
    }
}

/// Whether two pieces of text are equal character for character.
pub fn str_eq(a: &str, b: &str) -> (r: bool)
    ensures
        r == (a@ == b@),
{
    let n = a.unicode_len();
    if n != b.unicode_len() {
        return false;
    }
    let mut i: usize = 0;
    while i < n
        invariant
            i <= n,
            n == a@.len(),
            n == b@.len(),
            forall|j: int| 0 <= j < i ==> a@[j] == b@[j],
        decreases n - i,
    {
        if a.get_char(i) != b.get_char(i) {
            return false;
        }
        i = i + 1;
    }
    proof {
        assert(a@ =~= b@);
    }
    true
}

/// Whether the one row `l` matches the query `q`.
pub fn line_match(l: &str, q: &str) -> (b: bool)
    ensures
        b == line_matches(l@, q@),
{
    let ghost fs = split_on(l@, ',');
    let fields = split_char(l, ',');
    if fields.len() != 3 {
        return false;
    }
    proof {
        assert(fields@[0]@ == fs[0] && fields@[1]@ == fs[1] && fields@[2]@ == fs[2]);
    }
    if parse_u16(fields[0].as_str()).is_none() {
        proof {
            assert(!is_id_numeral(fs[0]));
        }
        return false;
    }
    if str_eq(fields[0].as_str(), q) {
        return true;
    }
    if str_eq(fields[1].as_str(), q) {
        return true;
    }
    if str_eq(fields[2].as_str(), q) {
        return true;
    }
    proof {
        assert forall|i: int| 0 <= i < fs.len() implies fs[i] != q@ by {
            assert(fs[0] != q@ && fs[1] != q@ && fs[2] != q@);
        }
    }
    false
}

/// Scans the raw rows of the file contents and returns those whose fields
/// contain the query exactly, in file order; malformed rows are skipped and
/// an absent match gives an empty result, never an error.
pub fn search_csv(query: &str, contents: &str) -> (rows: Vec<String>)
    ensures
        rows@.map_values(|l: String| l@) == matching_rows(contents@, query@),
{
    let ghost ls = split_on(contents@, '\n');
    let lines = split_char(contents, '\n');
    let mut rows: Vec<String> = Vec::new();
    let mut i: usize = 0;
    proof {
        assert(ls.subrange(0, 0) =~= Seq::<Seq<char>>::empty());
        assert(rows@.map_values(|l: String| l@) =~~= Seq::<Seq<char>>::empty());
    }
    while i < lines.len()
        invariant
            i <= lines.len(),
            lines@.map_values(|f: String| f@) == ls,
            ls == split_on(contents@, '\n'),
            rows@.map_values(|l: String| l@) =~~= matching_lines(ls.subrange(0, i as int), query@),
        decreases lines.len() - i,
    {
        let line: &String = &lines[i];
        proof {
            assert(line@ == ls[i as int]);
            assert(ls.subrange(0, i + 1).drop_last() =~= ls.subrange(0, i as int));
            assert(ls.subrange(0, i + 1).last() == ls[i as int]);
        }
        if line_match(line.as_str(), query) {
            let kept = line.clone();
            proof {
                assert(rows@.push(kept).map_values(|l: String| l@) =~~= rows@.map_values(
                    |l: String| l@,
                ).push(kept@));
            }
            rows.push(kept);
        }
        i = i + 1;
    }
    proof {
        assert(ls.subrange(0, i as int) =~= ls);
    }
    rows
}

} // verus!
