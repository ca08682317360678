//! Character-level text utilities shared by the codec, the store and the
//! search filter: splitting a sequence of characters on a separator, and
//! reading an unsigned decimal number out of a digit string.

use vstd::prelude::*;
use vstd::string::*;

verus! {

/// The fields of `s` when split on the separator `sep`: the empty sequence
/// splits into one empty field, and every occurrence of `sep` ends the field
/// before it and starts a new one.
pub open spec fn split_on(s: Seq<char>, sep: char) -> Seq<Seq<char>>
    decreases s.len(),
{
    if s.len() == 0 {
        seq![Seq::<char>::empty()]
    } else if s[0] == sep {
        seq![Seq::<char>::empty()] + split_on(s.drop_first(), sep)
    } else {
        let rest = split_on(s.drop_first(), sep);
        rest.update(0, seq![s[0]] + rest[0])
    }
}

/// How many times `c` occurs in `s`.
pub open spec fn count_ch(s: Seq<char>, c: char) -> nat
    decreases s.len(),
{
    if s.len() == 0 {
        0
    } else {
        (if s[0] == c {
            1nat
        } else {
            0nat
        }) + count_ch(s.drop_first(), c)
    }
}

/// `c` occurs nowhere in `s`.
pub open spec fn free_of(s: Seq<char>, c: char) -> bool {
    forall|i: int| 0 <= i < s.len() ==> s[i] != c
}

/// Splitting yields exactly one field more than there are separators.
pub proof fn lemma_split_len(s: Seq<char>, sep: char)
    ensures
        split_on(s, sep).len() == count_ch(s, sep) + 1,
    decreases s.len(),
{
    if s.len() > 0 {
        lemma_split_len(s.drop_first(), sep);
    }
}

/// A sequence that contains its last character contains at least one `c`
/// when that last character is `c`.
pub proof fn lemma_count_last(s: Seq<char>, c: char)
    requires
        s.len() > 0,
        s.last() == c,
    ensures
        count_ch(s, c) >= 1,
    decreases s.len(),
{
    if s.len() > 1 {
        assert(s.drop_first().last() == c);
        lemma_count_last(s.drop_first(), c);
    }
}

/// A sequence free of the separator splits into itself as a single field.
pub proof fn lemma_split_whole(s: Seq<char>, sep: char)
    requires
        free_of(s, sep),
    ensures
        split_on(s, sep) =~~= seq![s],
    decreases s.len(),
{
    if s.len() > 0 {
        assert(free_of(s.drop_first(), sep)) by {
            assert(forall|i: int|
                0 <= i < s.drop_first().len() ==> s.drop_first()[i] == s[i + 1]);
        }
        lemma_split_whole(s.drop_first(), sep);
        assert(seq![s[0]] + s.drop_first() =~= s);
    }
}

/// A separator after a separator-free prefix closes the first field: the
/// split of `p + [sep] + t` is the field `p` followed by the split of `t`.
pub proof fn lemma_split_field(p: Seq<char>, t: Seq<char>, sep: char)
    requires
        free_of(p, sep),
    ensures
        split_on(p + seq![sep] + t, sep) =~~= seq![p] + split_on(t, sep),
    decreases p.len(),
{
    let s = p + seq![sep] + t;
    if p.len() == 0 {
        assert(s =~= seq![sep] + t);
        assert(s[0] == sep);
        assert(s.drop_first() =~= t);
    } else {
        assert(s[0] == p[0]);
        assert(s[0] != sep);
        assert(free_of(p.drop_first(), sep)) by {
            assert(forall|i: int|
                0 <= i < p.drop_first().len() ==> p.drop_first()[i] == p[i + 1]);
        }
        lemma_split_field(p.drop_first(), t, sep);
        assert(s.drop_first() =~= p.drop_first() + seq![sep] + t);
        let rest = split_on(s.drop_first(), sep);
        assert(rest =~~= seq![p.drop_first()] + split_on(t, sep));
        assert(rest[0] == p.drop_first());
        assert(seq![s[0]] + p.drop_first() =~= p);
        assert(rest.update(0, seq![s[0]] + rest[0]) =~~= seq![p] + split_on(t, sep));
    }
}

/// Splitting a concatenation whose first part is empty or ends with the
/// separator: the first part contributes all its fields but the trailing
/// empty one, and the second part is split on its own.
pub proof fn lemma_split_concat(s: Seq<char>, t: Seq<char>, sep: char)
    requires
        s.len() == 0 || s.last() == sep,
    ensures
        split_on(s + t, sep) =~~= split_on(s, sep).drop_last() + split_on(t, sep),
    decreases s.len(),
{
    if s.len() == 0 {
        assert(s + t =~= t);
        assert(split_on(s, sep).drop_last() =~~= Seq::<Seq<char>>::empty());
    } else if s[0] == sep {
        if s.len() == 1 {
            assert(s + t =~= seq![sep] + t);
            assert((s + t).drop_first() =~= t);
            assert(s.drop_first() =~= Seq::<char>::empty());
            assert(split_on(s.drop_first(), sep) =~~= seq![Seq::<char>::empty()]);
            assert(split_on(s, sep) =~~= seq![Seq::<char>::empty(), Seq::<char>::empty()]);
            assert(split_on(s + t, sep) =~~= seq![Seq::<char>::empty()] + split_on(t, sep));
        } else {
            assert(s.drop_first().last() == sep);
            lemma_split_concat(s.drop_first(), t, sep);
            assert((s + t)[0] == sep);
            assert((s + t).drop_first() =~= s.drop_first() + t);
            lemma_split_len(s.drop_first(), sep);
            assert((seq![Seq::<char>::empty()] + split_on(s.drop_first(), sep)).drop_last()
                =~~= seq![Seq::<char>::empty()] + split_on(s.drop_first(), sep).drop_last());
        }
    } else {
        assert(s.len() >= 2) by {
            assert(s[0] != sep && s.last() == sep);
        }
        assert(s.drop_first().last() == sep);
        lemma_split_concat(s.drop_first(), t, sep);
        assert((s + t)[0] == s[0]);
        assert((s + t).drop_first() =~= s.drop_first() + t);
        let a = split_on(s.drop_first(), sep);
        lemma_split_len(s.drop_first(), sep);
        lemma_count_last(s.drop_first(), sep);
        assert(a.len() >= 2);
        let rest = split_on(s.drop_first() + t, sep);
        assert(rest =~~= a.drop_last() + split_on(t, sep));
        assert(rest[0] == a[0]);
        assert(rest.update(0, seq![s[0]] + a[0]) =~~= a.drop_last().update(
            0,
            seq![s[0]] + a[0],
        ) + split_on(t, sep));
        assert(split_on(s, sep) =~~= a.update(0, seq![s[0]] + a[0]));
        assert(a.update(0, seq![s[0]] + a[0]).drop_last() =~~= a.drop_last().update(
            0,
            seq![s[0]] + a[0],
        ));
    }
}

/// Every split ends with an (often empty) last field: dropping it and
/// splitting nothing more gives the split back.
pub proof fn lemma_split_last(s: Seq<char>, sep: char)
    requires
        s.len() == 0 || s.last() == sep,
    ensures
        split_on(s, sep) =~~= split_on(s, sep).drop_last() + seq![Seq::<char>::empty()],
{
    lemma_split_concat(s, Seq::<char>::empty(), sep);
    assert(s + Seq::<char>::empty() =~= s);
}

/// `c` is a decimal digit.
pub open spec fn is_digit(c: char) -> bool {
    48 <= c as u32 && c as u32 <= 57
}

/// The numeric value of the digit `c`.
pub open spec fn digit_val(c: char) -> int {
    c as u32 - 48
}

/// Every character of `s` is a decimal digit.
pub open spec fn all_digits(s: Seq<char>) -> bool {
    forall|i: int| 0 <= i < s.len() ==> is_digit(s[i])
}

/// The value of `s` read as an unsigned decimal numeral.
pub open spec fn num_val(s: Seq<char>) -> int
    decreases s.len(),
{
    if s.len() == 0 {
        0
    } else {
        10 * num_val(s.drop_last()) + digit_val(s.last())
    }
}

/// A digit string has a non-negative value.
pub proof fn lemma_num_val_nonneg(s: Seq<char>)
    requires
        all_digits(s),
    ensures
        num_val(s) >= 0,
    decreases s.len(),
{
    if s.len() > 0 {
        lemma_num_val_nonneg(s.drop_last());
    }
}

/// Splits `s` into its fields on the separator `sep`, eagerly and without
/// any notion of quoting: each returned string is one field of `split_on`.
pub fn split_char(s: &str, sep: char) -> (fields: Vec<String>)
    ensures
        fields@.map_values(|f: String| f@) == split_on(s@, sep),
{
    let n = s.unicode_len();
    let mut fields: Vec<String> = Vec::new();
    let mut start: usize = 0;
    let mut i: usize = 0;
    proof {
        assert(s@.subrange(0, n as int) =~= s@);
        assert(fields@.map_values(|f: String| f@) =~~= Seq::<Seq<char>>::empty());
    }
    while i < n
        invariant
            start <= i <= n,
            n == s@.len(),
            free_of(s@.subrange(start as int, i as int), sep),
            split_on(s@, sep) =~~= fields@.map_values(|f: String| f@) + split_on(
                s@.subrange(start as int, n as int),
                sep,
            ),
        decreases n - i,
    {
        if s.get_char(i) == sep {
            let field = s.substring_char(start, i).to_owned();
            proof {
                assert(s@.subrange(start as int, n as int) =~= s@.subrange(
                    start as int,
                    i as int,
                ) + seq![sep] + s@.subrange(i + 1, n as int));
                lemma_split_field(
                    s@.subrange(start as int, i as int),
                    s@.subrange(i + 1, n as int),
                    sep,
                );
                assert(fields@.push(field).map_values(|f: String| f@) =~~= fields@.map_values(
                    |f: String| f@,
                ).push(field@));
            }
            fields.push(field);
            start = i + 1;
        } else {
            proof {
                assert(s@.subrange(start as int, i + 1) =~= s@.subrange(
                    start as int,
                    i as int,
                ).push(s@[i as int]));
            }
        }
        i = i + 1;
    }
    let field = s.substring_char(start, n).to_owned();
    proof {
        lemma_split_whole(s@.subrange(start as int, n as int), sep);
        assert(fields@.push(field).map_values(|f: String| f@) =~~= fields@.map_values(
            |f: String| f@,
        ).push(field@));
    }
    fields.push(field);
    fields
}

/// Reads the characters of `s` from position `start` on as an unsigned
/// decimal numeral. Succeeds exactly when at least one character follows
/// `start`, every one of them is a digit, and the value is at most `bound`;
/// the value is then returned.
pub fn parse_digits(s: &str, start: usize, bound: u64) -> (r: Option<u64>)
    requires
        start <= s@.len(),
        bound <= 0x8000_0000,
    ensures
        r is Some <==> (start < s@.len() && all_digits(
            s@.subrange(start as int, s@.len() as int),
        ) && num_val(s@.subrange(start as int, s@.len() as int)) <= bound),
        r matches Some(v) ==> v == num_val(s@.subrange(start as int, s@.len() as int)),
{
    let n = s.unicode_len();
    if start >= n {
        return None;
    }
    let mut val: u64 = 0;
    let mut i: usize = start;
    while i < n
        invariant
            start <= i <= n,
            start < n,
            n == s@.len(),
            bound <= 0x8000_0000,
            all_digits(s@.subrange(start as int, i as int)),
            val == num_val(s@.subrange(start as int, i as int)),
            val <= bound,
        decreases n - i,
    {
        let c = s.get_char(i);
        let cv = c as u32;
        if cv < 48 || cv > 57 {
            proof {
                assert(!is_digit(s@[i as int]));
                assert(s@.subrange(start as int, n as int)[i - start] == s@[i as int]);
            }
            return None;
        }
        proof {
            assert(s@.subrange(start as int, i + 1) =~= s@.subrange(
                start as int,
                i as int,
            ).push(s@[i as int]));
            assert(s@.subrange(start as int, i + 1).drop_last() =~= s@.subrange(
                start as int,
                i as int,
            ));
        }
        let next: u64 = val * 10 + (cv - 48) as u64;
        assert(next == num_val(s@.subrange(start as int, i + 1)));
        if next > bound {
            proof {
                if all_digits(s@.subrange(start as int, n as int)) && num_val(
                    s@.subrange(start as int, n as int),
                ) <= bound {
                    assert(s@.subrange(start as int, n as int).subrange(0, i + 1 - start) =~= s@
                        .subrange(start as int, i + 1));
                    lemma_num_val_prefix(s@.subrange(start as int, n as int), i + 1 - start);
                }
            }
            return None;
        }
        val = next;
        i = i + 1;
    }
    proof {
        assert(s@.subrange(start as int, n as int) =~= s@.subrange(start as int, i as int));
    }
    Some(val)
}

/// A prefix of a digit string has a value no larger than the whole string.
pub proof fn lemma_num_val_prefix(s: Seq<char>, k: int)
    requires
        all_digits(s),
        0 <= k <= s.len(),
    ensures
        num_val(s.subrange(0, k)) <= num_val(s),
    decreases s.len(),
{
    if k == s.len() {
        assert(s.subrange(0, k) =~= s);
    } else {
        assert(s.drop_last().subrange(0, k) =~= s.subrange(0, k));
        lemma_num_val_prefix(s.drop_last(), k);
        lemma_num_val_nonneg(s.drop_last());
        assert(digit_val(s.last()) >= 0);
    }
}

} // verus!
