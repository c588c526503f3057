//! The score-table extractor: parses every score annotation in an archive
//! into a sparse table and renders it as tab-separated rows.

use crate::grammar::{is_score_line, score_line_check};
use crate::text::{
    has_token, lemma_has_token_down, nth_token, str_eq, token_at,
};
use crate::QuiverError;
use vstd::prelude::*;

verus! {

/// A decimal digit.
pub open spec fn is_digit(c: char) -> bool {
    '0' <= c <= '9'
}

/// `s` without a leading sign.
pub open spec fn strip_sign(s: Seq<char>) -> Seq<char> {
    if s.len() > 0 && (s[0] == '+' || s[0] == '-') {
        s.drop_first()
    } else {
        s
    }
}

/// A non-empty run of digits.
pub open spec fn digits_ok(s: Seq<char>) -> bool {
    s.len() > 0 && forall|i: int| 0 <= i < s.len() ==> is_digit(s[i])
}

/// A well-formed exponent part: an optional sign, then digits.
pub open spec fn exp_ok(s: Seq<char>) -> bool {
    digits_ok(strip_sign(s))
}

/// The mantissa-and-exponent scan: digits with at most one decimal point,
/// at least one digit before any exponent marker, and a well-formed
/// exponent after one.
pub open spec fn num_scan(s: Seq<char>, seen_digit: bool, seen_dot: bool) -> bool
    decreases s.len(),
{
    if s.len() == 0 {
        seen_digit
    } else if is_digit(s[0]) {
        num_scan(s.drop_first(), true, seen_dot)
    } else if s[0] == '.' && !seen_dot {
        num_scan(s.drop_first(), seen_digit, true)
    } else if (s[0] == 'e' || s[0] == 'E') && seen_digit {
        exp_ok(s.drop_first())
    } else {
        false
    }
}

/// A decimal floating-point number: an optional sign, digits with at most
/// one decimal point and at least one digit, and an optional exponent.
pub open spec fn is_decimal(s: Seq<char>) -> bool {
    num_scan(strip_sign(s), false, false)
}

/// Whether `s` parses as a decimal floating-point number.
pub fn is_decimal_str(s: &str) -> (b: bool)
    ensures
        b == is_decimal(s@),
{
    let len = s.unicode_len();
    let mut i: usize = 0;
    if len > 0 {
        let c = s.get_char(0);
        if c == '+' || c == '-' {
            i = 1;
        }
    }
    proof {
        assert(s@.skip(i as int) =~= strip_sign(s@));
    }
    let mut seen_digit = false;
    let mut seen_dot = false;
    while i < len
        invariant
            len == s@.len(),
            i <= len,
            is_decimal(s@) == num_scan(s@.skip(i as int), seen_digit, seen_dot),
        decreases len - i,
    {
        let c = s.get_char(i);
        proof {
            assert(s@.skip(i as int)[0] == s@[i as int]);
            assert(s@.skip(i as int).drop_first() =~= s@.skip(i as int + 1));
        }
        if '0' <= c && c <= '9' {
            seen_digit = true;
        } else if c == '.' && !seen_dot {
            seen_dot = true;
        } else if (c == 'e' || c == 'E') && seen_digit {
            // The rest must be an optional sign and then digits.
            let mut k: usize = i + 1;
            if k < len {
                let d = s.get_char(k);
                if d == '+' || d == '-' {
                    k = k + 1;
                }
            }
            proof {
                assert(s@.skip(i as int + 1).skip((k - i - 1) as int) =~= s@.skip(k as int));
                assert(strip_sign(s@.skip(i as int + 1)) =~= s@.skip(k as int)) by {
                    if i + 1 < len {
                        assert(s@.skip(i as int + 1)[0] == s@[i as int + 1]);
                        assert(s@.skip(i as int + 1).drop_first() =~= s@.skip(i as int + 2));
                    }
                }
            }
            proof {
                assert(is_decimal(s@) == digits_ok(s@.skip(k as int)));
            }
            if k == len {
                return false;
            }
            let mut j: usize = k;
            while j < len
                invariant
                    len == s@.len(),
                    k <= j <= len,
                    is_decimal(s@) == digits_ok(s@.skip(k as int)),
                    forall|m: int| k <= m < j ==> is_digit(s@[m]),
                decreases len - j,
            {
                let d = s.get_char(j);
                if !('0' <= d && d <= '9') {
                    proof {
                        assert(s@.skip(k as int)[j - k] == s@[j as int]);
                    }
                    return false;
                }
                j = j + 1;
            }
            proof {
                assert forall|m: int| 0 <= m < s@.skip(k as int).len() implies is_digit(
                    s@.skip(k as int)[m],
                ) by {
                    assert(s@.skip(k as int)[m] == s@[k + m]);
                }
                assert(digits_ok(s@.skip(k as int)));
            }
            return true;
        } else {
            return false;
        }
        i = i + 1;
    }
    proof {
        assert(s@.skip(len as int) =~= Seq::<char>::empty());
    }
    seen_digit
}

/// `s` split on the separator `sep`: always at least one (possibly empty)
/// segment; a separator at either end yields an empty segment there.
pub open spec fn split_on(s: Seq<char>, sep: char) -> Seq<Seq<char>>
    decreases s.len(),
{
    if s.len() == 0 {
        seq![Seq::empty()]
    } else if s[0] == sep {
        seq![Seq::<char>::empty()] + split_on(s.drop_first(), sep)
    } else {
        let r = split_on(s.drop_first(), sep);
        seq![seq![s[0]] + r[0]] + r.drop_first()
    }
}

/// Splitting yields at least one segment.
pub proof fn lemma_split_on_nonempty(s: Seq<char>, sep: char)
    ensures
        split_on(s, sep).len() >= 1,
    decreases s.len(),
{
    if s.len() > 0 {
        lemma_split_on_nonempty(s.drop_first(), sep);
    }
}

/// Segments already complete, in front of the rest of a split.
pub open spec fn split_cons(pre: Seq<char>, r: Seq<Seq<char>>) -> Seq<Seq<char>> {
    seq![pre + r[0]] + r.drop_first()
}

/// Splits `s` on `sep`, as `split_on` describes.
pub fn split_char(s: &str, sep: char) -> (r: Vec<String>)
    ensures
        r.deep_view() == split_on(s@, sep),
{
    let len = s.unicode_len();
    let mut done: Vec<String> = Vec::new();
    let mut start: usize = 0;
    let mut i: usize = 0;
    proof {
        assert(s@.skip(0) =~= s@);
        assert(s@.subrange(0, 0) =~= Seq::<char>::empty());
        lemma_split_on_nonempty(s@, sep);
        assert(done.deep_view() + split_cons(Seq::empty(), split_on(s@, sep)) =~= split_cons(
            Seq::empty(),
            split_on(s@, sep),
        ));
        assert(Seq::<char>::empty() + split_on(s@, sep)[0] =~= split_on(s@, sep)[0]);
        assert(split_cons(Seq::empty(), split_on(s@, sep)) =~= split_on(s@, sep));
    }
    while i < len
        invariant
            len == s@.len(),
            start <= i <= len,
            split_on(s@, sep) == done.deep_view() + split_cons(
                s@.subrange(start as int, i as int),
                split_on(s@.skip(i as int), sep),
            ),
        decreases len - i,
    {
        proof {
            assert(s@.skip(i as int)[0] == s@[i as int]);
            assert(s@.skip(i as int).drop_first() =~= s@.skip(i as int + 1));
            lemma_split_on_nonempty(s@.skip(i as int + 1), sep);
        }
        let c = s.get_char(i);
        if c == sep {
            let seg = String::from_str(s.substring_char(start, i));
            let ghost segview = s@.subrange(start as int, i as int);
            done.push(seg);
            proof {
                let rest = split_on(s@.skip(i as int + 1), sep);
                assert(split_on(s@.skip(i as int), sep) == seq![Seq::<char>::empty()] + rest);
                assert((seq![Seq::<char>::empty()] + rest)[0] =~= Seq::<char>::empty());
                assert((seq![Seq::<char>::empty()] + rest).drop_first() =~= rest);
                assert(segview + Seq::<char>::empty() =~= segview);
                assert(split_cons(segview, split_on(s@.skip(i as int), sep)) =~= seq![segview]
                    + rest);
                assert(done.deep_view() =~= done.deep_view().drop_last() + seq![segview]);
                assert(s@.subrange(i as int + 1, i as int + 1) =~= Seq::<char>::empty());
                assert((done.deep_view().drop_last() + seq![segview]) + split_cons(
                    Seq::<char>::empty(),
                    rest,
                ) =~= done.deep_view().drop_last() + (seq![segview] + split_cons(
                    Seq::<char>::empty(),
                    rest,
                )));
                assert(Seq::<char>::empty() + rest[0] =~= rest[0]);
                assert(seq![segview] + split_cons(Seq::<char>::empty(), rest) =~= split_cons(
                    segview,
                    split_on(s@.skip(i as int), sep),
                ));
            }
            start = i + 1;
        } else {
            proof {
                let r = split_on(s@.skip(i as int + 1), sep);
                assert(split_on(s@.skip(i as int), sep) == seq![seq![s@[i as int]] + r[0]]
                    + r.drop_first());
                assert(split_cons(s@.subrange(start as int, i as int), split_on(
                    s@.skip(i as int),
                    sep,
                )) =~= split_cons(s@.subrange(start as int, i as int + 1), r)) by {
                    assert(s@.subrange(start as int, i as int) + (seq![s@[i as int]] + r[0])
                        =~= s@.subrange(start as int, i as int + 1) + r[0]);
                    assert((seq![seq![s@[i as int]] + r[0]] + r.drop_first()).drop_first()
                        =~= r.drop_first());
                }
            }
        }
        i = i + 1;
    }
    let seg = String::from_str(s.substring_char(start, len));
    let ghost segview = s@.subrange(start as int, len as int);
    done.push(seg);
    proof {
        assert(s@.skip(len as int) =~= Seq::<char>::empty());
        assert(split_on(Seq::<char>::empty(), sep) == seq![Seq::<char>::empty()]);
        assert(segview + Seq::<char>::empty() =~= segview);
        assert(seq![Seq::<char>::empty()].drop_first() =~= Seq::<Seq<char>>::empty());
        assert(split_cons(segview, seq![Seq::<char>::empty()]) =~= seq![segview]);
        assert(done.deep_view() =~= done.deep_view().drop_last() + seq![segview]);
        assert(done.deep_view().drop_last() + seq![segview] =~= done.deep_view().drop_last()
            + split_cons(segview, seq![Seq::<char>::empty()]));
    }
    done
}

/// The `key=value` pair of one entry, if it splits in exactly two on `=`.
pub open spec fn entry_pair(e: Seq<char>) -> Option<(Seq<char>, Seq<char>)> {
    let ps = split_on(e, '=');
    if ps.len() == 2 {
        Some((ps[0], ps[1]))
    } else {
        None
    }
}

/// The kept pairs of a score line's entries: well-formed `key=value` with a
/// decimal value, in entry order.
pub open spec fn good_pairs(es: Seq<Seq<char>>) -> Seq<(Seq<char>, Seq<char>)>
    decreases es.len(),
{
    if es.len() == 0 {
        Seq::empty()
    } else {
        good_pairs(es.drop_last()) + (match entry_pair(es.last()) {
            Some(p) => if is_decimal(p.1) {
                seq![p]
            } else {
                Seq::<(Seq<char>, Seq<char>)>::empty()
            },
            None => Seq::<(Seq<char>, Seq<char>)>::empty(),
        })
    }
}

/// How many entries of a score line are dropped: well-formed `key=value`
/// whose value is not a decimal number.
pub open spec fn bad_count(es: Seq<Seq<char>>) -> nat
    decreases es.len(),
{
    if es.len() == 0 {
        0
    } else {
        bad_count(es.drop_last()) + (match entry_pair(es.last()) {
            Some(p) => if is_decimal(p.1) {
                0nat
            } else {
                1nat
            },
            None => 0nat,
        })
    }
}

/// The value of the last pair with the given key, if any: a later entry
/// overrides an earlier one of the same key.
pub open spec fn lookup_pair(pairs: Seq<(Seq<char>, Seq<char>)>, key: Seq<char>) -> Option<
    Seq<char>,
>
    decreases pairs.len(),
{
    if pairs.len() == 0 {
        None
    } else if pairs.last().0 == key {
        Some(pairs.last().1)
    } else {
        lookup_pair(pairs.drop_last(), key)
    }
}

/// The value of the last kept entry with key `key`, if any.
pub fn lookup_entry_val(entries: &Vec<String>, key: &str) -> (r: Option<String>)
    ensures
        r is Some <==> lookup_pair(good_pairs(entries.deep_view()), key@) is Some,
        r is Some ==> r->0@ == lookup_pair(good_pairs(entries.deep_view()), key@)->0,
{
    let ghost es = entries.deep_view();
    let mut best: Option<String> = None;
    proof {
        assert(es.take(0) =~= Seq::<Seq<char>>::empty());
    }
    for j in 0..entries.len()
        invariant
            es == entries.deep_view(),
            best is Some <==> lookup_pair(good_pairs(es.take(j as int)), key@) is Some,
            best is Some ==> best->0@ == lookup_pair(good_pairs(es.take(j as int)), key@)->0,
    {
        proof {
            assert(es.take(j as int + 1).drop_last() =~= es.take(j as int));
            assert(es.take(j as int + 1).last() == es[j as int]);
            assert(es[j as int] == entries@[j as int]@);
        }
        let ps = split_char(entries[j].as_str(), '=');
        if ps.len() == 2 {
            proof {
                assert(ps.deep_view()[0] == ps@[0]@);
                assert(ps.deep_view()[1] == ps@[1]@);
            }
            if is_decimal_str(ps[1].as_str()) {
                let ghost gp = good_pairs(es.take(j as int));
                proof {
                    assert(good_pairs(es.take(j as int + 1)) == gp + seq![
                        (ps@[0]@, ps@[1]@),
                    ]);
                    assert((gp + seq![(ps@[0]@, ps@[1]@)]).drop_last() =~= gp);
                }
                if str_eq(ps[0].as_str(), key) {
                    best = Some(ps[1].clone());
                } else {
                    proof {
                        assert((gp + seq![(ps@[0]@, ps@[1]@)]).last().0 != key@);
                    }
                }
            } else {
                proof {
                    assert(good_pairs(es.take(j as int + 1)) =~= good_pairs(es.take(j as int)));
                }
            }
        } else {
            proof {
                assert(good_pairs(es.take(j as int + 1)) =~= good_pairs(es.take(j as int)));
            }
        }
    }
    proof {
        assert(es.take(entries@.len() as int) =~= es);
    }
    best
}

/// The records of an archive's score lines, in file order: the line's tag
/// and its kept `key=value` pairs.
pub open spec fn records_of(lines: Seq<Seq<char>>) -> Seq<
    (Seq<char>, Seq<(Seq<char>, Seq<char>)>),
>
    decreases lines.len(),
{
    if lines.len() == 0 {
        Seq::empty()
    } else {
        records_of(lines.drop_last()) + (if is_score_line(lines.last()) && has_token(
            lines.last(),
            2,
        ) {
            seq![
                (
                    nth_token(lines.last(), 1),
                    good_pairs(split_on(nth_token(lines.last(), 2), '|')),
                ),
            ]
        } else {
            Seq::<(Seq<char>, Seq<(Seq<char>, Seq<char>)>)>::empty()
        })
    }
}

/// One tag per dropped field, in file and entry order, for diagnostics.
pub open spec fn dropped_tags_of(lines: Seq<Seq<char>>) -> Seq<Seq<char>>
    decreases lines.len(),
{
    if lines.len() == 0 {
        Seq::empty()
    } else {
        dropped_tags_of(lines.drop_last()) + (if is_score_line(lines.last()) && has_token(
            lines.last(),
            2,
        ) {
            Seq::new(
                bad_count(split_on(nth_token(lines.last(), 2), '|')),
                |k: int| nth_token(lines.last(), 1),
            )
        } else {
            Seq::<Seq<char>>::empty()
        })
    }
}

/// The first column's name.
pub open spec fn tag_header() -> Seq<char> {
    seq!['t', 'a', 'g']
}

/// The sentinel for a missing field.
pub open spec fn nan_chars() -> Seq<char> {
    seq!['N', 'a', 'N']
}

/// Keys of one record's pairs added to the header list: in pair order, each
/// unless already present or the reserved first column's name.
pub open spec fn add_keys(acc: Seq<Seq<char>>, pairs: Seq<(Seq<char>, Seq<char>)>) -> Seq<
    Seq<char>,
>
    decreases pairs.len(),
{
    if pairs.len() == 0 {
        acc
    } else {
        let a = add_keys(acc, pairs.drop_last());
        let k = pairs.last().0;
        if k == tag_header() || a.contains(k) {
            a
        } else {
            a.push(k)
        }
    }
}

/// The table's header cells: `tag`, then the union of all records' keys in
/// first-seen order.
pub open spec fn headers_of(records: Seq<(Seq<char>, Seq<(Seq<char>, Seq<char>)>)>) -> Seq<
    Seq<char>,
>
    decreases records.len(),
{
    if records.len() == 0 {
        seq![tag_header()]
    } else {
        add_keys(headers_of(records.drop_last()), records.last().1)
    }
}

/// One record's cell under one header: the record's value for that key,
/// `NaN` when it has none, and for the `tag` column the record's tag —
/// unless an entry of the reserved key overrode it.
pub open spec fn cell_of(
    rec: (Seq<char>, Seq<(Seq<char>, Seq<char>)>),
    h: Seq<char>,
) -> Seq<char> {
    match lookup_pair(rec.1, h) {
        Some(v) => v,
        None => if h == tag_header() {
            rec.0
        } else {
            nan_chars()
        },
    }
}

/// One record's row of cells, under the given headers.
pub open spec fn row_of(
    rec: (Seq<char>, Seq<(Seq<char>, Seq<char>)>),
    headers: Seq<Seq<char>>,
) -> Seq<Seq<char>> {
    headers.map_values(|h: Seq<char>| cell_of(rec, h))
}

/// Cells joined with tabs.
pub open spec fn join_tabs_spec(cells: Seq<Seq<char>>) -> Seq<char>
    decreases cells.len(),
{
    if cells.len() == 0 {
        Seq::empty()
    } else if cells.len() == 1 {
        cells[0]
    } else {
        join_tabs_spec(cells.drop_last()) + seq!['\t'] + cells.last()
    }
}

/// The table's data rows, one per record, in file order.
pub open spec fn data_rows(
    records: Seq<(Seq<char>, Seq<(Seq<char>, Seq<char>)>)>,
    headers: Seq<Seq<char>>,
) -> Seq<Seq<char>> {
    records.map_values(|rec: (Seq<char>, Seq<(Seq<char>, Seq<char>)>)| join_tabs_spec(
        row_of(rec, headers),
    ))
}

/// The whole table: the header row, then one row per score record.
pub open spec fn score_table(lines: Seq<Seq<char>>) -> Seq<Seq<char>> {
    seq![join_tabs_spec(headers_of(records_of(lines)))] + data_rows(
        records_of(lines),
        headers_of(records_of(lines)),
    )
}

/// Joins cells with tab characters.
pub fn join_tabs(cells: &Vec<String>) -> (r: String)
    ensures
        r@ == join_tabs_spec(cells.deep_view()),
{
    let ghost cv = cells.deep_view();
    let mut s = String::new();
    proof {
        assert(cv.take(0) =~= Seq::<Seq<char>>::empty());
    }
    for k in 0..cells.len()
        invariant
            cv == cells.deep_view(),
            s@ == join_tabs_spec(cv.take(k as int)),
    {
        proof {
            reveal_strlit("\t");
            assert("\t"@ =~= seq!['\t']);
            assert(cv.take(k as int + 1).drop_last() =~= cv.take(k as int));
            assert(cv.take(k as int + 1).last() == cv[k as int]);
            assert(cv[k as int] == cells@[k as int]@);
        }
        if k > 0 {
            s.append("\t");
        }
        s.append(cells[k].as_str());
        proof {
            if k == 0 {
                assert(cv.take(1).len() == 1);
                assert(s@ =~= join_tabs_spec(cv.take(1)));
            } else {
                assert(s@ =~= join_tabs_spec(cv.take(k as int)) + seq!['\t'] + cv[k as int]);
            }
        }
    }
    proof {
        assert(cv.take(cells@.len() as int) =~= cv);
    }
    s
}

/// Extracts every score annotation into a sparse table.
///
/// An archive without a single score record is `EmptyResult`.  Otherwise
/// the result is the table — a header row `tag` plus the union of all keys
/// in first-seen order, then one tab-separated row per score record in file
/// order, absent fields rendered `NaN` — and, for diagnostics, one tag per
/// field dropped because its value is not a decimal number.
pub fn extract_scores(lines: &Vec<String>) -> (r: Result<
    (Vec<String>, Vec<String>),
    QuiverError,
>)
    ensures
        records_of(lines.deep_view()).len() == 0 <==> r == Err::<
            (Vec<String>, Vec<String>),
            QuiverError,
        >(QuiverError::EmptyResult),
        records_of(lines.deep_view()).len() > 0 ==> {
            &&& r is Ok
            &&& r->Ok_0.0.deep_view() == score_table(lines.deep_view())
            &&& r->Ok_0.1.deep_view() == dropped_tags_of(lines.deep_view())
        },
{
    let ghost lv = lines.deep_view();
    let mut headers: Vec<String> = Vec::new();
    proof {
        reveal_strlit("tag");
        assert("tag"@ =~= tag_header());
    }
    headers.push(String::from_str("tag"));
    let mut dropped: Vec<String> = Vec::new();
    let mut any = false;
    proof {
        assert(lv.take(0) =~= Seq::<Seq<char>>::empty());
        assert(headers.deep_view() =~= seq![tag_header()]);
        assert(dropped.deep_view() =~= Seq::<Seq<char>>::empty());
    }
    for i in 0..lines.len()
        invariant
            lv == lines.deep_view(),
            headers.deep_view() == headers_of(records_of(lv.take(i as int))),
            dropped.deep_view() == dropped_tags_of(lv.take(i as int)),
            any <==> records_of(lv.take(i as int)).len() > 0,
    {
        proof {
            assert(lv.take(i as int + 1).drop_last() =~= lv.take(i as int));
            assert(lv.take(i as int + 1).last() == lv[i as int]);
            assert(lv[i as int] == lines@[i as int]@);
        }
        let line = &lines[i];
        let mut is_record = false;
        if score_line_check(line.as_str()) {
            if let Some(entries_tok) = token_at(line.as_str(), 2) {
                is_record = true;
                any = true;
                let tag = match token_at(line.as_str(), 1) {
                    Some(t) => t,
                    None => {
                        proof {
                            lemma_has_token_down(lv[i as int], 2);
                        }
                        String::new()
                    },
                };
                let entries = split_char(entries_tok.as_str(), '|');
                let ghost es = split_on(nth_token(lv[i as int], 2), '|');
                let ghost rec = (nth_token(lv[i as int], 1), good_pairs(es));
                let ghost h0 = headers.deep_view();
                let ghost d0 = dropped.deep_view();
                proof {
                    assert(es.take(0) =~= Seq::<Seq<char>>::empty());
                    assert(h0 + Seq::<Seq<char>>::empty() =~= h0);
                    assert(d0 + Seq::new(0, |k: int| rec.0) =~= d0);
                }
                for j in 0..entries.len()
                    invariant
                        lv == lines.deep_view(),
                        i < lv.len(),
                        es == entries.deep_view(),
                        rec == (nth_token(lv[i as int], 1), good_pairs(es)),
                        tag@ == rec.0,
                        headers.deep_view() == add_keys(h0, good_pairs(es.take(j as int))),
                        dropped.deep_view() == d0 + Seq::new(
                            bad_count(es.take(j as int)),
                            |k: int| rec.0,
                        ),
                {
                    proof {
                        reveal_strlit("tag");
                        assert("tag"@ =~= tag_header());
                        assert(es.take(j as int + 1).drop_last() =~= es.take(j as int));
                        assert(es.take(j as int + 1).last() == es[j as int]);
                        assert(es[j as int] == entries@[j as int]@);
                    }
                    let ps = split_char(entries[j].as_str(), '=');
                    let ghost gtake = good_pairs(es.take(j as int));
                    let ghost btake = bad_count(es.take(j as int));
                    if ps.len() == 2 {
                        proof {
                            assert(ps.deep_view()[0] == ps@[0]@);
                            assert(ps.deep_view()[1] == ps@[1]@);
                            assert(entry_pair(es[j as int]) == Some((ps@[0]@, ps@[1]@)));
                        }
                        if is_decimal_str(ps[1].as_str()) {
                            proof {
                                assert(good_pairs(es.take(j as int + 1)) == gtake + seq![
                                    (ps@[0]@, ps@[1]@),
                                ]);
                                assert((gtake + seq![(ps@[0]@, ps@[1]@)]).drop_last() =~= gtake);
                                assert(bad_count(es.take(j as int + 1)) == btake);
                                assert(d0 + Seq::new(btake, |k: int| rec.0) =~= d0 + Seq::new(
                                    bad_count(es.take(j as int + 1)),
                                    |k: int| rec.0,
                                ));
                            }
                            let key = &ps[0];
                            if !str_eq(key.as_str(), "tag") {
                                if !crate::text::vec_contains_str(&headers, key.as_str()) {
                                    let ghost hcur = headers.deep_view();
                                    headers.push(key.clone());
                                    proof {
                                        assert(headers.deep_view() =~= hcur.push(ps@[0]@));
                                    }
                                }
                            }
                        } else {
                            proof {
                                assert(good_pairs(es.take(j as int + 1)) =~= gtake);
                                assert(bad_count(es.take(j as int + 1)) == btake + 1);
                            }
                            let ghost dcur = dropped.deep_view();
                            dropped.push(tag.clone());
                            proof {
                                assert(dropped.deep_view() =~= dcur.push(rec.0));
                                assert(d0 + Seq::new(btake + 1, |k: int| rec.0) =~= (d0 + Seq::new(
                                    btake,
                                    |k: int| rec.0,
                                )).push(rec.0));
                            }
                        }
                    } else {
                        proof {
                            assert(entry_pair(es[j as int]) is None);
                            assert(good_pairs(es.take(j as int + 1)) =~= gtake);
                            assert(bad_count(es.take(j as int + 1)) == btake);
                            assert(d0 + Seq::new(btake, |k: int| rec.0) =~= d0 + Seq::new(
                                bad_count(es.take(j as int + 1)),
                                |k: int| rec.0,
                            ));
                        }
                    }
                }
                proof {
                    assert(es.take(entries@.len() as int) =~= es);
                    assert(records_of(lv.take(i as int + 1)) == records_of(lv.take(i as int))
                        + seq![rec]);
                    assert((records_of(lv.take(i as int)) + seq![rec]).drop_last()
                        =~= records_of(lv.take(i as int)));
                    assert(headers.deep_view() == headers_of(records_of(lv.take(i as int + 1))));
                    assert(dropped_tags_of(lv.take(i as int + 1)) == dropped_tags_of(
                        lv.take(i as int),
                    ) + Seq::new(bad_count(es), |k: int| rec.0));
                    assert(dropped.deep_view() == dropped_tags_of(lv.take(i as int + 1)));
                }
            }
        }
        if !is_record {
            proof {
                assert(records_of(lv.take(i as int + 1)) =~= records_of(lv.take(i as int)));
                assert(dropped_tags_of(lv.take(i as int + 1)) =~= dropped_tags_of(
                    lv.take(i as int),
                ));
                assert(headers.deep_view() == headers_of(records_of(lv.take(i as int + 1))));
            }
        }
    }
    proof {
        assert(lv.take(lines@.len() as int) =~= lv);
    }
    if !any {
        return Err(QuiverError::EmptyResult);
    }
    let ghost hv = headers_of(records_of(lv));
    let mut rows: Vec<String> = Vec::new();
    let header_row = join_tabs(&headers);
    rows.push(header_row);
    proof {
        assert(lv.take(0) =~= Seq::<Seq<char>>::empty());
        assert(rows.deep_view() =~= seq![join_tabs_spec(hv)]);
        assert(data_rows(records_of(lv.take(0)), hv) =~= Seq::<Seq<char>>::empty());
        assert(seq![join_tabs_spec(hv)] + Seq::<Seq<char>>::empty() =~= seq![
            join_tabs_spec(hv),
        ]);
    }
    for i in 0..lines.len()
        invariant
            lv == lines.deep_view(),
            hv == headers_of(records_of(lv)),
            headers.deep_view() == hv,
            rows.deep_view() == seq![join_tabs_spec(hv)] + data_rows(
                records_of(lv.take(i as int)),
                hv,
            ),
    {
        proof {
            assert(lv.take(i as int + 1).drop_last() =~= lv.take(i as int));
            assert(lv.take(i as int + 1).last() == lv[i as int]);
            assert(lv[i as int] == lines@[i as int]@);
        }
        let line = &lines[i];
        let mut is_record = false;
        if score_line_check(line.as_str()) {
            if let Some(entries_tok) = token_at(line.as_str(), 2) {
                is_record = true;
                let tag = match token_at(line.as_str(), 1) {
                    Some(t) => t,
                    None => {
                        proof {
                            lemma_has_token_down(lv[i as int], 2);
                        }
                        String::new()
                    },
                };
                let entries = split_char(entries_tok.as_str(), '|');
                let ghost es = split_on(nth_token(lv[i as int], 2), '|');
                let ghost rec = (nth_token(lv[i as int], 1), good_pairs(es));
                let mut cells: Vec<String> = Vec::new();
                proof {
                    assert(row_of(rec, hv).take(0) =~= Seq::<Seq<char>>::empty());
                    assert(cells.deep_view() =~= row_of(rec, hv).take(0));
                }
                for k in 0..headers.len()
                    invariant
                        lv == lines.deep_view(),
                        i < lv.len(),
                        es == entries.deep_view(),
                        rec == (nth_token(lv[i as int], 1), good_pairs(es)),
                        tag@ == rec.0,
                        headers.deep_view() == hv,
                        cells.deep_view() == row_of(rec, hv).take(k as int),
                {
                    proof {
                        reveal_strlit("tag");
                        reveal_strlit("NaN");
                        assert("tag"@ =~= tag_header());
                        assert("NaN"@ =~= nan_chars());
                        assert(hv[k as int] == headers@[k as int]@);
                    }
                    let h = &headers[k];
                    let looked = lookup_entry_val(&entries, h.as_str());
                    let is_tag_h = str_eq(h.as_str(), "tag");
                    let cell: String = match looked {
                        Some(v) => v,
                        None => if is_tag_h {
                            tag.clone()
                        } else {
                            String::from_str("NaN")
                        },
                    };
                    proof {
                        assert(cell@ == cell_of(rec, hv[k as int]));
                    }
                    let ghost ccur = cells.deep_view();
                    cells.push(cell);
                    proof {
                        assert(cells.deep_view() =~= ccur.push(cell_of(rec, hv[k as int])));
                        assert(row_of(rec, hv).take(k as int + 1) =~= row_of(rec, hv).take(
                            k as int,
                        ).push(cell_of(rec, hv[k as int])));
                    }
                }
                proof {
                    assert(row_of(rec, hv).take(headers@.len() as int) =~= row_of(rec, hv));
                }
                let row = join_tabs(&cells);
                let ghost rcur = rows.deep_view();
                rows.push(row);
                proof {
                    assert(records_of(lv.take(i as int + 1)) == records_of(lv.take(i as int))
                        + seq![rec]);
                    assert(rows.deep_view() =~= rcur.push(join_tabs_spec(row_of(rec, hv))));
                    assert(data_rows(records_of(lv.take(i as int + 1)), hv) =~= data_rows(
                        records_of(lv.take(i as int)),
                        hv,
                    ).push(join_tabs_spec(row_of(rec, hv))));
                    assert(rows.deep_view() =~= seq![join_tabs_spec(hv)] + data_rows(
                        records_of(lv.take(i as int + 1)),
                        hv,
                    ));
                }
            }
        }
        if !is_record {
            proof {
                assert(records_of(lv.take(i as int + 1)) =~= records_of(lv.take(i as int)));
            }
        }
    }
    proof {
        assert(lv.take(lines@.len() as int) =~= lv);
    }
    Ok((rows, dropped))
}

} // verus!
