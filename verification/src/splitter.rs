//! The archive splitter: streams an archive once and groups its records,
//! `n` per chunk, into independent archives.

use crate::archive::{Mode, QuiverCore};
use crate::grammar::{is_tag_line, tag_line_check};
use crate::QuiverError;
use vstd::prelude::*;

verus! {

/// How many tag-declaration lines the lines hold.
pub open spec fn count_tag_lines(lines: Seq<Seq<char>>) -> nat
    decreases lines.len(),
{
    if lines.len() == 0 {
        0
    } else {
        count_tag_lines(lines.drop_last()) + if is_tag_line(lines.last()) {
            1nat
        } else {
            0nat
        }
    }
}

/// The splitter's state after the given lines: the chunks so far, and how
/// many tag-declaration lines have been seen.
///
/// A tag-declaration line whose running count is a multiple of `n` starts a
/// new chunk; every line joins the open chunk; lines before the first
/// declaration are dropped, since no chunk is open yet.
pub open spec fn split_state(lines: Seq<Seq<char>>, n: nat) -> (Seq<Seq<Seq<char>>>, nat)
    recommends
        n >= 1,
    decreases lines.len(),
{
    if lines.len() == 0 {
        (Seq::empty(), 0)
    } else {
        let prev = split_state(lines.drop_last(), n);
        let chunks = prev.0;
        let cnt = prev.1;
        let l = lines.last();
        if is_tag_line(l) {
            if cnt % n == 0 {
                (chunks.push(seq![l]), cnt + 1)
            } else {
                (chunks.update(chunks.len() - 1, chunks.last().push(l)), cnt + 1)
            }
        } else {
            if chunks.len() > 0 {
                (chunks.update(chunks.len() - 1, chunks.last().push(l)), cnt)
            } else {
                (chunks, cnt)
            }
        }
    }
}

/// The splitter counts every tag-declaration line, opens a chunk exactly
/// when records exist, and produces `ceil(records / n)` chunks.
pub proof fn lemma_split_count(lines: Seq<Seq<char>>, n: nat)
    requires
        n >= 1,
    ensures
        split_state(lines, n).1 == count_tag_lines(lines),
        split_state(lines, n).1 == 0 <==> split_state(lines, n).0.len() == 0,
        split_state(lines, n).1 > 0 ==> (n as int) * (split_state(lines, n).0.len() - 1)
            < split_state(lines, n).1 <= (n as int) * split_state(lines, n).0.len(),
        split_state(lines, n).0.len() == (split_state(lines, n).1 + n - 1) / (n as int),
    decreases lines.len(),
{
    let cnt = split_state(lines, n).1;
    let len = split_state(lines, n).0.len();
    if lines.len() == 0 {
    } else {
        lemma_split_count(lines.drop_last(), n);
        let pcnt = split_state(lines.drop_last(), n).1;
        let plen = split_state(lines.drop_last(), n).0.len();
        if is_tag_line(lines.last()) {
            if pcnt % n == 0 {
                assert(pcnt == (n as int) * plen) by (nonlinear_arith)
                    requires
                        n >= 1,
                        pcnt % n == 0,
                        pcnt == 0 ==> plen == 0,
                        pcnt > 0 ==> (n as int) * (plen - 1) < pcnt <= (n as int) * plen,
                ;
                assert(len == plen + 1 && cnt == pcnt + 1);
                assert((n as int) * (len - 1) < cnt <= (n as int) * len) by (nonlinear_arith)
                    requires
                        n >= 1,
                        pcnt == (n as int) * plen,
                        len == plen + 1,
                        cnt == pcnt + 1,
                ;
            } else {
                assert(pcnt < (n as int) * plen) by (nonlinear_arith)
                    requires
                        n >= 1,
                        pcnt % n != 0,
                        pcnt == 0 ==> plen == 0,
                        pcnt > 0 ==> (n as int) * (plen - 1) < pcnt <= (n as int) * plen,
                ;
                assert(len == plen && cnt == pcnt + 1);
            }
        }
        assert(cnt > 0 ==> (n as int) * (len - 1) < cnt <= (n as int) * len);
    }
    if cnt == 0 {
        assert(len == 0);
        assert((0 + n - 1) / (n as int) == 0) by (nonlinear_arith)
            requires
                n >= 1,
        ;
    } else {
        assert(len == (cnt + n - 1) / (n as int)) by (nonlinear_arith)
            requires
                n >= 1,
                cnt > 0,
                (n as int) * (len - 1) < cnt <= (n as int) * len,
        ;
    }
}

/// Concatenating every chunk's lines, in chunk order, reproduces the source
/// archive exactly — provided the archive starts with a tag-declaration
/// line, as a well-formed archive does (lines before the first declaration
/// belong to no record and are dropped).
pub proof fn lemma_split_concat(lines: Seq<Seq<char>>, n: nat)
    requires
        n >= 1,
        lines.len() > 0 ==> is_tag_line(lines[0]),
    ensures
        split_state(lines, n).0.flatten_alt() == lines,
    decreases lines.len(),
{
    if lines.len() == 0 {
        assert(split_state(lines, n).0.flatten_alt() =~= lines);
    } else {
        let prev = split_state(lines.drop_last(), n);
        let chunks = prev.0;
        let l = lines.last();
        if lines.len() > 1 {
            assert(lines.drop_last()[0] == lines[0]);
        }
        lemma_split_concat(lines.drop_last(), n);
        lemma_split_count(lines.drop_last(), n);
        assert(chunks.flatten_alt() == lines.drop_last());
        if lines.len() == 1 {
            assert(chunks.len() == 0) by {
                if chunks.len() > 0 {
                    chunks.lemma_flatten_length_ge_single_element_length(chunks.len() - 1);
                }
            }
            assert(count_tag_lines(lines.drop_last()) == 0);
            assert(prev.1 % n == 0);
            let out = split_state(lines, n).0;
            assert(out == chunks.push(seq![l]));
            assert(out.drop_last() =~= chunks);
            assert(out.flatten_alt() == chunks.flatten_alt() + seq![l]);
            assert(chunks.flatten_alt() + seq![l] =~= lines);
        } else {
            // The source has records, so a chunk is open.
            assert(chunks.len() > 0) by {
                if chunks.len() == 0 {
                    assert(prev.1 == 0);
                    assert(count_tag_lines(lines.drop_last()) > 0) by {
                        lemma_count_first_tag(lines.drop_last());
                    }
                }
            }
            let out = split_state(lines, n).0;
            if is_tag_line(l) && prev.1 % n == 0 {
                assert(out == chunks.push(seq![l]));
                assert(out.drop_last() =~= chunks);
                assert(out.flatten_alt() == chunks.flatten_alt() + seq![l]);
                assert(chunks.flatten_alt() + seq![l] =~= lines);
            } else {
                assert(out == chunks.update(chunks.len() - 1, chunks.last().push(l)));
                assert(out.len() == chunks.len());
                assert(out.drop_last() =~= chunks.drop_last());
                assert(out.last() == chunks.last().push(l));
                assert(out.flatten_alt() == out.drop_last().flatten_alt() + out.last());
                assert(chunks.flatten_alt() == chunks.drop_last().flatten_alt() + chunks.last());
                assert(chunks.drop_last().flatten_alt() + chunks.last().push(l) =~= (
                chunks.drop_last().flatten_alt() + chunks.last()) + seq![l]);
                assert((chunks.drop_last().flatten_alt() + chunks.last()) + seq![l] =~= lines);
            }
        }
    }
}

/// Every chunk holds `n` records — except the last, which holds the
/// remaining `records - i * n`, between one and `n`.
pub proof fn lemma_split_chunk_sizes(lines: Seq<Seq<char>>, n: nat)
    requires
        n >= 1,
    ensures
        forall|i: int|
            0 <= i < split_state(lines, n).0.len() ==> count_tag_lines(
                #[trigger] split_state(lines, n).0[i],
            ) == (if i < split_state(lines, n).0.len() - 1 {
                n as int
            } else {
                split_state(lines, n).1 - i * (n as int)
            }),
    decreases lines.len(),
{
    if lines.len() == 0 {
    } else {
        lemma_split_chunk_sizes(lines.drop_last(), n);
        lemma_split_count(lines.drop_last(), n);
        lemma_split_count(lines, n);
        let prev = split_state(lines.drop_last(), n);
        let chunks = prev.0;
        let pcnt = prev.1;
        let plen = chunks.len();
        let l = lines.last();
        let out = split_state(lines, n).0;
        let cnt = split_state(lines, n).1;
        if is_tag_line(l) {
            if pcnt % n == 0 {
                // The count is a full multiple: the open chunks are all
                // complete, and a fresh chunk takes this record.
                assert(pcnt == (n as int) * plen) by (nonlinear_arith)
                    requires
                        n >= 1,
                        pcnt % n == 0,
                        pcnt == 0 ==> plen == 0,
                        pcnt > 0 ==> (n as int) * (plen - 1) < pcnt <= (n as int) * plen,
                ;
                assert(out == chunks.push(seq![l]));
                assert(count_tag_lines(seq![l]) == 1) by {
                    assert(seq![l].drop_last() =~= Seq::<Seq<char>>::empty());
                    assert(count_tag_lines(Seq::<Seq<char>>::empty()) == 0);
                    assert(seq![l].last() == l);
                }
                assert forall|i: int| 0 <= i < out.len() implies count_tag_lines(
                    #[trigger] out[i],
                ) == (if i < out.len() - 1 {
                    n as int
                } else {
                    cnt - i * (n as int)
                }) by {
                    if i < plen {
                        assert(out[i] == chunks[i]);
                        if i == plen - 1 {
                            assert(count_tag_lines(chunks[i]) == pcnt - i * (n as int));
                            assert(pcnt - (plen - 1) * (n as int) == n as int)
                                by (nonlinear_arith)
                                requires
                                    pcnt == (n as int) * plen,
                                    plen >= 1,
                            ;
                        }
                    } else {
                        assert(out[i] == seq![l]);
                        assert(cnt - plen * (n as int) == 1) by (nonlinear_arith)
                            requires
                                pcnt == (n as int) * plen,
                                cnt == pcnt + 1,
                        ;
                    }
                }
            } else {
                // A partial chunk is open: this record joins it.
                assert(plen > 0) by {
                    assert(pcnt % n != 0);
                    assert(pcnt > 0) by (nonlinear_arith)
                        requires
                            n >= 1,
                            pcnt % n != 0,
                    ;
                }
                assert(out == chunks.update(plen - 1, chunks.last().push(l)));
                assert forall|i: int| 0 <= i < out.len() implies count_tag_lines(
                    #[trigger] out[i],
                ) == (if i < out.len() - 1 {
                    n as int
                } else {
                    cnt - i * (n as int)
                }) by {
                    if i < plen - 1 {
                        assert(out[i] == chunks[i]);
                    } else {
                        assert(out[i] == chunks.last().push(l));
                        assert((chunks.last().push(l)).drop_last() =~= chunks.last());
                        assert(count_tag_lines(out[i]) == count_tag_lines(chunks[i]) + 1);
                    }
                }
            }
        } else {
            if plen > 0 {
                assert(out == chunks.update(plen - 1, chunks.last().push(l)));
                assert forall|i: int| 0 <= i < out.len() implies count_tag_lines(
                    #[trigger] out[i],
                ) == (if i < out.len() - 1 {
                    n as int
                } else {
                    cnt - i * (n as int)
                }) by {
                    if i < plen - 1 {
                        assert(out[i] == chunks[i]);
                    } else {
                        assert(out[i] == chunks.last().push(l));
                        assert((chunks.last().push(l)).drop_last() =~= chunks.last());
                        assert(count_tag_lines(out[i]) == count_tag_lines(chunks[i]));
                    }
                }
            }
        }
    }
}

/// An archive whose first line declares a record holds at least one record.
pub proof fn lemma_count_first_tag(lines: Seq<Seq<char>>)
    requires
        lines.len() > 0,
        is_tag_line(lines[0]),
    ensures
        count_tag_lines(lines) > 0,
    decreases lines.len(),
{
    if lines.len() > 1 {
        assert(lines.drop_last()[0] == lines[0]);
        lemma_count_first_tag(lines.drop_last());
    }
}

impl QuiverCore {
    /// Splits the archive's records into chunks of `ntags` records each (the
    /// last chunk may hold fewer), in file order.
    ///
    /// Requires read mode (`ReadModeRequired`) and `ntags >= 1`
    /// (`InvalidArgument`).  Chunk `k` belongs in a file named
    /// `{prefix}_{k}.qv` (see `chunk_file_name`); the source is not touched.
    pub fn split(&self, ntags: usize, file_lines: &Vec<String>) -> (r: Result<
        Vec<Vec<String>>,
        QuiverError,
    >)
        ensures
            self.mode != Mode::Read ==> r == Err::<Vec<Vec<String>>, QuiverError>(
                QuiverError::ReadModeRequired,
            ),
            self.mode == Mode::Read && ntags == 0 ==> r == Err::<Vec<Vec<String>>, QuiverError>(
                QuiverError::InvalidArgument,
            ),
            self.mode == Mode::Read && ntags >= 1 ==> {
                &&& r is Ok
                &&& r->Ok_0.deep_view() == split_state(file_lines.deep_view(), ntags as nat).0
            },
    {
        if !matches!(self.mode, Mode::Read) {
            return Err(QuiverError::ReadModeRequired);
        }
        if ntags == 0 {
            return Err(QuiverError::InvalidArgument);
        }
        let ghost all = file_lines.deep_view();
        let ghost n = ntags as nat;
        let mut done: Vec<Vec<String>> = Vec::new();
        let mut current: Vec<String> = Vec::new();
        let mut open = false;
        let mut cnt: usize = 0;
        proof {
            assert(all.take(0) =~= Seq::<Seq<char>>::empty());
        }
        for i in 0..file_lines.len()
            invariant
                ntags >= 1,
                n == ntags as nat,
                all == file_lines.deep_view(),
                cnt <= i,
                split_state(all.take(i as int), n).1 == cnt as nat,
                split_state(all.take(i as int), n).0 == done.deep_view() + if open {
                    seq![current.deep_view()]
                } else {
                    Seq::<Seq<Seq<char>>>::empty()
                },
                open <==> split_state(all.take(i as int), n).0.len() > 0,
                !open ==> current@.len() == 0,
        {
            proof {
                assert(all.take(i as int + 1).drop_last() =~= all.take(i as int));
                assert(all.take(i as int + 1).last() == all[i as int]);
                assert(all[i as int] == file_lines@[i as int]@);
            }
            let ghost prev = split_state(all.take(i as int), n);
            let line = &file_lines[i];
            if tag_line_check(line.as_str()) {
                if cnt % ntags == 0 {
                    if open {
                        done.push(current);
                        current = Vec::new();
                    }
                    current.push(line.clone());
                    open = true;
                    proof {
                        assert(current.deep_view() =~= seq![all[i as int]]);
                        if prev.1 > 0 {
                            assert(done.deep_view() =~= prev.0);
                        } else {
                            assert(done.deep_view() =~= prev.0);
                        }
                        assert(split_state(all.take(i as int + 1), n).0 == prev.0.push(
                            seq![all[i as int]],
                        ));
                        assert(done.deep_view() + seq![current.deep_view()] =~= prev.0.push(
                            seq![all[i as int]],
                        ));
                    }
                } else {
                    current.push(line.clone());
                    proof {
                        // A partial chunk is open: the count is not a
                        // multiple of the chunk size, so records were seen.
                        lemma_split_count(all.take(i as int), n);
                        assert(split_state(all.take(i as int), n).1 % n != 0);
                        let c = split_state(all.take(i as int), n).1;
                        assert(c > 0) by (nonlinear_arith)
                            requires
                                n >= 1,
                                c % n != 0,
                        ;
                        assert(open);
                        assert(prev.0.len() > 0);
                        assert(split_state(all.take(i as int + 1), n).0 == prev.0.update(
                            prev.0.len() - 1,
                            prev.0.last().push(all[i as int]),
                        ));
                        assert(prev.0.last() =~= current.deep_view().drop_last());
                        assert(current.deep_view() =~= prev.0.last().push(all[i as int]));
                        assert(done.deep_view() + seq![current.deep_view()] =~= prev.0.update(
                            prev.0.len() - 1,
                            prev.0.last().push(all[i as int]),
                        ));
                    }
                }
                cnt = cnt + 1;
            } else {
                if open {
                    current.push(line.clone());
                    proof {
                        assert(prev.0.len() > 0);
                        assert(split_state(all.take(i as int + 1), n).0 == prev.0.update(
                            prev.0.len() - 1,
                            prev.0.last().push(all[i as int]),
                        ));
                        assert(prev.0.last() =~= current.deep_view().drop_last());
                        assert(current.deep_view() =~= prev.0.last().push(all[i as int]));
                        assert(done.deep_view() + seq![current.deep_view()] =~= prev.0.update(
                            prev.0.len() - 1,
                            prev.0.last().push(all[i as int]),
                        ));
                    }
                } else {
                    proof {
                        assert(prev.0.len() == 0);
                        assert(split_state(all.take(i as int + 1), n).0 == prev.0);
                    }
                }
            }
        }
        proof {
            assert(all.take(file_lines@.len() as int) =~= all);
        }
        if open {
            done.push(current);
            proof {
                assert(done.deep_view() =~= split_state(all, n).0);
            }
        } else {
            proof {
                assert(done.deep_view() =~= split_state(all, n).0);
            }
        }
        Ok(done)
    }
}

/// The decimal digits of `v`, most significant first.
pub open spec fn dec_digits(v: nat) -> Seq<char>
    decreases v,
{
    if v < 10 {
        seq![digit_char(v)]
    } else {
        dec_digits(v / 10).push(digit_char(v % 10))
    }
}

/// The character for one decimal digit.
pub open spec fn digit_char(d: nat) -> char {
    if d == 0 {
        '0'
    } else if d == 1 {
        '1'
    } else if d == 2 {
        '2'
    } else if d == 3 {
        '3'
    } else if d == 4 {
        '4'
    } else if d == 5 {
        '5'
    } else if d == 6 {
        '6'
    } else if d == 7 {
        '7'
    } else if d == 8 {
        '8'
    } else {
        '9'
    }
}

/// One decimal digit as text.
fn digit_str(d: usize) -> (r: &'static str)
    requires
        d < 10,
    ensures
        r@ == seq![digit_char(d as nat)],
{
    proof {
        reveal_strlit("0");
        reveal_strlit("1");
        reveal_strlit("2");
        reveal_strlit("3");
        reveal_strlit("4");
        reveal_strlit("5");
        reveal_strlit("6");
        reveal_strlit("7");
        reveal_strlit("8");
        reveal_strlit("9");
        assert("0"@ =~= seq!['0']);
        assert("1"@ =~= seq!['1']);
        assert("2"@ =~= seq!['2']);
        assert("3"@ =~= seq!['3']);
        assert("4"@ =~= seq!['4']);
        assert("5"@ =~= seq!['5']);
        assert("6"@ =~= seq!['6']);
        assert("7"@ =~= seq!['7']);
        assert("8"@ =~= seq!['8']);
        assert("9"@ =~= seq!['9']);
    }
    match d {
        0 => "0",
        1 => "1",
        2 => "2",
        3 => "3",
        4 => "4",
        5 => "5",
        6 => "6",
        7 => "7",
        8 => "8",
        _ => "9",
    }
}

/// `v` written in decimal.
pub fn usize_to_decimal(v: usize) -> (r: String)
    ensures
        r@ == dec_digits(v as nat),
    decreases v,
{
    if v < 10 {
        String::from_str(digit_str(v))
    } else {
        let mut s = usize_to_decimal(v / 10);
        s.append(digit_str(v % 10));
        proof {
            assert(s@ =~= dec_digits(v as nat));
        }
        s
    }
}

/// The name of a chunk's output file.
pub open spec fn chunk_name_chars(prefix: Seq<char>, index: nat) -> Seq<char> {
    prefix + seq!['_'] + dec_digits(index) + seq!['.', 'q', 'v']
}

/// Builds the output file name `{prefix}_{index}.qv` for one chunk.
pub fn chunk_file_name(prefix: &str, index: usize) -> (r: String)
    ensures
        r@ == chunk_name_chars(prefix@, index as nat),
{
    proof {
        reveal_strlit("_");
        reveal_strlit(".qv");
        assert("_"@ =~= seq!['_']);
        assert(".qv"@ =~= seq!['.', 'q', 'v']);
    }
    let mut s = String::from_str(prefix);
    s.append("_");
    let digits = usize_to_decimal(index);
    s.append(digits.as_str());
    s.append(".qv");
    proof {
        assert(s@ =~= chunk_name_chars(prefix@, index as nat));
    }
    s
}

} // verus!
