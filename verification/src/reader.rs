//! The record reader: one forward scan extracting the payload of one tag.

use crate::archive::{Mode, QuiverCore};
use crate::grammar::{
    has_line_tag, is_score_line, is_tag_line, lemma_score_line_roundtrip, lemma_tag_line_roundtrip,
    line_tag, line_tag_of, nl, score_line_check, score_line_for, tag_line_check, tag_line_for,
    tags_of, valid_tag,
};
use crate::text::str_eq;
use crate::QuiverError;
use vstd::prelude::*;

verus! {

/// One step of the reader's scan, from the front of the remaining lines.
///
/// `found` says whether the requested record's declaration has been seen.
/// The result is whether it has been seen by the end, and the payload lines
/// collected for it, each with a newline appended.  A score-declaration
/// line is never payload, and the scan stops at the first tag-declaration
/// line after the match.
pub open spec fn read_payload(lines: Seq<Seq<char>>, tag: Seq<char>, found: bool) -> (
    bool,
    Seq<Seq<char>>,
)
    decreases lines.len(),
{
    if lines.len() == 0 {
        (found, Seq::empty())
    } else {
        let l = lines[0];
        let rest = lines.drop_first();
        if is_tag_line(l) && has_line_tag(l) && line_tag(l) == tag {
            read_payload(rest, tag, true)
        } else if is_tag_line(l) && found {
            (true, Seq::empty())
        } else if is_tag_line(l) {
            read_payload(rest, tag, false)
        } else if found && !is_score_line(l) {
            let r = read_payload(rest, tag, true);
            (r.0, seq![l + nl()] + r.1)
        } else {
            read_payload(rest, tag, found)
        }
    }
}

impl QuiverCore {
    /// Extracts the payload of the record named `tag`, each line
    /// newline-terminated, from the archive's file lines.
    ///
    /// Requires read mode (`ReadModeRequired`); a tag never declared is
    /// `TagNotFound`.
    pub fn get_pdblines(&self, tag: &str, file_lines: &Vec<String>) -> (r: Result<
        Vec<String>,
        QuiverError,
    >)
        ensures
            self.mode != Mode::Read ==> r == Err::<Vec<String>, QuiverError>(
                QuiverError::ReadModeRequired,
            ),
            self.mode == Mode::Read ==> {
                &&& (r is Ok <==> read_payload(file_lines.deep_view(), tag@, false).0)
                &&& r is Ok ==> r->Ok_0.deep_view() == read_payload(
                    file_lines.deep_view(),
                    tag@,
                    false,
                ).1
                &&& r is Err ==> r == Err::<Vec<String>, QuiverError>(QuiverError::TagNotFound)
            },
    {
        if !matches!(self.mode, Mode::Read) {
            return Err(QuiverError::ReadModeRequired);
        }
        let ghost all = file_lines.deep_view();
        let mut found = false;
        let mut out: Vec<String> = Vec::new();
        proof {
            assert(all.skip(0) =~= all);
            assert(out.deep_view() + read_payload(all, tag@, false).1 =~= read_payload(
                all,
                tag@,
                false,
            ).1);
        }
        let n = file_lines.len();
        let mut i: usize = 0;
        while i < n
            invariant
                self.mode == Mode::Read,
                n == all.len(),
                all == file_lines.deep_view(),
                i <= n,
                read_payload(all, tag@, false).0 == read_payload(
                    all.skip(i as int),
                    tag@,
                    found,
                ).0,
                read_payload(all, tag@, false).1 == out.deep_view() + read_payload(
                    all.skip(i as int),
                    tag@,
                    found,
                ).1,
            decreases n - i,
        {
            proof {
                reveal_strlit("\n");
                assert("\n"@ =~= nl());
                assert(all.skip(i as int)[0] == all[i as int]);
                assert(all.skip(i as int).drop_first() =~= all.skip(i as int + 1));
                assert(all[i as int] == file_lines@[i as int]@);
            }
            let line = &file_lines[i];
            if tag_line_check(line.as_str()) {
                let matches_tag = match line_tag_of(line.as_str()) {
                    Some(t) => str_eq(t.as_str(), tag),
                    None => false,
                };
                if matches_tag {
                    found = true;
                } else if found {
                    // The requested record has ended: stop scanning.
                    proof {
                        assert(read_payload(all.skip(i as int), tag@, true) == (
                            true,
                            Seq::<Seq<char>>::empty(),
                        ));
                        assert(out.deep_view() + Seq::<Seq<char>>::empty() =~= out.deep_view());
                    }
                    return Ok(out);
                }
            } else if found && !score_line_check(line.as_str()) {
                let mut piece = line.clone();
                piece.append("\n");
                out.push(piece);
                proof {
                    let r = read_payload(all.skip(i as int + 1), tag@, true);
                    assert(out.deep_view() =~= out.deep_view().drop_last().push(
                        all[i as int] + nl(),
                    ));
                    assert(out.deep_view().drop_last() + (seq![all[i as int] + nl()] + r.1)
                        =~= out.deep_view() + r.1);
                }
            }
            i = i + 1;
        }
        proof {
            assert(all.skip(n as int) =~= Seq::<Seq<char>>::empty());
            assert(out.deep_view() + Seq::<Seq<char>>::empty() =~= out.deep_view());
        }
        if found {
            Ok(out)
        } else {
            Err(QuiverError::TagNotFound)
        }
    }
}

/// A scan whose record was already seen always reports it.
pub proof fn lemma_read_found_stays(lines: Seq<Seq<char>>, tag: Seq<char>)
    ensures
        read_payload(lines, tag, true).0,
    decreases lines.len(),
{
    if lines.len() > 0 {
        let l = lines[0];
        if is_tag_line(l) && has_line_tag(l) && line_tag(l) == tag {
            lemma_read_found_stays(lines.drop_first(), tag);
        } else if is_tag_line(l) {
        } else {
            lemma_read_found_stays(lines.drop_first(), tag);
        }
    }
}

/// The reader finds a tag exactly when the archive's index holds it: so
/// `get_pdblines` succeeds on precisely the declared tags.
pub proof fn lemma_read_finds_indexed_tags(lines: Seq<Seq<char>>, tag: Seq<char>)
    ensures
        read_payload(lines, tag, false).0 == tags_of(lines).contains(tag),
    decreases lines.len(),
{
    if lines.len() == 0 {
        assert(!tags_of(lines).contains(tag));
    } else {
        let l = lines[0];
        lemma_tags_of_first(lines);
        let head = if is_tag_line(l) && has_line_tag(l) {
            seq![line_tag(l)]
        } else {
            Seq::<Seq<char>>::empty()
        };
        let tail_tags = tags_of(lines.drop_first());
        if is_tag_line(l) && has_line_tag(l) && line_tag(l) == tag {
            lemma_read_found_stays(lines.drop_first(), tag);
            assert(tags_of(lines)[0] == tag);
        } else {
            lemma_read_finds_indexed_tags(lines.drop_first(), tag);
            assert(tags_of(lines).contains(tag) == tail_tags.contains(tag)) by {
                if tail_tags.contains(tag) {
                    let j = choose|j: int|
                        0 <= j < tail_tags.len() && tail_tags[j] == tag;
                    assert(tags_of(lines)[j + head.len()] == tag);
                }
                if tags_of(lines).contains(tag) {
                    let j = choose|j: int|
                        0 <= j < tags_of(lines).len() && tags_of(lines)[j] == tag;
                    assert(j >= head.len()) by {
                        if j < head.len() {
                            assert(tags_of(lines)[j] == line_tag(l));
                        }
                    }
                    assert(tail_tags[j - head.len()] == tag);
                }
            }
        }
    }
}

/// The lines a record contributes to the file: its tag-declaration line, its
/// score-declaration line if a score was given, then its payload lines.
/// These are the file lines that the pieces returned by `add_pdb` become,
/// when every payload line is free of newlines.
pub open spec fn record_lines(
    tag: Seq<char>,
    score: Option<Seq<char>>,
    payload: Seq<Seq<char>>,
) -> Seq<Seq<char>> {
    seq![tag_line_for(tag)] + (match score {
        Some(s) => seq![score_line_for(tag, s)],
        None => Seq::<Seq<char>>::empty(),
    }) + payload
}

/// Each line with a newline appended, as the reader returns payload.
pub open spec fn with_newlines(ls: Seq<Seq<char>>) -> Seq<Seq<char>> {
    ls.map_values(|l: Seq<char>| l + nl())
}

/// The pieces `add_pdb` hands back are exactly the record's file lines,
/// each with one newline appended — provided no payload line carries a
/// newline of its own, so that appending the pieces to a file adds exactly
/// these lines to it.
pub proof fn lemma_pieces_are_record_lines(
    tag: Seq<char>,
    score: Option<Seq<char>>,
    payload: Seq<Seq<char>>,
)
    requires
        forall|i: int, j: int|
            0 <= i < payload.len() && 0 <= j < payload[i].len() ==> #[trigger] payload[i][j]
                != '\n',
    ensures
        crate::archive::appended_pieces(tag, score, payload) == with_newlines(
            record_lines(tag, score, payload),
        ),
{
    let lhs = crate::archive::appended_pieces(tag, score, payload);
    let rhs = with_newlines(record_lines(tag, score, payload));
    let head_len: int = match score {
        Some(_) => 2,
        None => 1,
    };
    assert(lhs.len() == rhs.len());
    assert forall|k: int| 0 <= k < lhs.len() implies lhs[k] == rhs[k] by {
        if k >= head_len {
            let l = payload[k - head_len];
            assert(crate::archive::terminate_all(payload)[k - head_len]
                == crate::archive::terminated(l));
            assert(record_lines(tag, score, payload)[k] == l);
            if l.len() > 0 {
                assert(l[l.len() - 1] != '\n');
            }
            assert(crate::archive::terminated(l) == l + nl());
        }
    }
    assert(lhs =~= rhs);
}

/// The index of an archive, seen from its first line.
pub proof fn lemma_tags_of_first(lines: Seq<Seq<char>>)
    requires
        lines.len() > 0,
    ensures
        tags_of(lines) == (if is_tag_line(lines[0]) && has_line_tag(lines[0]) {
            seq![line_tag(lines[0])]
        } else {
            Seq::<Seq<char>>::empty()
        }) + tags_of(lines.drop_first()),
    decreases lines.len(),
{
    let head = if is_tag_line(lines[0]) && has_line_tag(lines[0]) {
        seq![line_tag(lines[0])]
    } else {
        Seq::<Seq<char>>::empty()
    };
    if lines.len() == 1 {
        assert(lines.drop_last() =~= Seq::<Seq<char>>::empty());
        assert(lines.drop_first() =~= Seq::<Seq<char>>::empty());
        assert(lines.last() == lines[0]);
        assert(head + Seq::<Seq<char>>::empty() =~= head);
        assert(Seq::<Seq<char>>::empty() + head =~= head);
    } else {
        lemma_tags_of_first(lines.drop_last());
        assert(lines.drop_last()[0] == lines[0]);
        let tail_contrib = if is_tag_line(lines.last()) && has_line_tag(lines.last()) {
            seq![line_tag(lines.last())]
        } else {
            Seq::<Seq<char>>::empty()
        };
        assert(lines.drop_last().drop_first() =~= lines.drop_first().drop_last());
        assert(lines.drop_first().last() == lines.last());
        assert(lines.drop_first().len() > 0);
        assert(tags_of(lines.drop_first()) == tags_of(lines.drop_first().drop_last())
            + tail_contrib);
        assert((head + tags_of(lines.drop_first().drop_last())) + tail_contrib =~= head + (tags_of(
            lines.drop_first().drop_last(),
        ) + tail_contrib));
    }
}

/// The tag index of two archives in sequence: the first's tags, then the
/// second's.
pub proof fn lemma_tags_of_concat(a: Seq<Seq<char>>, b: Seq<Seq<char>>)
    ensures
        tags_of(a + b) == tags_of(a) + tags_of(b),
    decreases b.len(),
{
    if b.len() == 0 {
        assert(a + b =~= a);
        assert(tags_of(a) + tags_of(b) =~= tags_of(a));
    } else {
        assert((a + b).drop_last() =~= a + b.drop_last());
        assert((a + b).last() == b.last());
        lemma_tags_of_concat(a, b.drop_last());
        let added = if is_tag_line(b.last()) && has_line_tag(b.last()) {
            seq![line_tag(b.last())]
        } else {
            Seq::<Seq<char>>::empty()
        };
        assert((tags_of(a) + tags_of(b.drop_last())) + added =~= tags_of(a) + (tags_of(
            b.drop_last(),
        ) + added));
    }
}

/// Lines without a tag declaration contribute nothing to the index.
pub proof fn lemma_tags_of_no_declarations(lines: Seq<Seq<char>>)
    requires
        forall|i: int| 0 <= i < lines.len() ==> !is_tag_line(#[trigger] lines[i]),
    ensures
        tags_of(lines) == Seq::<Seq<char>>::empty(),
    decreases lines.len(),
{
    if lines.len() > 0 {
        lemma_tags_of_no_declarations(lines.drop_last());
        assert(tags_of(lines) =~= Seq::<Seq<char>>::empty());
    }
}

/// Appending one record extends the archive's tag index by exactly that
/// record's tag: the in-memory index a writer keeps stays authoritative for
/// the file.
pub proof fn lemma_tags_after_append(
    file: Seq<Seq<char>>,
    tag: Seq<char>,
    score: Option<Seq<char>>,
    payload: Seq<Seq<char>>,
)
    requires
        valid_tag(tag),
        forall|i: int| 0 <= i < payload.len() ==> !is_tag_line(#[trigger] payload[i]),
    ensures
        tags_of(file + record_lines(tag, score, payload)) == tags_of(file).push(tag),
{
    let rec = record_lines(tag, score, payload);
    lemma_tags_of_concat(file, rec);
    lemma_tag_line_roundtrip(tag);
    lemma_tags_of_first(rec);
    let rest = rec.drop_first();
    assert(forall|i: int| 0 <= i < rest.len() ==> !is_tag_line(#[trigger] rest[i])) by {
        match score {
            Some(s) => {
                lemma_score_line_roundtrip(tag, s);
                assert(rest =~= seq![score_line_for(tag, s)] + payload);
                assert forall|i: int| 0 <= i < rest.len() implies !is_tag_line(
                    #[trigger] rest[i],
                ) by {
                    if i > 0 {
                        assert(rest[i] == payload[i - 1]);
                    }
                }
            },
            None => {
                assert(rest =~= payload);
            },
        }
    }
    lemma_tags_of_no_declarations(rest);
    assert(tags_of(rec) =~= seq![tag]);
    assert(tags_of(file) + seq![tag] =~= tags_of(file).push(tag));
}

/// A scan that has not yet found `tag` passes unchanged over lines whose
/// index does not hold `tag`.
pub proof fn lemma_read_skip_prefix(file: Seq<Seq<char>>, tail: Seq<Seq<char>>, tag: Seq<char>)
    requires
        !tags_of(file).contains(tag),
    ensures
        read_payload(file + tail, tag, false) == read_payload(tail, tag, false),
    decreases file.len(),
{
    if file.len() == 0 {
        assert(file + tail =~= tail);
    } else {
        let whole = file + tail;
        assert(whole[0] == file[0]);
        assert(whole.drop_first() =~= file.drop_first() + tail);
        lemma_tags_of_first(file);
        assert(!tags_of(file.drop_first()).contains(tag)) by {
            let head = if is_tag_line(file[0]) && has_line_tag(file[0]) {
                seq![line_tag(file[0])]
            } else {
                Seq::<Seq<char>>::empty()
            };
            if tags_of(file.drop_first()).contains(tag) {
                let j = choose|j: int|
                    0 <= j < tags_of(file.drop_first()).len() && tags_of(file.drop_first())[j]
                        == tag;
                assert(tags_of(file)[j + head.len()] == tag);
            }
        }
        if is_tag_line(file[0]) && has_line_tag(file[0]) {
            assert(line_tag(file[0]) != tag) by {
                if line_tag(file[0]) == tag {
                    assert(tags_of(file)[0] == tag) by {
                        lemma_tags_of_first(file);
                    }
                }
            }
        }
        lemma_read_skip_prefix(file.drop_first(), tail, tag);
    }
}

/// A scan that has found its record collects every remaining payload line,
/// newline-terminated, when no tag or score declarations remain.
pub proof fn lemma_read_payload_tail(payload: Seq<Seq<char>>, tag: Seq<char>)
    requires
        forall|i: int|
            0 <= i < payload.len() ==> !is_tag_line(#[trigger] payload[i]) && !is_score_line(
                payload[i],
            ),
    ensures
        read_payload(payload, tag, true) == (true, with_newlines(payload)),
    decreases payload.len(),
{
    if payload.len() == 0 {
        assert(with_newlines(payload) =~= Seq::<Seq<char>>::empty());
    } else {
        lemma_read_payload_tail(payload.drop_first(), tag);
        assert(seq![payload[0] + nl()] + with_newlines(payload.drop_first()) =~= with_newlines(
            payload,
        ));
    }
}

/// Reading a tag straight after appending its record returns exactly the
/// appended payload, line for line, each line newline-terminated.
///
/// This holds for any archive whose index does not yet hold `tag`, and any
/// payload whose lines are not themselves tag or score declarations.
pub proof fn lemma_read_after_append(
    file: Seq<Seq<char>>,
    tag: Seq<char>,
    score: Option<Seq<char>>,
    payload: Seq<Seq<char>>,
)
    requires
        valid_tag(tag),
        !tags_of(file).contains(tag),
        forall|i: int|
            0 <= i < payload.len() ==> !is_tag_line(#[trigger] payload[i]) && !is_score_line(
                payload[i],
            ),
    ensures
        read_payload(file + record_lines(tag, score, payload), tag, false) == (
            true,
            with_newlines(payload),
        ),
{
    let rec = record_lines(tag, score, payload);
    lemma_read_skip_prefix(file, rec, tag);
    lemma_tag_line_roundtrip(tag);
    assert(rec[0] == tag_line_for(tag));
    match score {
        Some(s) => {
            lemma_score_line_roundtrip(tag, s);
            assert(rec.drop_first() =~= seq![score_line_for(tag, s)] + payload);
            assert(rec.drop_first()[0] == score_line_for(tag, s));
            assert(rec.drop_first().drop_first() =~= payload);
            lemma_read_payload_tail(payload, tag);
            assert(read_payload(rec, tag, false) == read_payload(rec.drop_first(), tag, true));
        },
        None => {
            assert(rec.drop_first() =~= payload);
            lemma_read_payload_tail(payload, tag);
        },
    }
}

} // verus!
