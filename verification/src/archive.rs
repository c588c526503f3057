//! The archive handle: a file name, a fixed open mode, and the in-memory tag
//! index, plus the record writer.
//!
//! The handle never touches the file itself.  The caller reads the file into
//! lines (an absent file reads as no lines) and hands them to `new`;
//! `add_pdb` returns the newline-terminated text pieces the caller must
//! append to the file.

use crate::grammar::{line_tag_of, make_score_line, make_tag_line, nl, score_line_for, tag_line_for,
    tag_line_check, tags_of, lemma_tags_of_take_step};
use crate::text::str_eq;
use crate::QuiverError;
use vstd::prelude::*;

verus! {

/// The mode an archive was opened in; fixed for the handle's lifetime.
#[derive(Debug, Clone, Copy, PartialEq, Eq, Structural)]
pub enum Mode {
    Read,
    Write,
}

/// The mode string that opens an archive for reading.
pub open spec fn read_mode_chars() -> Seq<char> {
    seq!['r']
}

/// The mode string that opens an archive for writing.
pub open spec fn write_mode_chars() -> Seq<char> {
    seq!['w']
}

/// A line as it is written to the file: newline-terminated, unless it
/// already ends with a newline of its own.
pub open spec fn terminated(l: Seq<char>) -> Seq<char> {
    if l.len() > 0 && l.last() == '\n' {
        l
    } else {
        l + nl()
    }
}

/// The view of an optional score string.
pub open spec fn opt_view(o: Option<&str>) -> Option<Seq<char>> {
    match o {
        Some(s) => Some(s@),
        None => None,
    }
}

/// Every payload line, newline-terminated.
pub open spec fn terminate_all(ls: Seq<Seq<char>>) -> Seq<Seq<char>> {
    ls.map_values(|l: Seq<char>| terminated(l))
}

/// The text pieces `add_pdb` appends for one record: the tag-declaration
/// line, the score-declaration line if a score was given, and every payload
/// line, each piece newline-terminated.
pub open spec fn appended_pieces(
    tag: Seq<char>,
    score: Option<Seq<char>>,
    payload: Seq<Seq<char>>,
) -> Seq<Seq<char>> {
    seq![tag_line_for(tag) + nl()] + (match score {
        Some(s) => seq![score_line_for(tag, s) + nl()],
        None => Seq::<Seq<char>>::empty(),
    }) + terminate_all(payload)
}

/// An open archive: its file name, its mode, and its tag index in insertion
/// (equivalently, file) order.
pub struct QuiverCore {
    pub fnm: String,
    pub mode: Mode,
    pub tags: Vec<String>,
}

impl QuiverCore {
    /// The archive invariant: no tag occurs twice.
    pub open spec fn distinct_tags(self) -> bool {
        forall|i: int, j: int|
            0 <= i < j < self.tags.deep_view().len() ==> self.tags.deep_view()[i]
                != self.tags.deep_view()[j]
    }

    /// Opens an archive over the given file lines.
    ///
    /// The mode must be exactly `"r"` or `"w"`; anything else is
    /// `InvalidMode`.  The tag index is the file's tag-declaration tokens in
    /// file order; a caller whose file does not exist passes no lines and
    /// gets an empty index.
    pub fn new(filename: String, mode: String, file_lines: &Vec<String>) -> (r: Result<
        QuiverCore,
        QuiverError,
    >)
        ensures
            r is Ok <==> (mode@ == read_mode_chars() || mode@ == write_mode_chars()),
            r is Err ==> r == Err::<QuiverCore, QuiverError>(QuiverError::InvalidMode),
            r is Ok ==> {
                &&& (r->Ok_0.mode == Mode::Read <==> mode@ == read_mode_chars())
                &&& (r->Ok_0.mode == Mode::Write <==> mode@ == write_mode_chars())
                &&& r->Ok_0.fnm@ == filename@
                &&& r->Ok_0.tags.deep_view() == tags_of(file_lines.deep_view())
            },
    {
        proof {
            reveal_strlit("r");
            reveal_strlit("w");
            assert("r"@ =~= read_mode_chars());
            assert("w"@ =~= write_mode_chars());
        }
        let is_read = str_eq(mode.as_str(), "r");
        let is_write = str_eq(mode.as_str(), "w");
        if !is_read && !is_write {
            return Err(QuiverError::InvalidMode);
        }
        let tags = Self::read_tags(file_lines);
        let m: Mode = if is_read {
            Mode::Read
        } else {
            Mode::Write
        };
        proof {
            assert(read_mode_chars()[0] == 'r');
            assert(write_mode_chars()[0] == 'w');
            assert(read_mode_chars() != write_mode_chars());
        }
        Ok(QuiverCore { fnm: filename, mode: m, tags })
    }

    /// Scans the file lines once and collects every declared tag, in order.
    pub fn read_tags(lines: &Vec<String>) -> (r: Vec<String>)
        ensures
            r.deep_view() == tags_of(lines.deep_view()),
    {
        let ghost all = lines.deep_view();
        let mut tags: Vec<String> = Vec::new();
        proof {
            assert(all.take(0) =~= Seq::<Seq<char>>::empty());
        }
        for i in 0..lines.len()
            invariant
                all == lines.deep_view(),
                tags.deep_view() == tags_of(all.take(i as int)),
        {
            proof {
                lemma_tags_of_take_step(all, i as int);
            }
            if tag_line_check(lines[i].as_str()) {
                if let Some(tag) = line_tag_of(lines[i].as_str()) {
                    tags.push(tag);
                    proof {
                        assert(tags.deep_view() =~= tags_of(all.take(i as int)) + seq![
                            crate::grammar::line_tag(all[i as int]),
                        ]);
                    }
                }
            }
        }
        proof {
            assert(all.take(lines.deep_view().len() as int) =~= all);
        }
        tags
    }

    /// A copy of the tag index, in insertion order.
    pub fn get_tags(&self) -> (r: Vec<String>)
        ensures
            r.deep_view() == self.tags.deep_view(),
    {
        let mut out: Vec<String> = Vec::new();
        for i in 0..self.tags.len()
            invariant
                out@.len() == i,
                out.deep_view() == self.tags.deep_view().take(i as int),
        {
            out.push(self.tags[i].clone());
            proof {
                assert(out.deep_view() =~= self.tags.deep_view().take(i as int + 1));
            }
        }
        proof {
            assert(self.tags.deep_view().take(self.tags@.len() as int) =~= self.tags.deep_view());
        }
        out
    }

    /// The number of records in the archive.
    pub fn size(&self) -> (r: usize)
        ensures
            r == self.tags@.len(),
    {
        self.tags.len()
    }

    /// Whether the index already holds `tag`.
    fn holds_tag(&self, tag: &str) -> (b: bool)
        ensures
            b == self.tags.deep_view().contains(tag@),
    {
        let mut i: usize = 0;
        while i < self.tags.len()
            invariant
                i <= self.tags@.len(),
                forall|j: int| 0 <= j < i ==> self.tags.deep_view()[j] != tag@,
            decreases self.tags@.len() - i,
        {
            if str_eq(self.tags[i].as_str(), tag) {
                proof {
                    assert(self.tags.deep_view()[i as int] == tag@);
                }
                return true;
            }
            i = i + 1;
        }
        proof {
            if self.tags.deep_view().contains(tag@) {
                let j = choose|j: int|
                    0 <= j < self.tags.deep_view().len() && self.tags.deep_view()[j] == tag@;
                assert(self.tags.deep_view()[j] != tag@);
            }
        }
        false
    }

    /// Appends one record.
    ///
    /// Requires write mode (`WriteModeRequired`) and a tag not yet in the
    /// index (`DuplicateTag`); on failure nothing changes and nothing is to
    /// be written.  On success the returned pieces — tag-declaration line,
    /// score-declaration line if a score was given, then every payload line,
    /// each newline-terminated — are what the caller appends to the file,
    /// and the tag joins the end of the index.
    pub fn add_pdb(&mut self, pdb_lines: &Vec<String>, tag: &str, score_str: Option<&str>) -> (r:
        Result<Vec<String>, QuiverError>)
        ensures
            old(self).mode != Mode::Write ==> r == Err::<Vec<String>, QuiverError>(
                QuiverError::WriteModeRequired,
            ) && *final(self) == *old(self),
            old(self).mode == Mode::Write && old(self).tags.deep_view().contains(tag@) ==> r
                == Err::<Vec<String>, QuiverError>(QuiverError::DuplicateTag) && *final(self)
                == *old(self),
            old(self).mode == Mode::Write && !old(self).tags.deep_view().contains(tag@) ==> {
                &&& r is Ok
                &&& r->Ok_0.deep_view() == appended_pieces(
                    tag@,
                    opt_view(score_str),
                    pdb_lines.deep_view(),
                )
                &&& final(self).tags.deep_view() == old(self).tags.deep_view().push(tag@)
                &&& final(self).mode == old(self).mode
                &&& final(self).fnm == old(self).fnm
            },
            old(self).distinct_tags() && r is Ok ==> final(self).distinct_tags(),
    {
        proof {
            reveal_strlit("\n");
            assert("\n"@ =~= nl());
        }
        if !matches!(self.mode, Mode::Write) {
            return Err(QuiverError::WriteModeRequired);
        }
        if self.holds_tag(tag) {
            return Err(QuiverError::DuplicateTag);
        }
        let mut pieces: Vec<String> = Vec::new();
        let mut first = make_tag_line(tag);
        first.append("\n");
        pieces.push(first);
        if let Some(score) = score_str {
            let mut second = make_score_line(tag, score);
            second.append("\n");
            pieces.push(second);
        }
        let ghost head = pieces.deep_view();
        let ghost pv = pdb_lines.deep_view();
        proof {
            assert(head =~= seq![tag_line_for(tag@) + nl()] + (match opt_view(score_str) {
                Some(s) => seq![score_line_for(tag@, s) + nl()],
                None => Seq::<Seq<char>>::empty(),
            }));
            assert(pieces.deep_view() =~= head + terminate_all(pv.take(0)));
        }
        for i in 0..pdb_lines.len()
            invariant
                pv == pdb_lines.deep_view(),
                pieces@.len() == head.len() + i,
                head == seq![tag_line_for(tag@) + nl()] + (match opt_view(score_str) {
                    Some(s) => seq![score_line_for(tag@, s) + nl()],
                    None => Seq::<Seq<char>>::empty(),
                }),
                pieces.deep_view() == head + terminate_all(pv.take(i as int)),
        {
            let line = &pdb_lines[i];
            proof {
                reveal_strlit("\n");
                assert("\n"@ =~= nl());
                assert(pv[i as int] == pdb_lines@[i as int]@);
            }
            let llen = line.as_str().unicode_len();
            let mut piece = line.clone();
            if !(llen > 0 && line.as_str().get_char(llen - 1) == '\n') {
                piece.append("\n");
                proof {
                    assert(piece@ == terminated(pv[i as int]));
                }
            } else {
                proof {
                    assert(pv[i as int].last() == '\n');
                    assert(piece@ == terminated(pv[i as int]));
                }
            }
            pieces.push(piece);
            proof {
                let lhs = pieces.deep_view();
                let rhs = head + terminate_all(pv.take(i as int + 1));
                assert(lhs.len() == head.len() + i + 1);
                assert(rhs.len() == head.len() + i + 1);
                assert forall|k: int| 0 <= k < lhs.len() implies lhs[k] == rhs[k] by {
                    if k < head.len() + i {
                        assert(lhs[k] == (head + terminate_all(pv.take(i as int)))[k]);
                        if k >= head.len() {
                            assert(terminate_all(pv.take(i as int))[k - head.len()]
                                == terminated(pv.take(i as int)[k - head.len()]));
                            assert(terminate_all(pv.take(i as int + 1))[k - head.len()]
                                == terminated(pv.take(i as int + 1)[k - head.len()]));
                        }
                    } else {
                        assert(lhs[k] == piece@);
                        assert(rhs[k] == terminated(pv.take(i as int + 1)[i as int]));
                    }
                }
                assert(lhs =~= rhs);
            }
        }
        self.tags.push(String::from_str(tag));
        proof {
            assert(pv.take(pv.len() as int) =~= pv);
            assert(pieces.deep_view() =~= appended_pieces(tag@, opt_view(score_str), pv));
            assert(self.tags.deep_view() =~= old(self).tags.deep_view().push(tag@));
            if old(self).distinct_tags() {
                let new_deep = self.tags.deep_view();
                let old_deep = old(self).tags.deep_view();
                assert forall|i: int, j: int| 0 <= i < j < new_deep.len() implies new_deep[i]
                    != new_deep[j] by {
                    if j == new_deep.len() - 1 {
                        assert(old_deep[i] != tag@) by {
                            if old_deep[i] == tag@ {
                                assert(old_deep.contains(tag@));
                            }
                        }
                    }
                }
            }
        }
        Ok(pieces)
    }
}

} // verus!
