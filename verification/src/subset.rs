//! The subset extractor: one forward scan reproducing, verbatim, the full
//! records of a requested set of tags.

use crate::archive::{Mode, QuiverCore};
use crate::grammar::{
    has_line_tag, is_tag_line, line_tag, line_tag_of, nl, tag_line_check, tags_of,
};
use crate::text::vec_contains_str;
use crate::QuiverError;
use vstd::prelude::*;

verus! {

/// One step of the extractor's scan, from the front of the remaining lines.
///
/// `active` says whether the record being passed over was requested.  Each
/// tag-declaration line re-decides it: the declared tag (or the empty string
/// when the line names none) must be among the requested tags, and is then
/// recorded as found.  While active, every line — declaration, score and
/// payload alike — goes to the text verbatim, newline-terminated.
pub open spec fn subset_scan(lines: Seq<Seq<char>>, req: Seq<Seq<char>>, active: bool) -> (
    Seq<char>,
    Seq<Seq<char>>,
)
    decreases lines.len(),
{
    if lines.len() == 0 {
        (Seq::empty(), Seq::empty())
    } else {
        let l = lines[0];
        let cur = if has_line_tag(l) {
            line_tag(l)
        } else {
            Seq::empty()
        };
        let act2 = if is_tag_line(l) {
            req.contains(cur)
        } else {
            active
        };
        let found_head = if is_tag_line(l) && req.contains(cur) {
            seq![cur]
        } else {
            Seq::<Seq<char>>::empty()
        };
        let rest = subset_scan(lines.drop_first(), req, act2);
        (
            if act2 {
                l + nl() + rest.0
            } else {
                rest.0
            },
            found_head + rest.1,
        )
    }
}

impl QuiverCore {
    /// Extracts the full records of every requested tag, in file order.
    ///
    /// Requires read mode (`ReadModeRequired`).  Returns the records'
    /// verbatim text and the requested tags actually found, in file order;
    /// a requested tag that is absent is not an error — the caller compares
    /// the found list against the request.
    pub fn get_struct_list(&self, tag_list: &Vec<String>, file_lines: &Vec<String>) -> (r: Result<
        (String, Vec<String>),
        QuiverError,
    >)
        ensures
            self.mode != Mode::Read ==> r == Err::<(String, Vec<String>), QuiverError>(
                QuiverError::ReadModeRequired,
            ),
            self.mode == Mode::Read ==> {
                &&& r is Ok
                &&& r->Ok_0.0@ == subset_scan(
                    file_lines.deep_view(),
                    tag_list.deep_view(),
                    false,
                ).0
                &&& r->Ok_0.1.deep_view() == subset_scan(
                    file_lines.deep_view(),
                    tag_list.deep_view(),
                    false,
                ).1
            },
    {
        if !matches!(self.mode, Mode::Read) {
            return Err(QuiverError::ReadModeRequired);
        }
        let ghost all = file_lines.deep_view();
        let ghost req = tag_list.deep_view();
        let mut text = String::new();
        let mut found: Vec<String> = Vec::new();
        let mut active = false;
        proof {
            assert(all.skip(0) =~= all);
            assert(text@ + subset_scan(all, req, false).0 =~= subset_scan(all, req, false).0);
            assert(found.deep_view() + subset_scan(all, req, false).1 =~= subset_scan(
                all,
                req,
                false,
            ).1);
        }
        let n = file_lines.len();
        let mut i: usize = 0;
        while i < n
            invariant
                n == all.len(),
                all == file_lines.deep_view(),
                req == tag_list.deep_view(),
                i <= n,
                subset_scan(all, req, false).0 == text@ + subset_scan(
                    all.skip(i as int),
                    req,
                    active,
                ).0,
                subset_scan(all, req, false).1 == found.deep_view() + subset_scan(
                    all.skip(i as int),
                    req,
                    active,
                ).1,
            decreases n - i,
        {
            proof {
                reveal_strlit("\n");
                assert("\n"@ =~= nl());
                assert(all.skip(i as int)[0] == all[i as int]);
                assert(all.skip(i as int).drop_first() =~= all.skip(i as int + 1));
                assert(all[i as int] == file_lines@[i as int]@);
            }
            let line = &file_lines[i];
            if tag_line_check(line.as_str()) {
                let cur = match line_tag_of(line.as_str()) {
                    Some(t) => t,
                    None => String::new(),
                };
                active = vec_contains_str(tag_list, cur.as_str());
                if active {
                    let ghost found0 = found.deep_view();
                    found.push(cur);
                    proof {
                        assert(found.deep_view() =~= found0 + seq![
                            if has_line_tag(all[i as int]) {
                                line_tag(all[i as int])
                            } else {
                                Seq::<char>::empty()
                            },
                        ]);
                        assert(found0 + (seq![
                            if has_line_tag(all[i as int]) {
                                line_tag(all[i as int])
                            } else {
                                Seq::<char>::empty()
                            },
                        ] + subset_scan(all.skip(i as int + 1), req, true).1) =~= found.deep_view()
                            + subset_scan(all.skip(i as int + 1), req, true).1);
                    }
                }
            }
            if active {
                let ghost text0 = text@;
                text.append(line.as_str());
                text.append("\n");
                proof {
                    assert(text@ =~= text0 + (all[i as int] + nl()));
                    assert(text0 + ((all[i as int] + nl()) + subset_scan(
                        all.skip(i as int + 1),
                        req,
                        active,
                    ).0) =~= text@ + subset_scan(all.skip(i as int + 1), req, active).0);
                    assert(all[i as int] + nl() + subset_scan(all.skip(i as int + 1), req, active).0
                        =~= (all[i as int] + nl()) + subset_scan(
                        all.skip(i as int + 1),
                        req,
                        active,
                    ).0);
                }
            }
            i = i + 1;
        }
        proof {
            assert(all.skip(n as int) =~= Seq::<Seq<char>>::empty());
            assert(text@ + Seq::<char>::empty() =~= text@);
            assert(found.deep_view() + Seq::<Seq<char>>::empty() =~= found.deep_view());
        }
        Ok((text, found))
    }
}

/// The predicate a found tag satisfies: it was requested.
pub open spec fn found_tags_spec(lines: Seq<Seq<char>>, req: Seq<Seq<char>>) -> Seq<Seq<char>> {
    tags_of(lines).filter(|t: Seq<char>| req.contains(t))
}

/// The found-tag list is exactly the archive's tag index restricted to the
/// requested tags — so it keeps file order, not request order.
///
/// The empty string must not be requested: a corrupt tag-declaration line
/// without a tag token matches the empty request string but contributes no
/// index entry.
pub proof fn lemma_subset_found(lines: Seq<Seq<char>>, req: Seq<Seq<char>>, active: bool)
    requires
        !req.contains(Seq::<char>::empty()),
    ensures
        subset_scan(lines, req, active).1 == found_tags_spec(lines, req),
    decreases lines.len(),
{
    let p = |t: Seq<char>| req.contains(t);
    if lines.len() == 0 {
        reveal(Seq::filter);
        assert(tags_of(lines).filter(p) =~= Seq::<Seq<char>>::empty());
        assert(subset_scan(lines, req, active).1 =~= Seq::<Seq<char>>::empty());
    } else {
        let l = lines[0];
        let cur = if has_line_tag(l) {
            line_tag(l)
        } else {
            Seq::empty()
        };
        let act2 = if is_tag_line(l) {
            req.contains(cur)
        } else {
            active
        };
        lemma_subset_found(lines.drop_first(), req, act2);
        crate::reader::lemma_tags_of_first(lines);
        let tail_tags = tags_of(lines.drop_first());
        if is_tag_line(l) && has_line_tag(l) {
            assert(tags_of(lines) == seq![cur] + tail_tags);
            Seq::lemma_filter_prepend(tail_tags, cur, p);
            if req.contains(cur) {
                assert(subset_scan(lines, req, active).1 =~= seq![cur] + tail_tags.filter(p));
            } else {
                assert(subset_scan(lines, req, active).1 =~= Seq::<Seq<char>>::empty()
                    + tail_tags.filter(p));
                assert(Seq::<Seq<char>>::empty() + tail_tags.filter(p) =~= tail_tags.filter(p));
            }
        } else {
            assert(!(is_tag_line(l) && req.contains(cur))) by {
                if is_tag_line(l) && !has_line_tag(l) {
                    assert(cur == Seq::<char>::empty());
                }
            }
            assert(tags_of(lines) == Seq::<Seq<char>>::empty() + tail_tags);
            assert(Seq::<Seq<char>>::empty() + tail_tags =~= tail_tags);
            assert(subset_scan(lines, req, active).1 =~= tail_tags.filter(p));
        }
    }
}

/// Every found tag stands in the archive's index and was requested, and a
/// requested tag is found exactly when the archive holds it: the request
/// minus the found list is exactly the requested tags absent from the
/// archive.
pub proof fn lemma_subset_found_complete(lines: Seq<Seq<char>>, req: Seq<Seq<char>>)
    requires
        !req.contains(Seq::<char>::empty()),
    ensures
        forall|t: Seq<char>|
            subset_scan(lines, req, false).1.contains(t) ==> tags_of(lines).contains(t)
                && req.contains(t),
        forall|t: Seq<char>|
            req.contains(t) ==> (subset_scan(lines, req, false).1.contains(t) <==> tags_of(
                lines,
            ).contains(t)),
{
    broadcast use vstd::seq_lib::group_filter_ensures;

    let p = |t: Seq<char>| req.contains(t);
    lemma_subset_found(lines, req, false);
    assert forall|t: Seq<char>| subset_scan(lines, req, false).1.contains(t) implies tags_of(
        lines,
    ).contains(t) && req.contains(t) by {
        let j = choose|j: int|
            0 <= j < tags_of(lines).filter(p).len() && tags_of(lines).filter(p)[j] == t;
        assert(p(tags_of(lines).filter(p)[j]));
        tags_of(lines).lemma_filter_contains_rev(p, t);
    }
    assert forall|t: Seq<char>| req.contains(t) && tags_of(lines).contains(t) implies subset_scan(
        lines,
        req,
        false,
    ).1.contains(t) by {
        let j = choose|j: int| 0 <= j < tags_of(lines).len() && tags_of(lines)[j] == t;
        assert(p(tags_of(lines)[j]));
    }
}

} // verus!
