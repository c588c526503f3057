//! The tag renamer: rewrites a whole archive, substituting every tag token
//! (and its paired score-line token) positionally, payload untouched.

use crate::archive::QuiverCore;
use crate::grammar::{
    has_line_tag, is_score_line, is_tag_line, lemma_score_line_roundtrip, lemma_tag_line_roundtrip,
    line_tag, line_tag_of, make_score_line, make_tag_line, score_line_check, score_line_for,
    tag_line_check, tag_line_for, tags_of, valid_tag,
};
use crate::text::{has_token, nth_token, token_at};
use crate::QuiverError;
use vstd::prelude::*;

verus! {

/// The renamer's pass over the remaining lines, with `idx` replacement
/// names already used.
///
/// A tag-declaration line becomes `QV_TAG <next name>`; the line after it —
/// never itself a tag declaration, or the file is corrupt
/// (`ConsecutiveTagLines`) — is rewritten too when it is a score
/// declaration with an entries token, keeping that token; any other line is
/// copied.  A tag-declaration line without a tag token is corrupt
/// (`MalformedTagLine`), as is one beyond the replacement names — which
/// cannot happen when the names were counted against the index first.
pub open spec fn rename_scan(
    lines: Seq<Seq<char>>,
    new_tags: Seq<Seq<char>>,
    idx: nat,
) -> Result<Seq<Seq<char>>, QuiverError>
    decreases lines.len(),
{
    if lines.len() == 0 {
        Ok(Seq::empty())
    } else {
        let l = lines[0];
        if is_tag_line(l) {
            if !has_line_tag(l) {
                Err(QuiverError::MalformedTagLine)
            } else if idx >= new_tags.len() {
                Err(QuiverError::MalformedTagLine)
            } else {
                let out0 = tag_line_for(new_tags[idx as int]);
                if lines.len() == 1 {
                    Ok(seq![out0])
                } else {
                    let nxt = lines[1];
                    if is_tag_line(nxt) {
                        Err(QuiverError::ConsecutiveTagLines)
                    } else {
                        let out1 = if is_score_line(nxt) && has_token(nxt, 2) {
                            score_line_for(new_tags[idx as int], nth_token(nxt, 2))
                        } else {
                            nxt
                        };
                        match rename_scan(lines.skip(2), new_tags, idx + 1) {
                            Ok(rest) => Ok(seq![out0, out1] + rest),
                            Err(e) => Err(e),
                        }
                    }
                }
            }
        } else {
            match rename_scan(lines.drop_first(), new_tags, idx) {
                Ok(rest) => Ok(seq![l] + rest),
                Err(e) => Err(e),
            }
        }
    }
}

/// Lines already produced, in front of the rest of a scan.
pub open spec fn rename_compose(
    acc: Seq<Seq<char>>,
    r: Result<Seq<Seq<char>>, QuiverError>,
) -> Result<Seq<Seq<char>>, QuiverError> {
    match r {
        Ok(rest) => Ok(acc + rest),
        Err(e) => Err(e),
    }
}

/// Rewrites a whole archive, replacing the tag of each record — and of its
/// score line, if any — with the replacement of the same position.
///
/// A replacement list whose length differs from the archive's tag count is
/// refused (`TagCountMismatch`) with nothing produced, so the caller leaves
/// the file untouched.  Corruption (two tag-declaration lines in a row, or
/// one without a tag token) aborts the pass the same way.
pub fn rename_tags(lines: &Vec<String>, new_tags: &Vec<String>) -> (r: Result<
    Vec<String>,
    QuiverError,
>)
    ensures
        tags_of(lines.deep_view()).len() != new_tags.deep_view().len() ==> r == Err::<
            Vec<String>,
            QuiverError,
        >(
            (QuiverError::TagCountMismatch {
                in_file: tags_of(lines.deep_view()).len() as usize,
                provided: new_tags.deep_view().len() as usize,
            }),
        ),
        tags_of(lines.deep_view()).len() == new_tags.deep_view().len() ==> {
            &&& r is Ok <==> rename_scan(lines.deep_view(), new_tags.deep_view(), 0) is Ok
            &&& r is Ok ==> r->Ok_0.deep_view() == rename_scan(
                lines.deep_view(),
                new_tags.deep_view(),
                0,
            )->Ok_0
            &&& r is Err ==> Err::<Seq<Seq<char>>, QuiverError>(r->Err_0) == rename_scan(
                lines.deep_view(),
                new_tags.deep_view(),
                0,
            )
        },
{
    let ghost lv = lines.deep_view();
    let ghost ntv = new_tags.deep_view();
    let present = QuiverCore::read_tags(lines);
    if present.len() != new_tags.len() {
        return Err(QuiverError::TagCountMismatch {
            in_file: present.len(),
            provided: new_tags.len(),
        });
    }
    proof {
        assert(tags_of(lv).len() == new_tags@.len());
    }
    let n = lines.len();
    let mut out: Vec<String> = Vec::new();
    let mut i: usize = 0;
    let mut idx: usize = 0;
    proof {
        assert(lv.skip(0) =~= lv);
        assert(rename_compose(out.deep_view(), rename_scan(lv, ntv, 0)) == rename_scan(
            lv,
            ntv,
            0,
        )) by {
            if rename_scan(lv, ntv, 0) is Ok {
                assert(out.deep_view() + rename_scan(lv, ntv, 0)->Ok_0 =~= rename_scan(
                    lv,
                    ntv,
                    0,
                )->Ok_0);
            }
        }
    }
    while i < n
        invariant
            n == lv.len(),
            lv == lines.deep_view(),
            ntv == new_tags.deep_view(),
            i <= n,
            idx <= new_tags@.len(),
            tags_of(lv).len() == ntv.len(),
            rename_scan(lv, ntv, 0) == rename_compose(
                out.deep_view(),
                rename_scan(lv.skip(i as int), ntv, idx as nat),
            ),
        decreases n - i,
    {
        proof {
            assert(lv.skip(i as int)[0] == lv[i as int]);
            assert(lv[i as int] == lines@[i as int]@);
        }
        let line = &lines[i];
        if tag_line_check(line.as_str()) {
            let new_name = match line_tag_of(line.as_str()) {
                Some(_) => {
                    if idx < new_tags.len() {
                        &new_tags[idx]
                    } else {
                        return Err(QuiverError::MalformedTagLine);
                    }
                },
                None => {
                    return Err(QuiverError::MalformedTagLine);
                },
            };
            let out0 = make_tag_line(new_name.as_str());
            proof {
                assert(ntv[idx as int] == new_tags@[idx as int]@);
            }
            if i + 1 == n {
                let ghost acc0 = out.deep_view();
                let ghost o0 = out0@;
                out.push(out0);
                proof {
                    assert(lv.skip(i as int).len() == 1);
                    assert(o0 == tag_line_for(ntv[idx as int]));
                    assert(rename_scan(lv.skip(i as int), ntv, idx as nat) == Ok::<
                        Seq<Seq<char>>,
                        QuiverError,
                    >(seq![o0]));
                    assert(lv.skip(i as int + 1) =~= Seq::<Seq<char>>::empty());
                    assert(out.deep_view() =~= acc0 + seq![o0]);
                    assert((acc0 + seq![o0]) + Seq::<Seq<char>>::empty() =~= acc0 + seq![o0]);
                }
                i = i + 1;
                idx = idx + 1;
            } else {
                proof {
                    assert(lv.skip(i as int)[1] == lv[i as int + 1]);
                    assert(lv[i as int + 1] == lines@[i as int + 1]@);
                    assert(lv.skip(i as int).skip(2) =~= lv.skip(i as int + 2));
                }
                let nxt = &lines[i + 1];
                if tag_line_check(nxt.as_str()) {
                    return Err(QuiverError::ConsecutiveTagLines);
                }
                let out1: String = if score_line_check(nxt.as_str()) {
                    match token_at(nxt.as_str(), 2) {
                        Some(entries) => make_score_line(new_name.as_str(), entries.as_str()),
                        None => nxt.clone(),
                    }
                } else {
                    nxt.clone()
                };
                let ghost acc0 = out.deep_view();
                let ghost o0 = out0@;
                let ghost o1 = out1@;
                out.push(out0);
                out.push(out1);
                proof {
                    assert(out.deep_view() =~= acc0 + seq![o0, o1]);
                    let rest = rename_scan(lv.skip(i as int + 2), ntv, idx as nat + 1);
                    assert(rename_scan(lv.skip(i as int), ntv, idx as nat) == rename_compose(
                        seq![o0, o1],
                        rest,
                    ));
                    if rest is Ok {
                        assert(acc0 + (seq![o0, o1] + rest->Ok_0) =~= (acc0 + seq![o0, o1])
                            + rest->Ok_0);
                    }
                }
                i = i + 2;
                idx = idx + 1;
            }
        } else {
            let ghost acc0 = out.deep_view();
            out.push(line.clone());
            proof {
                assert(lv.skip(i as int).drop_first() =~= lv.skip(i as int + 1));
                assert(out.deep_view() =~= acc0 + seq![lv[i as int]]);
                let rest = rename_scan(lv.skip(i as int + 1), ntv, idx as nat);
                if rest is Ok {
                    assert(acc0 + (seq![lv[i as int]] + rest->Ok_0) =~= (acc0 + seq![lv[i as int]])
                        + rest->Ok_0);
                }
            }
            i = i + 1;
        }
    }
    proof {
        assert(lv.skip(n as int) =~= Seq::<Seq<char>>::empty());
        if rename_scan(lv, ntv, 0) is Ok {
            assert(out.deep_view() + Seq::<Seq<char>>::empty() =~= out.deep_view());
        }
    }
    Ok(out)
}

/// A pass that went through replaces the tag index, entry for entry: the
/// output archive's tags are exactly the replacement names used, in order.
pub proof fn lemma_rename_scan_tags(lines: Seq<Seq<char>>, nt: Seq<Seq<char>>, idx: nat)
    requires
        forall|k: int| 0 <= k < nt.len() ==> valid_tag(#[trigger] nt[k]),
        rename_scan(lines, nt, idx) is Ok,
        idx + tags_of(lines).len() <= nt.len(),
    ensures
        tags_of(rename_scan(lines, nt, idx)->Ok_0) == nt.subrange(
            idx as int,
            idx as int + tags_of(lines).len(),
        ),
    decreases lines.len(),
{
    let out = rename_scan(lines, nt, idx)->Ok_0;
    if lines.len() == 0 {
        assert(tags_of(out) =~= nt.subrange(idx as int, idx as int));
    } else {
        let l = lines[0];
        crate::reader::lemma_tags_of_first(lines);
        if !is_tag_line(l) {
            let rest_out = rename_scan(lines.drop_first(), nt, idx)->Ok_0;
            assert(out == seq![l] + rest_out);
            assert(tags_of(lines) == Seq::<Seq<char>>::empty() + tags_of(lines.drop_first()));
            assert(Seq::<Seq<char>>::empty() + tags_of(lines.drop_first()) =~= tags_of(
                lines.drop_first(),
            ));
            lemma_rename_scan_tags(lines.drop_first(), nt, idx);
            crate::reader::lemma_tags_of_first(out);
            assert(out[0] == l);
            assert(out.drop_first() =~= rest_out);
            assert(Seq::<Seq<char>>::empty() + tags_of(rest_out) =~= tags_of(rest_out));
        } else {
            assert(has_line_tag(l) && idx < nt.len());
            let out0 = tag_line_for(nt[idx as int]);
            lemma_tag_line_roundtrip(nt[idx as int]);
            if lines.len() == 1 {
                assert(out == seq![out0]);
                assert(tags_of(out) == tags_of(out.drop_last()) + seq![line_tag(out0)]);
                assert(out.drop_last() =~= Seq::<Seq<char>>::empty());
                assert(tags_of(out) =~= seq![nt[idx as int]]);
                assert(lines.drop_first() =~= Seq::<Seq<char>>::empty());
                assert(tags_of(lines) =~= seq![line_tag(l)]);
                assert(tags_of(out) =~= nt.subrange(idx as int, idx as int + 1));
            } else {
                let nxt = lines[1];
                assert(!is_tag_line(nxt));
                let out1 = if is_score_line(nxt) && has_token(nxt, 2) {
                    score_line_for(nt[idx as int], nth_token(nxt, 2))
                } else {
                    nxt
                };
                let rest = rename_scan(lines.skip(2), nt, idx + 1);
                assert(rest is Ok);
                let rest_out = rest->Ok_0;
                assert(out == seq![out0, out1] + rest_out);
                // The index of the source: the head's tag, then the tail's.
                assert(lines.drop_first()[0] == nxt);
                crate::reader::lemma_tags_of_first(lines.drop_first());
                assert(lines.drop_first().drop_first() =~= lines.skip(2));
                assert(tags_of(lines.drop_first()) =~= tags_of(lines.skip(2)));
                assert(tags_of(lines) =~= seq![line_tag(l)] + tags_of(lines.skip(2)));
                lemma_rename_scan_tags(lines.skip(2), nt, idx + 1);
                // The output's head declares the replacement; its second
                // line declares nothing.
                if is_score_line(nxt) && has_token(nxt, 2) {
                    lemma_score_line_roundtrip(nt[idx as int], nth_token(nxt, 2));
                }
                assert(!is_tag_line(out1));
                crate::reader::lemma_tags_of_first(out);
                assert(out[0] == out0);
                assert(out.drop_first() =~= seq![out1] + rest_out);
                crate::reader::lemma_tags_of_first(seq![out1] + rest_out);
                assert((seq![out1] + rest_out)[0] == out1);
                assert((seq![out1] + rest_out).drop_first() =~= rest_out);
                assert(tags_of(out) =~= seq![nt[idx as int]] + tags_of(rest_out));
                assert(seq![nt[idx as int]] + nt.subrange(
                    idx as int + 1,
                    idx as int + 1 + tags_of(lines.skip(2)).len(),
                ) =~= nt.subrange(idx as int, idx as int + tags_of(lines).len()));
            }
        }
    }
}

/// Renaming with as many names as the archive has tags, when it goes
/// through, leaves an archive whose tag index is exactly the replacement
/// list; each name replaces the tag of its own position.
pub proof fn lemma_rename_replaces_tags(lines: Seq<Seq<char>>, nt: Seq<Seq<char>>)
    requires
        forall|k: int| 0 <= k < nt.len() ==> valid_tag(#[trigger] nt[k]),
        nt.len() == tags_of(lines).len(),
        rename_scan(lines, nt, 0) is Ok,
    ensures
        tags_of(rename_scan(lines, nt, 0)->Ok_0) == nt,
{
    lemma_rename_scan_tags(lines, nt, 0);
    assert(nt.subrange(0, nt.len() as int) =~= nt);
}

/// A well-formed archive body for renaming: every tag-declaration line
/// names a tag, and none follows directly on another.
pub open spec fn renameable(lines: Seq<Seq<char>>) -> bool {
    forall|i: int|
        0 <= i < lines.len() && is_tag_line(#[trigger] lines[i]) ==> has_line_tag(lines[i]) && (i
            + 1 < lines.len() ==> !is_tag_line(lines[i + 1]))
}

/// On a well-formed archive, with names enough for its tags, the pass goes
/// through: success is owed whenever the count check passes and the file is
/// not corrupt.
pub proof fn lemma_rename_succeeds(lines: Seq<Seq<char>>, nt: Seq<Seq<char>>, idx: nat)
    requires
        renameable(lines),
        idx + tags_of(lines).len() <= nt.len(),
    ensures
        rename_scan(lines, nt, idx) is Ok,
    decreases lines.len(),
{
    if lines.len() > 0 {
        let l = lines[0];
        crate::reader::lemma_tags_of_first(lines);
        if !is_tag_line(l) {
            assert(renameable(lines.drop_first())) by {
                assert forall|i: int|
                    0 <= i < lines.drop_first().len() && is_tag_line(
                        #[trigger] lines.drop_first()[i],
                    ) implies has_line_tag(lines.drop_first()[i]) && (i + 1
                    < lines.drop_first().len() ==> !is_tag_line(lines.drop_first()[i + 1])) by {
                    assert(lines.drop_first()[i] == lines[i + 1]);
                    if i + 1 < lines.drop_first().len() {
                        assert(lines.drop_first()[i + 1] == lines[i + 2]);
                    }
                }
            }
            assert(Seq::<Seq<char>>::empty() + tags_of(lines.drop_first()) =~= tags_of(
                lines.drop_first(),
            ));
            lemma_rename_succeeds(lines.drop_first(), nt, idx);
        } else {
            assert(has_line_tag(l));
            assert(tags_of(lines).len() >= 1);
            assert(idx < nt.len());
            if lines.len() > 1 {
                assert(!is_tag_line(lines[1]));
                assert(renameable(lines.skip(2))) by {
                    assert forall|i: int|
                        0 <= i < lines.skip(2).len() && is_tag_line(
                            #[trigger] lines.skip(2)[i],
                        ) implies has_line_tag(lines.skip(2)[i]) && (i + 1 < lines.skip(2).len()
                        ==> !is_tag_line(lines.skip(2)[i + 1])) by {
                        assert(lines.skip(2)[i] == lines[i + 2]);
                        if i + 1 < lines.skip(2).len() {
                            assert(lines.skip(2)[i + 1] == lines[i + 3]);
                        }
                    }
                }
                assert(lines.drop_first()[0] == lines[1]);
                crate::reader::lemma_tags_of_first(lines.drop_first());
                assert(lines.drop_first().drop_first() =~= lines.skip(2));
                assert(tags_of(lines.drop_first()) =~= tags_of(lines.skip(2)));
                lemma_rename_succeeds(lines.skip(2), nt, idx + 1);
            }
        }
    }
}

/// A pass that went through keeps the file's shape: as many lines as
/// before, and every line that declares neither a tag nor a score — all
/// payload — unchanged, in place.
pub proof fn lemma_rename_preserves_payload(lines: Seq<Seq<char>>, nt: Seq<Seq<char>>, idx: nat)
    requires
        rename_scan(lines, nt, idx) is Ok,
    ensures
        rename_scan(lines, nt, idx)->Ok_0.len() == lines.len(),
        forall|i: int|
            0 <= i < lines.len() && !is_tag_line(#[trigger] lines[i]) && !is_score_line(lines[i])
                ==> rename_scan(lines, nt, idx)->Ok_0[i] == lines[i],
    decreases lines.len(),
{
    let out = rename_scan(lines, nt, idx)->Ok_0;
    if lines.len() == 0 {
    } else {
        let l = lines[0];
        if !is_tag_line(l) {
            let rest_out = rename_scan(lines.drop_first(), nt, idx)->Ok_0;
            assert(out == seq![l] + rest_out);
            lemma_rename_preserves_payload(lines.drop_first(), nt, idx);
            assert forall|i: int|
                0 <= i < lines.len() && !is_tag_line(#[trigger] lines[i]) && !is_score_line(
                    lines[i],
                ) implies out[i] == lines[i] by {
                if i > 0 {
                    assert(lines[i] == lines.drop_first()[i - 1]);
                    assert(out[i] == rest_out[i - 1]);
                }
            }
        } else if lines.len() == 1 {
            assert(out.len() == 1);
        } else {
            let rest_out = rename_scan(lines.skip(2), nt, idx + 1)->Ok_0;
            lemma_rename_preserves_payload(lines.skip(2), nt, idx + 1);
            assert forall|i: int|
                0 <= i < lines.len() && !is_tag_line(#[trigger] lines[i]) && !is_score_line(
                    lines[i],
                ) implies out[i] == lines[i] by {
                if i == 1 {
                    assert(out[1] == lines[1]);
                } else if i >= 2 {
                    assert(lines[i] == lines.skip(2)[i - 2]);
                    assert(out[i] == rest_out[i - 2]);
                }
            }
        }
    }
}

} // verus!
