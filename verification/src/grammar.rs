//! The archive file grammar.
//!
//! An archive is a sequence of text lines.  A line starting with `QV_TAG`
//! declares a record whose tag is the line's second whitespace token.  A line
//! starting with `QV_SCORE` carries a record's score annotation: its second
//! token is the tag, its third the `key=value` entries.  Every other line is
//! payload of the record declared last.

use crate::text::{
    has_token, is_space, lemma_nth_token_shape, lemma_token_single, lemma_token_step, nth_token,
    str_starts_with, token_at,
};
use vstd::prelude::*;

verus! {

/// The characters of the tag-declaration marker.
pub open spec fn qv_tag_marker() -> Seq<char> {
    seq!['Q', 'V', '_', 'T', 'A', 'G']
}

/// The characters of the score-declaration marker.
pub open spec fn qv_score_marker() -> Seq<char> {
    seq!['Q', 'V', '_', 'S', 'C', 'O', 'R', 'E']
}

/// A line that declares a record: it starts with the tag marker.
pub open spec fn is_tag_line(l: Seq<char>) -> bool {
    qv_tag_marker().is_prefix_of(l)
}

/// A line that carries a score annotation: it starts with the score marker.
pub open spec fn is_score_line(l: Seq<char>) -> bool {
    qv_score_marker().is_prefix_of(l)
}

/// Whether a tag-declaration line names a tag at all.
pub open spec fn has_line_tag(l: Seq<char>) -> bool {
    has_token(l, 1)
}

/// The tag a declaration line names: its second whitespace token.
pub open spec fn line_tag(l: Seq<char>) -> Seq<char> {
    nth_token(l, 1)
}

/// The tag index of an archive: the tags of its tag-declaration lines, in
/// file order.  A tag-declaration line without a tag token contributes
/// nothing.
pub open spec fn tags_of(lines: Seq<Seq<char>>) -> Seq<Seq<char>>
    decreases lines.len(),
{
    if lines.len() == 0 {
        Seq::empty()
    } else {
        tags_of(lines.drop_last()) + if is_tag_line(lines.last()) && has_line_tag(lines.last()) {
            seq![line_tag(lines.last())]
        } else {
            Seq::empty()
        }
    }
}

/// Peeling one line off the front of the index's archive.
pub proof fn lemma_tags_of_take_step(lines: Seq<Seq<char>>, i: int)
    requires
        0 <= i < lines.len(),
    ensures
        tags_of(lines.take(i + 1)) == tags_of(lines.take(i)) + if is_tag_line(lines[i])
            && has_line_tag(lines[i]) {
            seq![line_tag(lines[i])]
        } else {
            Seq::<Seq<char>>::empty()
        },
{
    assert(lines.take(i + 1).drop_last() =~= lines.take(i));
    assert(lines.take(i + 1).last() == lines[i]);
}

/// Every tag in the index is non-empty and free of whitespace.
pub proof fn lemma_tags_of_shape(lines: Seq<Seq<char>>)
    ensures
        forall|k: int| 0 <= k < tags_of(lines).len() ==> valid_tag(#[trigger] tags_of(lines)[k]),
    decreases lines.len(),
{
    if lines.len() > 0 {
        lemma_tags_of_shape(lines.drop_last());
        if is_tag_line(lines.last()) && has_line_tag(lines.last()) {
            lemma_nth_token_shape(lines.last(), 1);
        }
        assert forall|k: int| 0 <= k < tags_of(lines).len() implies valid_tag(
            #[trigger] tags_of(lines)[k],
        ) by {
            if k < tags_of(lines.drop_last()).len() {
                assert(tags_of(lines)[k] == tags_of(lines.drop_last())[k]);
            } else {
                assert(tags_of(lines)[k] == line_tag(lines.last()));
            }
        }
    }
}

/// A newline, as a one-character line suffix.
pub open spec fn nl() -> Seq<char> {
    seq!['\n']
}

/// The text of a tag-declaration line for `tag` (without the newline).
pub open spec fn tag_line_for(tag: Seq<char>) -> Seq<char> {
    qv_tag_marker() + seq![' '] + tag
}

/// The text of a score-declaration line for `tag` and the raw score string
/// `score` (without the newline).
pub open spec fn score_line_for(tag: Seq<char>, score: Seq<char>) -> Seq<char> {
    qv_score_marker() + seq![' '] + tag + seq![' '] + score
}

/// A well-formed tag: non-empty and whitespace-free, so that the tag written
/// into a declaration line is the tag read back from it.
pub open spec fn valid_tag(tag: Seq<char>) -> bool {
    tag.len() > 0 && forall|i: int| 0 <= i < tag.len() ==> !is_space(tag[i])
}

/// A constructed tag-declaration line is one, and names exactly `tag`.
pub proof fn lemma_tag_line_roundtrip(tag: Seq<char>)
    requires
        valid_tag(tag),
    ensures
        is_tag_line(tag_line_for(tag)),
        !is_score_line(tag_line_for(tag)),
        has_line_tag(tag_line_for(tag)),
        line_tag(tag_line_for(tag)) == tag,
{
    let l = tag_line_for(tag);
    assert(qv_tag_marker().is_prefix_of(l)) by {
        assert(l =~= qv_tag_marker() + (seq![' '] + tag));
        assert(l.subrange(0, 6) =~= qv_tag_marker());
    }
    assert(!qv_score_marker().is_prefix_of(l)) by {
        assert(l.len() >= 8 ==> l.subrange(0, 8)[3] == 'T');
    }
    assert forall|i: int| 0 <= i < qv_tag_marker().len() implies !is_space(
        qv_tag_marker()[i],
    ) by {
    }
    lemma_token_step(qv_tag_marker(), tag, 1);
    lemma_token_single(tag, 0);
}

/// A constructed score-declaration line is one (and not a tag line), names
/// `tag` second, and carries `score` as its third token when `score` itself
/// is a single whitespace-free word.
pub proof fn lemma_score_line_roundtrip(tag: Seq<char>, score: Seq<char>)
    requires
        valid_tag(tag),
    ensures
        is_score_line(score_line_for(tag, score)),
        !is_tag_line(score_line_for(tag, score)),
        has_token(score_line_for(tag, score), 1),
        nth_token(score_line_for(tag, score), 1) == tag,
        valid_tag(score) ==> has_token(score_line_for(tag, score), 2) && nth_token(
            score_line_for(tag, score),
            2,
        ) == score,
{
    let l = score_line_for(tag, score);
    assert(qv_score_marker().is_prefix_of(l)) by {
        assert(l =~= qv_score_marker() + (seq![' '] + tag + seq![' '] + score));
        assert(l.subrange(0, 8) =~= qv_score_marker());
    }
    assert(!qv_tag_marker().is_prefix_of(l)) by {
        assert(l.len() >= 6 ==> l.subrange(0, 6)[3] == 'S');
    }
    let rest = tag + seq![' '] + score;
    assert(l =~= qv_score_marker() + seq![' '] + rest) by {
        assert(l =~= (qv_score_marker() + seq![' ']) + (tag + seq![' '] + score));
        assert(qv_score_marker() + seq![' '] + rest =~= (qv_score_marker() + seq![' ']) + (tag
            + seq![' '] + score));
    }
    lemma_token_step(qv_score_marker(), rest, 1);
    lemma_token_step(qv_score_marker(), rest, 2);
    lemma_token_step(tag, score, 0);
    lemma_token_step(tag, score, 1);
    if valid_tag(score) {
        lemma_token_single(score, 0);
    }
}

/// Whether this line declares a record.
pub fn tag_line_check(s: &str) -> (b: bool)
    ensures
        b == is_tag_line(s@),
{
    proof {
        reveal_strlit("QV_TAG");
        assert("QV_TAG"@ =~= qv_tag_marker());
    }
    str_starts_with(s, "QV_TAG")
}

/// Whether this line carries a score annotation.
pub fn score_line_check(s: &str) -> (b: bool)
    ensures
        b == is_score_line(s@),
{
    proof {
        reveal_strlit("QV_SCORE");
        assert("QV_SCORE"@ =~= qv_score_marker());
    }
    str_starts_with(s, "QV_SCORE")
}

/// The tag a declaration line names, if it names one.
pub fn line_tag_of(s: &str) -> (r: Option<String>)
    ensures
        r is Some <==> has_line_tag(s@),
        r is Some ==> r->0@ == line_tag(s@),
{
    token_at(s, 1)
}

/// Builds the tag-declaration line for `tag` (without the newline).
pub fn make_tag_line(tag: &str) -> (r: String)
    ensures
        r@ == tag_line_for(tag@),
{
    proof {
        reveal_strlit("QV_TAG ");
        assert("QV_TAG "@ =~= qv_tag_marker() + seq![' ']);
    }
    let r = String::from_str("QV_TAG ").concat(tag);
    proof {
        assert(r@ =~= tag_line_for(tag@));
    }
    r
}

/// Builds the score-declaration line for `tag` and `score` (without the
/// newline).
pub fn make_score_line(tag: &str, score: &str) -> (r: String)
    ensures
        r@ == score_line_for(tag@, score@),
{
    proof {
        reveal_strlit("QV_SCORE ");
        reveal_strlit(" ");
        assert("QV_SCORE "@ =~= qv_score_marker() + seq![' ']);
        assert(" "@ =~= seq![' ']);
    }
    let mut r = String::from_str("QV_SCORE ").concat(tag);
    r.append(" ");
    r.append(score);
    proof {
        assert(r@ =~= score_line_for(tag@, score@));
    }
    r
}

} // verus!
