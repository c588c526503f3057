//! The archive builder: turns external payload files into archive text,
//! deriving each record's tag from its source file's name.

use crate::grammar::{make_tag_line, nl, tag_line_for};
use vstd::prelude::*;

verus! {

/// `p` without its trailing slashes.
pub open spec fn strip_trailing_slashes(p: Seq<char>) -> Seq<char>
    decreases p.len(),
{
    if p.len() > 0 && p.last() == '/' {
        strip_trailing_slashes(p.drop_last())
    } else {
        p
    }
}

/// The suffix of `p` after its last slash; `p` itself if it has none.
pub open spec fn after_last_slash(p: Seq<char>) -> Seq<char>
    decreases p.len(),
{
    if p.len() == 0 {
        p
    } else if p.last() == '/' {
        Seq::empty()
    } else {
        after_last_slash(p.drop_last()).push(p.last())
    }
}

/// The prefix of `b` before its last `.`; empty if `b` has no `.`.
pub open spec fn before_last_dot(b: Seq<char>) -> Seq<char>
    decreases b.len(),
{
    if b.len() == 0 {
        b
    } else if b.last() == '.' {
        b.drop_last()
    } else {
        before_last_dot(b.drop_last())
    }
}

/// A base name's stem: the part before its last `.`, unless its only `.`
/// leads the name (a hidden file keeps its whole name).
pub open spec fn stem_rule(b: Seq<char>) -> Seq<char> {
    if exists|i: int| 1 <= i < b.len() && b[i] == '.' {
        before_last_dot(b)
    } else {
        b
    }
}

/// The placeholder tag for a path without a usable base name.
pub open spec fn unknown_chars() -> Seq<char> {
    seq!['U', 'N', 'K', 'N', 'O', 'W', 'N']
}

/// The tag derived from a path: the stem of its base name, or `UNKNOWN`
/// when the path names no file (empty, or ending in `.` or `..`).
pub open spec fn stem_of(path: Seq<char>) -> Seq<char> {
    let b = after_last_slash(strip_trailing_slashes(path));
    if b.len() == 0 || b == seq!['.'] || b == seq!['.', '.'] {
        unknown_chars()
    } else {
        stem_rule(b)
    }
}

/// The archive text built from payload files: for each, in order, a
/// tag-declaration line derived from its name, then its content verbatim.
pub open spec fn build_text(names: Seq<Seq<char>>, contents: Seq<Seq<char>>) -> Seq<char>
    recommends
        names.len() == contents.len(),
    decreases names.len(),
{
    if names.len() == 0 {
        Seq::empty()
    } else {
        build_text(names.drop_last(), contents.drop_last()) + tag_line_for(stem_of(names.last()))
            + nl() + contents.last()
    }
}

/// Derives the tag for a payload file from its path, as `stem_of` says.
pub fn stem_of_path(path: &str) -> (r: String)
    ensures
        r@ == stem_of(path@),
{
    let p = path;
    let len = p.unicode_len();
    let mut e: usize = len;
    proof {
        assert(p@.take(len as int) =~= p@);
    }
    while e > 0 && p.get_char(e - 1) == '/'
        invariant
            e <= len,
            len == p@.len(),
            strip_trailing_slashes(p@) == strip_trailing_slashes(p@.take(e as int)),
        decreases e,
    {
        proof {
            assert(p@.take(e as int).last() == p@[e as int - 1]);
            assert(p@.take(e as int).drop_last() =~= p@.take(e as int - 1));
        }
        e = e - 1;
    }
    proof {
        assert(strip_trailing_slashes(p@) == p@.take(e as int));
    }
    let mut s: usize = e;
    proof {
        assert(p@.subrange(e as int, e as int) =~= Seq::<char>::empty());
        assert(after_last_slash(p@.take(e as int)) =~= after_last_slash(p@.take(e as int))
            + p@.subrange(e as int, e as int));
    }
    while s > 0 && p.get_char(s - 1) != '/'
        invariant
            s <= e <= len,
            len == p@.len(),
            after_last_slash(p@.take(e as int)) == after_last_slash(p@.take(s as int))
                + p@.subrange(s as int, e as int),
        decreases s,
    {
        proof {
            assert(p@.take(s as int).last() == p@[s as int - 1]);
            assert(p@.take(s as int).drop_last() =~= p@.take(s as int - 1));
            assert(after_last_slash(p@.take(s as int)) == after_last_slash(
                p@.take(s as int - 1),
            ).push(p@[s as int - 1]));
            assert(after_last_slash(p@.take(s as int - 1)).push(p@[s as int - 1]) + p@.subrange(
                s as int,
                e as int,
            ) =~= after_last_slash(p@.take(s as int - 1)) + p@.subrange(s as int - 1, e as int));
        }
        s = s - 1;
    }
    proof {
        if s == 0 {
            assert(after_last_slash(p@.take(0)) =~= Seq::<char>::empty());
        } else {
            assert(p@.take(s as int).last() == p@[s as int - 1]);
        }
        assert(Seq::<char>::empty() + p@.subrange(s as int, e as int) =~= p@.subrange(
            s as int,
            e as int,
        ));
        assert(after_last_slash(p@.take(e as int)) == p@.subrange(s as int, e as int));
    }
    let ghost base = p@.subrange(s as int, e as int);
    let blen = e - s;
    proof {
        reveal_strlit("UNKNOWN");
        assert("UNKNOWN"@ =~= unknown_chars());
    }
    if blen == 0 {
        return String::from_str("UNKNOWN");
    }
    if blen == 1 && p.get_char(s) == '.' {
        proof {
            assert(base =~= seq!['.']);
        }
        return String::from_str("UNKNOWN");
    }
    if blen == 2 && p.get_char(s) == '.' && p.get_char(s + 1) == '.' {
        proof {
            assert(base =~= seq!['.', '.']);
        }
        return String::from_str("UNKNOWN");
    }
    proof {
        assert(base.len() == e - s);
        assert(base != seq!['.'] && base != seq!['.', '.']) by {
            if base == seq!['.'] {
                assert(base.len() == 1);
                assert(base[0] == p@[s as int]);
                assert(false);
            }
            if base == seq!['.', '.'] {
                assert(base.len() == 2);
                assert(base[0] == p@[s as int]);
                assert(base[1] == p@[s as int + 1]);
                assert(false);
            }
        }
    }
    // Find the last dot of the base name, scanning from its end.
    let mut d: usize = e;
    proof {
        assert(base.take(e as int - s) =~= base);
        assert(before_last_dot(base) == before_last_dot(base.take(d as int - s)));
        assert(forall|m: int| d - s <= m < base.len() ==> base[m] != '.');
    }
    while d > s && p.get_char(d - 1) != '.'
        invariant
            s <= d <= e <= len,
            len == p@.len(),
            base == p@.subrange(s as int, e as int),
            before_last_dot(base) == before_last_dot(base.take(d as int - s)),
            forall|m: int| d - s <= m < base.len() ==> base[m] != '.',
        decreases d,
    {
        proof {
            assert(base.take(d as int - s).last() == base[d as int - s - 1]);
            assert(base[d as int - s - 1] == p@[d as int - 1]);
            assert(base.take(d as int - s).drop_last() =~= base.take(d as int - s - 1));
        }
        d = d - 1;
    }
    if d == s {
        // No dot at all: the base name is its own stem.
        proof {
            assert(base.take(0) =~= Seq::<char>::empty());
            assert(!(exists|i: int| 1 <= i < base.len() && base[i] == '.'));
            assert(stem_of(p@) == base);
        }
        return String::from_str(p.substring_char(s, e));
    }
    proof {
        assert(p@[d as int - 1] == '.');
        assert(base[d as int - s - 1] == '.');
    }
    if d - 1 == s {
        // The only dot leads the name: keep the whole name.
        proof {
            assert forall|i: int| 1 <= i < base.len() implies base[i] != '.' by {}
            assert(stem_of(p@) == base);
        }
        return String::from_str(p.substring_char(s, e));
    }
    // The stem ends before the last dot.
    proof {
        assert(exists|i: int| 1 <= i < base.len() && base[i] == '.') by {
            assert(base[d as int - s - 1] == '.');
        }
        assert(base.take(d as int - s).last() == '.');
        assert(before_last_dot(base.take(d as int - s)) == base.take(d as int - s).drop_last());
        assert(base.take(d as int - s).drop_last() =~= p@.subrange(s as int, d as int - 1));
        assert(stem_of(p@) == p@.subrange(s as int, d as int - 1));
    }
    String::from_str(p.substring_char(s, d - 1))
}

/// Builds one archive text from payload files, given as parallel lists of
/// path and content: each contributes a tag-declaration line derived from
/// its path, then its content verbatim — with no newline added, so a file
/// without a final newline runs into the next tag line, exactly as the
/// files were concatenated.
pub fn qvfrompdbs(pdb_names: &Vec<String>, pdb_contents: &Vec<String>) -> (r: String)
    requires
        pdb_names@.len() == pdb_contents@.len(),
    ensures
        r@ == build_text(pdb_names.deep_view(), pdb_contents.deep_view()),
{
    let ghost nv = pdb_names.deep_view();
    let ghost cv = pdb_contents.deep_view();
    let mut out = String::new();
    proof {
        assert(nv.take(0) =~= Seq::<Seq<char>>::empty());
        assert(cv.take(0) =~= Seq::<Seq<char>>::empty());
    }
    for i in 0..pdb_names.len()
        invariant
            nv == pdb_names.deep_view(),
            cv == pdb_contents.deep_view(),
            nv.len() == cv.len(),
            out@ == build_text(nv.take(i as int), cv.take(i as int)),
    {
        proof {
            reveal_strlit("\n");
            assert("\n"@ =~= nl());
            assert(nv.take(i as int + 1).drop_last() =~= nv.take(i as int));
            assert(cv.take(i as int + 1).drop_last() =~= cv.take(i as int));
            assert(nv.take(i as int + 1).last() == nv[i as int]);
            assert(cv.take(i as int + 1).last() == cv[i as int]);
            assert(nv[i as int] == pdb_names@[i as int]@);
            assert(cv[i as int] == pdb_contents@[i as int]@);
        }
        let tag = stem_of_path(pdb_names[i].as_str());
        let tag_line = make_tag_line(tag.as_str());
        out.append(tag_line.as_str());
        out.append("\n");
        out.append(pdb_contents[i].as_str());
        proof {
            assert(out@ =~= build_text(nv.take(i as int), cv.take(i as int)) + tag_line_for(
                stem_of(nv[i as int]),
            ) + nl() + cv[i as int]);
        }
    }
    proof {
        assert(nv.take(pdb_names@.len() as int) =~= nv);
        assert(cv.take(pdb_names@.len() as int) =~= cv);
    }
    out
}

} // verus!
