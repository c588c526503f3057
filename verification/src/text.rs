//! Character-level text helpers: whitespace tokenizing and prefix tests.
//!
//! Lines are modelled as `Seq<char>`.  A token is a maximal run of
//! non-whitespace characters; tokens are numbered from zero.

use vstd::prelude::*;

verus! {

/// Whitespace for token splitting: the ASCII whitespace characters.
pub open spec fn is_space(c: char) -> bool {
    c == ' ' || c == '\t' || c == '\n' || c == '\r' || c == '\u{b}' || c == '\u{c}'
}

/// `l` with its leading whitespace run removed.
pub open spec fn skip_spaces(l: Seq<char>) -> Seq<char>
    decreases l.len(),
{
    if l.len() > 0 && is_space(l[0]) {
        skip_spaces(l.drop_first())
    } else {
        l
    }
}

/// The leading maximal non-whitespace run of `l`.
pub open spec fn take_token(l: Seq<char>) -> Seq<char>
    decreases l.len(),
{
    if l.len() > 0 && !is_space(l[0]) {
        seq![l[0]] + take_token(l.drop_first())
    } else {
        Seq::empty()
    }
}

/// `l` with its leading maximal non-whitespace run removed.
pub open spec fn drop_token(l: Seq<char>) -> Seq<char>
    decreases l.len(),
{
    if l.len() > 0 && !is_space(l[0]) {
        drop_token(l.drop_first())
    } else {
        l
    }
}

/// Whether `l` has a token with (zero-based) number `n`.
pub open spec fn has_token(l: Seq<char>, n: nat) -> bool
    decreases n,
{
    let t = skip_spaces(l);
    if t.len() == 0 {
        false
    } else if n == 0 {
        true
    } else {
        has_token(drop_token(t), (n - 1) as nat)
    }
}

/// The token with (zero-based) number `n` of `l`; empty if there is none.
pub open spec fn nth_token(l: Seq<char>, n: nat) -> Seq<char>
    decreases n,
{
    let t = skip_spaces(l);
    if n == 0 {
        take_token(t)
    } else {
        nth_token(drop_token(t), (n - 1) as nat)
    }
}

/// A token never holds whitespace and, when present, is never empty.
pub proof fn lemma_take_token_shape(l: Seq<char>)
    ensures
        forall|i: int| 0 <= i < take_token(l).len() ==> !is_space(take_token(l)[i]),
        l.len() > 0 && !is_space(l[0]) ==> take_token(l).len() > 0,
    decreases l.len(),
{
    if l.len() > 0 && !is_space(l[0]) {
        lemma_take_token_shape(l.drop_first());
        assert forall|i: int| 0 <= i < take_token(l).len() implies !is_space(
            take_token(l)[i],
        ) by {
            if i > 0 {
                assert(take_token(l)[i] == take_token(l.drop_first())[i - 1]);
            }
        }
    }
}

/// Tokens of a present token number are non-empty and whitespace-free.
pub proof fn lemma_nth_token_shape(l: Seq<char>, n: nat)
    requires
        has_token(l, n),
    ensures
        nth_token(l, n).len() > 0,
        forall|i: int| 0 <= i < nth_token(l, n).len() ==> !is_space(nth_token(l, n)[i]),
    decreases n,
{
    let t = skip_spaces(l);
    lemma_skip_spaces_shape(l);
    if n == 0 {
        lemma_take_token_shape(t);
    } else {
        lemma_nth_token_shape(drop_token(t), (n - 1) as nat);
    }
}

/// After skipping spaces the head, if any, is not a space.
pub proof fn lemma_skip_spaces_shape(l: Seq<char>)
    ensures
        skip_spaces(l).len() > 0 ==> !is_space(skip_spaces(l)[0]),
        skip_spaces(l).len() <= l.len(),
    decreases l.len(),
{
    if l.len() > 0 && is_space(l[0]) {
        lemma_skip_spaces_shape(l.drop_first());
    }
}

/// Prepending a whitespace-free run to `b` extends `b`'s leading token.
pub proof fn lemma_token_concat(a: Seq<char>, b: Seq<char>)
    requires
        forall|i: int| 0 <= i < a.len() ==> !is_space(a[i]),
    ensures
        take_token(a + b) == a + take_token(b),
        drop_token(a + b) == drop_token(b),
    decreases a.len(),
{
    if a.len() == 0 {
        assert(a + b =~= b);
        assert(a + take_token(b) =~= take_token(b));
    } else {
        assert((a + b).drop_first() =~= a.drop_first() + b);
        lemma_token_concat(a.drop_first(), b);
        assert(seq![(a + b)[0]] + (a.drop_first() + take_token(b)) =~= a + take_token(b));
    }
}

/// A whitespace-free run is exactly its own leading token.
pub proof fn lemma_token_whole(a: Seq<char>)
    requires
        forall|i: int| 0 <= i < a.len() ==> !is_space(a[i]),
    ensures
        take_token(a) == a,
        drop_token(a) == Seq::<char>::empty(),
    decreases a.len(),
{
    if a.len() > 0 {
        lemma_token_whole(a.drop_first());
        assert(seq![a[0]] + a.drop_first() =~= a);
    }
}

/// Skipping spaces passes over a leading all-whitespace run.
pub proof fn lemma_skip_spaces_concat(a: Seq<char>, b: Seq<char>)
    requires
        forall|i: int| 0 <= i < a.len() ==> is_space(a[i]),
    ensures
        skip_spaces(a + b) == skip_spaces(b),
    decreases a.len(),
{
    if a.len() == 0 {
        assert(a + b =~= b);
    } else {
        assert((a + b).drop_first() =~= a.drop_first() + b);
        lemma_skip_spaces_concat(a.drop_first(), b);
    }
}

/// In `word SPACE rest`, token zero is `word` and the later tokens are those
/// of `rest`, shifted by one.
pub proof fn lemma_token_step(word: Seq<char>, rest: Seq<char>, n: nat)
    requires
        word.len() > 0,
        forall|i: int| 0 <= i < word.len() ==> !is_space(word[i]),
    ensures
        has_token(word + seq![' '] + rest, 0),
        nth_token(word + seq![' '] + rest, 0) == word,
        n >= 1 ==> has_token(word + seq![' '] + rest, n) == has_token(rest, (n - 1) as nat),
        n >= 1 ==> nth_token(word + seq![' '] + rest, n) == nth_token(rest, (n - 1) as nat),
{
    let l = word + seq![' '] + rest;
    assert(l[0] == word[0]);
    assert(skip_spaces(l) == l);
    assert(l =~= word + (seq![' '] + rest));
    lemma_token_concat(word, seq![' '] + rest);
    assert(take_token(seq![' '] + rest) == Seq::<char>::empty()) by {
        assert(is_space((seq![' '] + rest)[0]));
    }
    assert(word + Seq::<char>::empty() =~= word);
    assert(drop_token(seq![' '] + rest) == seq![' '] + rest);
    assert((seq![' '] + rest).drop_first() =~= rest);
    lemma_skip_spaces_concat(seq![' '], rest);
    if n >= 1 {
        assert(has_token(l, n) == has_token(drop_token(skip_spaces(l)), (n - 1) as nat));
        assert(nth_token(l, n) == nth_token(drop_token(skip_spaces(l)), (n - 1) as nat));
        assert(drop_token(skip_spaces(l)) == seq![' '] + rest);
        lemma_token_shift_spaces(seq![' '] + rest, rest, (n - 1) as nat);
    }
}

/// Leading whitespace changes no token.
pub proof fn lemma_token_shift_spaces(l: Seq<char>, r: Seq<char>, n: nat)
    requires
        skip_spaces(l) == skip_spaces(r),
    ensures
        has_token(l, n) == has_token(r, n),
        nth_token(l, n) == nth_token(r, n),
{
}

/// A lone whitespace-free word is its own token zero and has no further token.
pub proof fn lemma_token_single(word: Seq<char>, n: nat)
    requires
        forall|i: int| 0 <= i < word.len() ==> !is_space(word[i]),
    ensures
        word.len() > 0 ==> has_token(word, 0) && nth_token(word, 0) == word,
        n >= 1 ==> !has_token(word, n),
    decreases n,
{
    assert(skip_spaces(word) == word);
    lemma_token_whole(word);
    if n >= 1 {
        if word.len() > 0 {
            assert(!has_token(Seq::<char>::empty(), (n - 1) as nat));
        }
    }
}

/// A line with token `n` has every earlier token too.
pub proof fn lemma_has_token_down(l: Seq<char>, n: nat)
    requires
        n >= 1,
        has_token(l, n),
    ensures
        has_token(l, (n - 1) as nat),
    decreases n,
{
    if n >= 2 {
        lemma_has_token_down(drop_token(skip_spaces(l)), (n - 1) as nat);
    }
}

/// Whether character `c` counts as whitespace for token splitting.
pub fn space_char(c: char) -> (b: bool)
    ensures
        b == is_space(c),
{
    c == ' ' || c == '\t' || c == '\n' || c == '\r' || c == '\u{b}' || c == '\u{c}'
}

/// Whether `p` is a prefix of `s`, character for character.
pub fn str_starts_with(s: &str, p: &str) -> (b: bool)
    ensures
        b == p@.is_prefix_of(s@),
{
    let sl = s.unicode_len();
    let pl = p.unicode_len();
    if pl > sl {
        return false;
    }
    for i in 0..pl
        invariant
            pl == p@.len(),
            sl == s@.len(),
            pl <= sl,
            forall|j: int| 0 <= j < i ==> s@[j] == p@[j],
    {
        if s.get_char(i) != p.get_char(i) {
            proof {
                assert(s@.subrange(0, p@.len() as int)[i as int] == s@[i as int]);
            }
            return false;
        }
    }
    proof {
        assert(p@ =~= s@.subrange(0, p@.len() as int));
    }
    true
}

/// Whether two string slices hold the same characters.
pub fn str_eq(a: &str, b: &str) -> (r: bool)
    ensures
        r == (a@ == b@),
{
    let al = a.unicode_len();
    let bl = b.unicode_len();
    if al != bl {
        return false;
    }
    for i in 0..al
        invariant
            al == a@.len(),
            bl == b@.len(),
            al == bl,
            forall|j: int| 0 <= j < i ==> a@[j] == b@[j],
    {
        if a.get_char(i) != b.get_char(i) {
            return false;
        }
    }
    proof {
        assert(a@ =~= b@);
    }
    true
}

/// Whether some string in `v` holds the same characters as `s`.
pub fn vec_contains_str(v: &Vec<String>, s: &str) -> (b: bool)
    ensures
        b == v.deep_view().contains(s@),
{
    let mut i: usize = 0;
    while i < v.len()
        invariant
            i <= v@.len(),
            forall|j: int| 0 <= j < i ==> v.deep_view()[j] != s@,
        decreases v@.len() - i,
    {
        if str_eq(v[i].as_str(), s) {
            proof {
                assert(v.deep_view()[i as int] == s@);
            }
            return true;
        }
        i = i + 1;
    }
    proof {
        if v.deep_view().contains(s@) {
            let j = choose|j: int| 0 <= j < v.deep_view().len() && v.deep_view()[j] == s@;
            assert(v.deep_view()[j] != s@);
        }
    }
    false
}

/// The token with number `n` of `s`, if `s` has that many tokens.
pub fn token_at(s: &str, n: usize) -> (r: Option<String>)
    ensures
        r is Some <==> has_token(s@, n as nat),
        r is Some ==> r->0@ == nth_token(s@, n as nat),
{
    let len = s.unicode_len();
    let mut i: usize = 0;
    let mut k: usize = 0;
    proof {
        assert(s@.skip(0) =~= s@);
    }
    loop
        invariant
            len == s@.len(),
            i <= len,
            k <= n,
            has_token(s@, n as nat) == has_token(s@.skip(i as int), (n - k) as nat),
            nth_token(s@, n as nat) == nth_token(s@.skip(i as int), (n - k) as nat),
        decreases len - i,
    {
        let ghost i0 = i;
        // Pass over whitespace; neither token numbering nor content changes.
        while i < len && space_char(s.get_char(i))
            invariant
                len == s@.len(),
                i0 <= i <= len,
                has_token(s@, n as nat) == has_token(s@.skip(i as int), (n - k) as nat),
                nth_token(s@, n as nat) == nth_token(s@.skip(i as int), (n - k) as nat),
            decreases len - i,
        {
            proof {
                let suf = s@.skip(i as int);
                assert(suf.drop_first() =~= s@.skip(i as int + 1));
                assert(skip_spaces(suf) == skip_spaces(suf.drop_first()));
                lemma_token_shift_spaces(suf, suf.drop_first(), (n - k) as nat);
            }
            i = i + 1;
        }
        if i == len {
            proof {
                assert(s@.skip(i as int) =~= Seq::<char>::empty());
            }
            return None;
        }
        proof {
            let suf = s@.skip(i as int);
            assert(suf[0] == s@[i as int]);
            assert(skip_spaces(suf) == suf);
        }
        if k == n {
            // The requested token starts here; find where it ends.
            let start: usize = i;
            let mut j: usize = i;
            proof {
                assert(s@.subrange(start as int, j as int) + take_token(s@.skip(j as int))
                    =~= take_token(s@.skip(j as int)));
            }
            while j < len && !space_char(s.get_char(j))
                invariant
                    len == s@.len(),
                    start <= j <= len,
                    take_token(s@.skip(start as int)) == s@.subrange(start as int, j as int)
                        + take_token(s@.skip(j as int)),
                decreases len - j,
            {
                proof {
                    let suf = s@.skip(j as int);
                    assert(suf[0] == s@[j as int]);
                    assert(suf.drop_first() =~= s@.skip(j as int + 1));
                    assert(take_token(suf) == seq![suf[0]] + take_token(suf.drop_first()));
                    assert(s@.subrange(start as int, j as int) + (seq![s@[j as int]]
                        + take_token(s@.skip(j as int + 1))) =~= s@.subrange(
                        start as int,
                        j as int + 1,
                    ) + take_token(s@.skip(j as int + 1)));
                }
                j = j + 1;
            }
            proof {
                assert(take_token(s@.skip(j as int)) == Seq::<char>::empty());
                assert(s@.subrange(start as int, j as int) + Seq::<char>::empty() =~= s@.subrange(
                    start as int,
                    j as int,
                ));
            }
            let tok = String::from_str(s.substring_char(start, j));
            return Some(tok);
        } else {
            // Pass over one whole token and count it.
            let mut j: usize = i;
            proof {
                assert(drop_token(s@.skip(i as int)) == drop_token(s@.skip(j as int)));
            }
            while j < len && !space_char(s.get_char(j))
                invariant
                    len == s@.len(),
                    i <= j <= len,
                    drop_token(s@.skip(i as int)) == drop_token(s@.skip(j as int)),
                decreases len - j,
            {
                proof {
                    let suf = s@.skip(j as int);
                    assert(suf[0] == s@[j as int]);
                    assert(suf.drop_first() =~= s@.skip(j as int + 1));
                    assert(drop_token(suf) == drop_token(suf.drop_first()));
                }
                j = j + 1;
            }
            proof {
                let suf = s@.skip(i as int);
                assert(j > i);
                assert(drop_token(s@.skip(j as int)) == s@.skip(j as int));
                assert(has_token(suf, (n - k) as nat) == has_token(
                    drop_token(suf),
                    (n - k - 1) as nat,
                ));
                assert(nth_token(suf, (n - k) as nat) == nth_token(
                    drop_token(suf),
                    (n - k - 1) as nat,
                ));
            }
            i = j;
            k = k + 1;
        }
    }
}

} // verus!
