//! Character-level building blocks: whitespace tokenizing, joining,
//! integer and floating-point literal recognition, decimal rendering.
use vstd::prelude::*;

verus! {

/// Whitespace as `char::is_whitespace` defines it (the Unicode `White_Space` property).
pub open spec fn is_ws(c: char) -> bool {
    c == '\t' || c == '\n' || c == '\x0B' || c == '\x0C' || c == '\r' || c == ' '
        || c == '\u{85}' || c == '\u{A0}' || c == '\u{1680}'
        || ('\u{2000}' <= c && c <= '\u{200A}')
        || c == '\u{2028}' || c == '\u{2029}' || c == '\u{202F}' || c == '\u{205F}'
        || c == '\u{3000}'
}

pub fn is_whitespace_char(c: char) -> (r: bool)
    ensures
        r == is_ws(c),
{
    c == '\t' || c == '\n' || c == '\x0B' || c == '\x0C' || c == '\r' || c == ' '
        || c == '\u{85}' || c == '\u{A0}' || c == '\u{1680}'
        || ('\u{2000}' <= c && c <= '\u{200A}')
        || c == '\u{2028}' || c == '\u{2029}' || c == '\u{202F}' || c == '\u{205F}'
        || c == '\u{3000}'
}

pub open spec fn flush_word(cur: Seq<char>) -> Seq<Seq<char>> {
    if cur.len() == 0 {
        seq![]
    } else {
        seq![cur]
    }
}

/// Tokens of `s`, given that `cur` is the word read so far.
pub open spec fn tokens_from(s: Seq<char>, cur: Seq<char>) -> Seq<Seq<char>>
    decreases s.len(),
{
    if s.len() == 0 {
        flush_word(cur)
    } else if is_ws(s[0]) {
        flush_word(cur) + tokens_from(s.drop_first(), seq![])
    } else {
        tokens_from(s.drop_first(), cur.push(s[0]))
    }
}

/// The non-empty maximal runs of non-whitespace characters of `s`, in order.
pub open spec fn tokens(s: Seq<char>) -> Seq<Seq<char>> {
    tokens_from(s, seq![])
}

/// The character sequences held by a sequence of character vectors.
pub open spec fn views(v: Seq<Vec<char>>) -> Seq<Seq<char>> {
    v.map_values(|t: Vec<char>| t@)
}

/// The characters of a string slice, in order.
pub fn chars_of(s: &str) -> (r: Vec<char>)
    ensures
        r@ == s@,
{
    let n = s.unicode_len();
    let mut r: Vec<char> = Vec::new();
    let mut i: usize = 0;
    while i < n
        invariant
            n == s@.len(),
            i <= n,
            r@ == s@.take(i as int),
        decreases n - i,
    {
        r.push(s.get_char(i));
        i += 1;
        assert(r@ =~= s@.take(i as int));
    }
    assert(r@ =~= s@);
    r
}

/// Splits a line into its whitespace-separated tokens.
pub fn split_tokens(line: &str) -> (r: Vec<Vec<char>>)
    ensures
        views(r@) == tokens(line@),
{
    let s = chars_of(line);
    let mut out: Vec<Vec<char>> = Vec::new();
    let mut cur: Vec<char> = Vec::new();
    let mut i: usize = 0;
    assert(s@.skip(0) =~= s@);
    assert(views(out@) =~= seq![]);
    while i < s.len()
        invariant
            s@ == line@,
            i <= s@.len(),
            tokens(s@) == views(out@) + tokens_from(s@.skip(i as int), cur@),
        decreases s@.len() - i,
    {
        let c = s[i];
        let ghost rest = s@.skip(i as int);
        assert(rest[0] == c);
        assert(rest.drop_first() =~= s@.skip(i + 1));
        if is_whitespace_char(c) {
            let ghost before = views(out@);
            let ghost old_cur = cur@;
            if cur.len() > 0 {
                out.push(cur);
            }
            assert(views(out@) =~= before + flush_word(old_cur));
            cur = Vec::new();
            assert(cur@ =~= Seq::<char>::empty());
            assert(before + (flush_word(old_cur) + tokens_from(rest.drop_first(), seq![]))
                =~= (before + flush_word(old_cur)) + tokens_from(rest.drop_first(), seq![]));
        } else {
            cur.push(c);
        }
        i += 1;
    }
    let ghost before = views(out@);
    if cur.len() > 0 {
        out.push(cur);
    }
    assert(views(out@) =~= before + flush_word(cur@));
    assert(s@.skip(s@.len() as int) =~= seq![]);
    assert(tokens(s@) == views(out@));
    out
}

/// The tokens joined with one space between neighbours.
pub open spec fn join_spaced(ts: Seq<Seq<char>>) -> Seq<char>
    decreases ts.len(),
{
    if ts.len() == 0 {
        seq![]
    } else if ts.len() == 1 {
        ts[0]
    } else {
        join_spaced(ts.drop_last()) + seq![' '] + ts.last()
    }
}

/// A token: non-empty, without whitespace.
pub open spec fn is_token(t: Seq<char>) -> bool {
    t.len() > 0 && forall|i: int| 0 <= i < t.len() ==> !is_ws(#[trigger] t[i])
}

/// A space splits the scan in two.
pub proof fn lemma_tokens_space(s: Seq<char>, r: Seq<char>, cur: Seq<char>)
    ensures
        tokens_from(s + seq![' '] + r, cur) == tokens_from(s, cur) + tokens_from(r, seq![]),
    decreases s.len(),
{
    let whole = s + seq![' '] + r;
    if s.len() == 0 {
        assert(whole =~= seq![' '] + r);
        assert(whole.drop_first() =~= r);
        assert(tokens_from(s, cur) == flush_word(cur));
    } else {
        assert(whole[0] == s[0]);
        assert(whole.drop_first() =~= s.drop_first() + seq![' '] + r);
        if is_ws(s[0]) {
            lemma_tokens_space(s.drop_first(), r, seq![]);
            assert(flush_word(cur) + (tokens_from(s.drop_first(), seq![]) + tokens_from(r, seq![]))
                =~= (flush_word(cur) + tokens_from(s.drop_first(), seq![])) + tokens_from(r, seq![]));
        } else {
            lemma_tokens_space(s.drop_first(), r, cur.push(s[0]));
        }
    }
}

/// A token alone is one token.
pub proof fn lemma_tokens_word(t: Seq<char>, cur: Seq<char>)
    requires
        forall|i: int| 0 <= i < t.len() ==> !is_ws(#[trigger] t[i]),
    ensures
        tokens_from(t, cur) == flush_word(cur + t),
    decreases t.len(),
{
    if t.len() == 0 {
        assert(cur + t =~= cur);
    } else {
        let u = t.drop_first();
        assert forall|i: int| 0 <= i < u.len() implies !is_ws(#[trigger] u[i]) by {
            assert(u[i] == t[i + 1]);
        }
        lemma_tokens_word(u, cur.push(t[0]));
        assert(cur.push(t[0]) + u =~= cur + t);
    }
}

/// Tokens joined with single spaces split back into those tokens.
pub proof fn lemma_tokens_of_join(ts: Seq<Seq<char>>)
    requires
        forall|i: int| 0 <= i < ts.len() ==> is_token(#[trigger] ts[i]),
    ensures
        tokens(join_spaced(ts)) == ts,
    decreases ts.len(),
{
    if ts.len() == 1 {
        assert(is_token(ts[0]));
        lemma_tokens_word(ts[0], seq![]);
        assert(Seq::<char>::empty() + ts[0] =~= ts[0]);
        assert(flush_word(ts[0]) =~= ts);
    } else if ts.len() > 1 {
        let init = ts.drop_last();
        assert forall|i: int| 0 <= i < init.len() implies is_token(#[trigger] init[i]) by {
            assert(init[i] == ts[i]);
        }
        lemma_tokens_of_join(init);
        lemma_tokens_space(join_spaced(init), ts.last(), seq![]);
        assert(is_token(ts[ts.len() - 1]));
        lemma_tokens_word(ts.last(), seq![]);
        assert(Seq::<char>::empty() + ts.last() =~= ts.last());
        assert(init + seq![ts.last()] =~= ts);
    } else {
        assert(tokens(join_spaced(ts)) =~= ts);
    }
}

/// Every token of a line is a token: non-empty, without whitespace.
pub proof fn lemma_tokens_are_tokens(s: Seq<char>, cur: Seq<char>)
    requires
        forall|i: int| 0 <= i < cur.len() ==> !is_ws(#[trigger] cur[i]),
    ensures
        forall|j: int| 0 <= j < tokens_from(s, cur).len() ==> is_token(#[trigger] tokens_from(s, cur)[j]),
    decreases s.len(),
{
    if s.len() == 0 {
        if cur.len() > 0 {
            assert(is_token(cur));
            assert(tokens_from(s, cur) =~= seq![cur]);
        } else {
            assert(tokens_from(s, cur) =~= seq![]);
        }
    } else if is_ws(s[0]) {
        lemma_tokens_are_tokens(s.drop_first(), seq![]);
        if cur.len() > 0 {
            assert(is_token(cur));
        }
        let a = flush_word(cur);
        let b = tokens_from(s.drop_first(), seq![]);
        assert(tokens_from(s, cur) == a + b);
        assert forall|j: int| 0 <= j < (a + b).len() implies is_token(#[trigger] (a + b)[j]) by {
            if j < a.len() {
                assert((a + b)[j] == cur);
            } else {
                assert((a + b)[j] == b[j - a.len()]);
            }
        }
    } else {
        let c2 = cur.push(s[0]);
        assert forall|i: int| 0 <= i < c2.len() implies !is_ws(#[trigger] c2[i]) by {
            if i < cur.len() {
                assert(c2[i] == cur[i]);
            }
        }
        lemma_tokens_are_tokens(s.drop_first(), c2);
        assert(tokens_from(s, cur) == tokens_from(s.drop_first(), c2));
    }
}

/// Appends `t` to `out`.
pub fn append_chars(out: &mut Vec<char>, t: &Vec<char>)
    ensures
        final(out)@ == old(out)@ + t@,
{
    let mut i: usize = 0;
    while i < t.len()
        invariant
            i <= t@.len(),
            out@ == old(out)@ + t@.take(i as int),
        decreases t@.len() - i,
    {
        out.push(t[i]);
        i += 1;
        assert(out@ =~= old(out)@ + t@.take(i as int));
    }
    assert(t@.take(t@.len() as int) =~= t@);
}

/// Joins `ts[from..]` with single spaces.
pub fn join_tokens(ts: &Vec<Vec<char>>, from: usize) -> (r: Vec<char>)
    requires
        from <= ts@.len(),
    ensures
        r@ == join_spaced(views(ts@).skip(from as int)),
{
    let mut r: Vec<char> = Vec::new();
    let mut i: usize = from;
    assert(views(ts@).skip(from as int).take(0) =~= seq![]);
    while i < ts.len()
        invariant
            from <= i <= ts@.len(),
            r@ == join_spaced(views(ts@).skip(from as int).take(i - from)),
        decreases ts@.len() - i,
    {
        let ghost w = views(ts@).skip(from as int).take(i - from);
        let ghost w2 = views(ts@).skip(from as int).take(i + 1 - from);
        assert(w2.drop_last() =~= w);
        assert(w2.last() == ts@[i as int]@);
        if i > from {
            r.push(' ');
        } else {
            assert(w2 =~= seq![ts@[i as int]@]);
        }
        append_chars(&mut r, &ts[i]);
        i += 1;
    }
    assert(views(ts@).skip(from as int).take(ts@.len() - from) =~= views(ts@).skip(from as int));
    r
}

/// Relies on `String`'s `FromIterator<&char>`: the characters collected in order.
#[verifier::external_body]
pub(crate) fn string_from_chars(v: &Vec<char>) -> (r: String)
    ensures
        r@ == v@,
{
    v.iter().collect()
}

} // verus!
