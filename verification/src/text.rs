//! Character classification, lower-casing and tokenization.
//!
//! Keywords are derived from a product's identity text by splitting on
//! whitespace; listing titles are split on spaces and forward slashes.
//! Both are lower-cased first. Tokens are the maximal non-separator runs,
//! in order, with empty runs dropped.

use vstd::prelude::*;

verus! {

/// Characters that separate keywords inside a product's identity text.
pub open spec fn is_ws(c: char) -> bool {
    c == ' ' || c == '\t' || c == '\r' || c == '\n'
}

/// Characters that separate tokens inside a listing's title.
pub open spec fn is_title_sep(c: char) -> bool {
    c == ' ' || c == '/'
}

/// A line break, for splitting record streams.
pub open spec fn is_nl(c: char) -> bool {
    c == '\n'
}

/// Which separator class a split uses.
#[derive(Clone, Copy)]
pub enum SepMode {
    Whitespace,
    Title,
    Line,
}

/// The separator class selected by `mode`.
pub open spec fn sep_of(mode: SepMode) -> spec_fn(char) -> bool {
    match mode {
        SepMode::Whitespace => |c: char| is_ws(c),
        SepMode::Title => |c: char| is_title_sep(c),
        SepMode::Line => |c: char| is_nl(c),
    }
}

pub open spec fn is_upper(c: char) -> bool {
    'A' <= c && c <= 'Z'
}

/// ASCII lower-casing of one character: `A`..`Z` map to `a`..`z`,
/// everything else is unchanged.
pub open spec fn lower_char(c: char) -> char {
    if is_upper(c) {
        ((c as u32) + 32) as char
    } else {
        c
    }
}

/// ASCII lower-casing of a character sequence.
pub open spec fn lower(s: Seq<char>) -> Seq<char> {
    s.map_values(|c: char| lower_char(c))
}

/// The view of each string in a sequence of strings.
pub open spec fn strs_of(ss: Seq<String>) -> Seq<Seq<char>> {
    ss.map_values(|s: String| s@)
}

/// A partial token becomes a singleton token list when non-empty.
pub open spec fn emit(cur: Seq<char>) -> Seq<Seq<char>> {
    if cur.len() == 0 {
        Seq::empty()
    } else {
        seq![cur]
    }
}

/// The tokens of `cur + rest`, where `cur` is a partial token already
/// read: maximal runs of non-separator characters, in order.
pub open spec fn tokens_acc(sep: spec_fn(char) -> bool, cur: Seq<char>, rest: Seq<char>) -> Seq<
    Seq<char>,
>
    decreases rest.len(),
{
    if rest.len() == 0 {
        emit(cur)
    } else if sep(rest[0]) {
        emit(cur) + tokens_acc(sep, Seq::empty(), rest.skip(1))
    } else {
        tokens_acc(sep, cur.push(rest[0]), rest.skip(1))
    }
}

/// The token sequence of `s`.
pub open spec fn tokens(sep: spec_fn(char) -> bool, s: Seq<char>) -> Seq<Seq<char>> {
    tokens_acc(sep, Seq::empty(), s)
}

pub proof fn lemma_skip_shift<A>(s: Seq<A>, i: int)
    requires
        0 <= i < s.len(),
    ensures
        s.skip(i).len() == s.len() - i,
        s.skip(i)[0] == s[i],
        s.skip(i).skip(1) == s.skip(i + 1),
    decreases s.len(),
{
    assert(s.skip(i).skip(1) =~= s.skip(i + 1));
}

pub proof fn lemma_strs_of_push(ss: Seq<String>, x: String)
    ensures
        strs_of(ss.push(x)) == strs_of(ss).push(x@),
{
    assert(strs_of(ss.push(x)) =~= strs_of(ss).push(x@));
}

/// Every token is a non-empty run free of separator characters, given
/// that the partial token read so far is separator-free.
pub proof fn lemma_tokens_acc_shape(sep: spec_fn(char) -> bool, cur: Seq<char>, rest: Seq<char>)
    requires
        forall|j: int| 0 <= j < cur.len() ==> !sep(cur[j]),
    ensures
        forall|k: int|
            0 <= k < tokens_acc(sep, cur, rest).len() ==> (#[trigger] tokens_acc(sep, cur, rest)[k]).len() > 0
                && (forall|j: int|
                0 <= j < tokens_acc(sep, cur, rest)[k].len() ==> !sep(
                    tokens_acc(sep, cur, rest)[k][j],
                )),
    decreases rest.len(),
{
    if rest.len() == 0 {
    } else if sep(rest[0]) {
        lemma_tokens_acc_shape(sep, Seq::empty(), rest.skip(1));
        let r = tokens_acc(sep, cur, rest);
        let tail = tokens_acc(sep, Seq::empty(), rest.skip(1));
        assert(r == emit(cur) + tail);
        assert forall|k: int| 0 <= k < r.len() implies (#[trigger] r[k]).len() > 0 && (forall|
            j: int,
        |
            0 <= j < r[k].len() ==> !sep(r[k][j])) by {
            if k < emit(cur).len() {
                assert(r[k] == cur);
            } else {
                assert(r[k] == tail[k - emit(cur).len()]);
            }
        }
    } else {
        let cur2 = cur.push(rest[0]);
        assert(forall|j: int| 0 <= j < cur2.len() ==> !sep(cur2[j]));
        lemma_tokens_acc_shape(sep, cur2, rest.skip(1));
        assert(tokens_acc(sep, cur, rest) == tokens_acc(sep, cur2, rest.skip(1)));
    }
}

/// Every character of every token satisfies `p` when every character of
/// the partial token and of the remaining input does.
pub proof fn lemma_tokens_acc_chars(
    sep: spec_fn(char) -> bool,
    p: spec_fn(char) -> bool,
    cur: Seq<char>,
    rest: Seq<char>,
)
    requires
        forall|j: int| 0 <= j < cur.len() ==> p(cur[j]),
        forall|j: int| 0 <= j < rest.len() ==> p(rest[j]),
    ensures
        forall|k: int, j: int|
            0 <= k < tokens_acc(sep, cur, rest).len() && 0 <= j < tokens_acc(sep, cur, rest)[k].len()
                ==> p(#[trigger] tokens_acc(sep, cur, rest)[k][j]),
    decreases rest.len(),
{
    if rest.len() == 0 {
    } else {
        assert(forall|j: int| 0 <= j < rest.skip(1).len() ==> p(rest.skip(1)[j]));
        if sep(rest[0]) {
            lemma_tokens_acc_chars(sep, p, Seq::empty(), rest.skip(1));
            let r = tokens_acc(sep, cur, rest);
            let tail = tokens_acc(sep, Seq::empty(), rest.skip(1));
            assert(r == emit(cur) + tail);
            assert forall|k: int, j: int|
                0 <= k < r.len() && 0 <= j < r[k].len() implies p(#[trigger] r[k][j]) by {
                if k < emit(cur).len() {
                    assert(r[k] == cur);
                } else {
                    assert(r[k] == tail[k - emit(cur).len()]);
                }
            }
        } else {
            let cur2 = cur.push(rest[0]);
            assert(forall|j: int| 0 <= j < cur2.len() ==> p(cur2[j]));
            lemma_tokens_acc_chars(sep, p, cur2, rest.skip(1));
            assert(tokens_acc(sep, cur, rest) == tokens_acc(sep, cur2, rest.skip(1)));
        }
    }
}

/// Splitting around one separator: the tokens of `cur + t`, then the
/// tokens of the rest.
pub proof fn lemma_tokens_acc_concat(
    sep: spec_fn(char) -> bool,
    cur: Seq<char>,
    t: Seq<char>,
    c: char,
    rest: Seq<char>,
)
    requires
        forall|j: int| 0 <= j < t.len() ==> !sep(t[j]),
        sep(c),
    ensures
        tokens_acc(sep, cur, t + seq![c] + rest) == emit(cur + t) + tokens_acc(
            sep,
            Seq::empty(),
            rest,
        ),
    decreases t.len(),
{
    let u = t + seq![c] + rest;
    if t.len() == 0 {
        assert(u =~= seq![c] + rest);
        assert(u[0] == c);
        assert(u.skip(1) =~= rest);
        assert(cur + t =~= cur);
    } else {
        assert(u[0] == t[0]);
        assert(!sep(u[0]));
        assert(u.skip(1) =~= t.skip(1) + seq![c] + rest);
        assert(forall|j: int| 0 <= j < t.skip(1).len() ==> !sep(t.skip(1)[j]));
        lemma_tokens_acc_concat(sep, cur.push(t[0]), t.skip(1), c, rest);
        assert(cur.push(t[0]) + t.skip(1) =~= cur + t);
    }
}

/// Relies on String::push: appends the one given character at the end.
#[verifier::external_body]
fn push_char(s: &mut String, c: char)
    ensures
        final(s)@ == old(s)@.push(c),
{
    s.push(c);
}

pub fn string_of_chars(v: &Vec<char>) -> (s: String)
    ensures
        s@ == v@,
{
    let mut s = String::new();
    let mut i: usize = 0;
    while i < v.len()
        invariant
            i <= v.len(),
            s@ == v@.take(i as int),
        decreases v.len() - i,
    {
        push_char(&mut s, v[i]);
        proof {
            assert(v@.take((i + 1) as int) =~= v@.take(i as int).push(v@[i as int]));
        }
        i += 1;
    }
    proof {
        assert(v@.take(v.len() as int) =~= v@);
    }
    s
}

pub fn chars_of_str(s: &str) -> (v: Vec<char>)
    ensures
        v@ == s@,
{
    let n = s.unicode_len();
    let mut v: Vec<char> = Vec::new();
    let mut i: usize = 0;
    while i < n
        invariant
            i <= n,
            n == s@.len(),
            v@ == s@.take(i as int),
        decreases n - i,
    {
        let c = s.get_char(i);
        v.push(c);
        proof {
            assert(s@.take((i + 1) as int) =~= s@.take(i as int).push(s@[i as int]));
        }
        i += 1;
    }
    proof {
        assert(s@.take(n as int) =~= s@);
    }
    v
}

fn lower_char_exec(c: char) -> (r: char)
    ensures
        r == lower_char(c),
{
    match c {
        'A' => 'a',
        'B' => 'b',
        'C' => 'c',
        'D' => 'd',
        'E' => 'e',
        'F' => 'f',
        'G' => 'g',
        'H' => 'h',
        'I' => 'i',
        'J' => 'j',
        'K' => 'k',
        'L' => 'l',
        'M' => 'm',
        'N' => 'n',
        'O' => 'o',
        'P' => 'p',
        'Q' => 'q',
        'R' => 'r',
        'S' => 's',
        'T' => 't',
        'U' => 'u',
        'V' => 'v',
        'W' => 'w',
        'X' => 'x',
        'Y' => 'y',
        'Z' => 'z',
        _ => c,
    }
}

pub fn lower_chars(v: &Vec<char>) -> (r: Vec<char>)
    ensures
        r@ == lower(v@),
{
    let mut r: Vec<char> = Vec::new();
    let mut i: usize = 0;
    while i < v.len()
        invariant
            i <= v.len(),
            r@ == lower(v@.take(i as int)),
        decreases v.len() - i,
    {
        r.push(lower_char_exec(v[i]));
        proof {
            assert(lower(v@.take((i + 1) as int)) =~= lower(v@.take(i as int)).push(
                lower_char(v@[i as int]),
            ));
        }
        i += 1;
    }
    proof {
        assert(lower(v@.take(v.len() as int)) =~= lower(v@));
    }
    r
}

/// ASCII lower-casing of a string.
pub fn lower_string(s: &str) -> (r: String)
    ensures
        r@ == lower(s@),
{
    let cs = chars_of_str(s);
    let lc = lower_chars(&cs);
    string_of_chars(&lc)
}

fn is_sep_exec(mode: SepMode, c: char) -> (b: bool)
    ensures
        b == sep_of(mode)(c),
{
    match mode {
        SepMode::Whitespace => c == ' ' || c == '\t' || c == '\r' || c == '\n',
        SepMode::Title => c == ' ' || c == '/',
        SepMode::Line => c == '\n',
    }
}

/// Splits `s` into its tokens: maximal runs of non-separator characters,
/// in input order, with empty runs dropped.
pub fn tokenize(s: &str, mode: SepMode) -> (toks: Vec<String>)
    ensures
        strs_of(toks@) == tokens(sep_of(mode), s@),
{
    let cs = chars_of_str(s);
    let ghost sep = sep_of(mode);
    let mut toks: Vec<String> = Vec::new();
    let mut cur: Vec<char> = Vec::new();
    let mut i: usize = 0;
    proof {
        assert(cs@.skip(0) =~= cs@);
        assert(strs_of(toks@) + tokens_acc(sep, cur@, cs@) =~= tokens_acc(sep, cur@, cs@));
        assert(cur@ =~= Seq::<char>::empty());
    }
    while i < cs.len()
        invariant
            i <= cs.len(),
            cs@ == s@,
            sep == sep_of(mode),
            strs_of(toks@) + tokens_acc(sep, cur@, cs@.skip(i as int)) == tokens(sep, s@),
        decreases cs.len() - i,
    {
        let c = cs[i];
        proof {
            lemma_skip_shift(cs@, i as int);
        }
        let ghost prev_toks = toks@;
        let ghost prev_cur = cur@;
        if is_sep_exec(mode, c) {
            if cur.len() > 0 {
                let t = string_of_chars(&cur);
                toks.push(t);
                cur = Vec::new();
                proof {
                    lemma_strs_of_push(prev_toks, t);
                    assert(tokens_acc(sep, prev_cur, cs@.skip(i as int)) == emit(prev_cur)
                        + tokens_acc(sep, Seq::empty(), cs@.skip((i + 1) as int)));
                    assert(strs_of(toks@) + tokens_acc(sep, cur@, cs@.skip((i + 1) as int)) =~= (
                    strs_of(prev_toks) + emit(prev_cur)) + tokens_acc(
                        sep,
                        Seq::empty(),
                        cs@.skip((i + 1) as int),
                    ));
                    assert((strs_of(prev_toks) + emit(prev_cur)) + tokens_acc(
                        sep,
                        Seq::empty(),
                        cs@.skip((i + 1) as int),
                    ) =~= strs_of(prev_toks) + (emit(prev_cur) + tokens_acc(
                        sep,
                        Seq::empty(),
                        cs@.skip((i + 1) as int),
                    )));
                }
            } else {
                proof {
                    assert(emit(prev_cur) + tokens_acc(sep, Seq::empty(), cs@.skip((i + 1) as int))
                        =~= tokens_acc(sep, Seq::empty(), cs@.skip((i + 1) as int)));
                    assert(cur@ =~= Seq::<char>::empty());
                }
            }
        } else {
            cur.push(c);
            proof {
                assert(tokens_acc(sep, prev_cur, cs@.skip(i as int)) == tokens_acc(
                    sep,
                    prev_cur.push(c),
                    cs@.skip((i + 1) as int),
                ));
            }
        }
        i += 1;
    }
    proof {
        assert(cs@.skip(cs@.len() as int) =~= Seq::<char>::empty());
    }
    if cur.len() > 0 {
        let t = string_of_chars(&cur);
        let ghost prev_toks = toks@;
        toks.push(t);
        proof {
            lemma_strs_of_push(prev_toks, t);
            assert(strs_of(toks@) =~= strs_of(prev_toks) + emit(cur@));
        }
    } else {
        proof {
            assert(strs_of(toks@) =~= strs_of(toks@) + emit(cur@));
        }
    }
    toks
}

} // verus!
