//! The line-record codec: one object of string fields per line, in the
//! shape `{"key":"value",...}`. Quotes and backslashes inside a field
//! are escaped with a backslash; any other character stands for itself.
//! Parsing is exact: a line that is not one such object fails.

use vstd::prelude::*;
use crate::text::lemma_skip_shift;

verus! {

/// The escape of one character.
pub open spec fn esc_char(c: char) -> Seq<char> {
    if c == '"' || c == '\\' {
        seq!['\\', c]
    } else {
        seq![c]
    }
}

/// The escaped form of a field value.
pub open spec fn esc(s: Seq<char>) -> Seq<char>
    decreases s.len(),
{
    if s.len() == 0 {
        Seq::empty()
    } else {
        esc_char(s[0]) + esc(s.skip(1))
    }
}

/// A field value as a string literal: quoted and escaped.
pub open spec fn quoted(s: Seq<char>) -> Seq<char> {
    seq!['"'] + esc(s) + seq!['"']
}

/// Parses a string literal after its opening quote: the unescaped
/// content and the remainder after the closing quote.
pub open spec fn parse_str_body(s: Seq<char>) -> Option<(Seq<char>, Seq<char>)>
    decreases s.len(),
{
    if s.len() == 0 {
        None
    } else if s[0] == '"' {
        Some((Seq::empty(), s.skip(1)))
    } else if s[0] == '\\' {
        if s.len() >= 2 && (s[1] == '"' || s[1] == '\\') {
            match parse_str_body(s.skip(2)) {
                Some(p) => Some((seq![s[1]] + p.0, p.1)),
                None => None,
            }
        } else {
            None
        }
    } else {
        match parse_str_body(s.skip(1)) {
            Some(p) => Some((seq![s[0]] + p.0, p.1)),
            None => None,
        }
    }
}

/// Parses a string literal from its opening quote.
pub open spec fn parse_string(s: Seq<char>) -> Option<(Seq<char>, Seq<char>)> {
    if s.len() > 0 && s[0] == '"' {
        parse_str_body(s.skip(1))
    } else {
        None
    }
}

/// Parses one `"key":"value"` pair.
pub open spec fn parse_pair(s: Seq<char>) -> Option<((Seq<char>, Seq<char>), Seq<char>)> {
    match parse_string(s) {
        Some(kp) => if kp.1.len() > 0 && kp.1[0] == ':' {
            match parse_string(kp.1.skip(1)) {
                Some(vp) => Some(((kp.0, vp.0), vp.1)),
                None => None,
            }
        } else {
            None
        },
        None => None,
    }
}

/// Parses a comma-separated, non-empty run of pairs.
pub open spec fn parse_members(s: Seq<char>) -> Option<(Seq<(Seq<char>, Seq<char>)>, Seq<char>)>
    decreases s.len(),
{
    match parse_pair(s) {
        Some(pr) => if pr.1.len() > 0 && pr.1[0] == ',' {
            if pr.1.len() <= s.len() {
                match parse_members(pr.1.skip(1)) {
                    Some(mr) => Some((seq![pr.0] + mr.0, mr.1)),
                    None => None,
                }
            } else {
                None
            }
        } else {
            Some((seq![pr.0], pr.1))
        },
        None => None,
    }
}

/// Parses a whole line as one object of string fields, in order.
pub open spec fn parse_object(s: Seq<char>) -> Option<Seq<(Seq<char>, Seq<char>)>> {
    if s.len() >= 2 && s[0] == '{' {
        let r = s.skip(1);
        if r[0] == '}' {
            if r.len() == 1 {
                Some(Seq::empty())
            } else {
                None
            }
        } else {
            match parse_members(r) {
                Some(mr) => if mr.1.len() == 1 && mr.1[0] == '}' {
                    Some(mr.0)
                } else {
                    None
                },
                None => None,
            }
        }
    } else {
        None
    }
}

/// One serialized pair.
pub open spec fn ser_pair(kv: (Seq<char>, Seq<char>)) -> Seq<char> {
    quoted(kv.0) + seq![':'] + quoted(kv.1)
}

/// The serialized pairs, comma-separated.
pub open spec fn ser_members(kvs: Seq<(Seq<char>, Seq<char>)>) -> Seq<char>
    decreases kvs.len(),
{
    if kvs.len() == 0 {
        Seq::empty()
    } else if kvs.len() == 1 {
        ser_pair(kvs[0])
    } else {
        ser_pair(kvs[0]) + seq![','] + ser_members(kvs.skip(1))
    }
}

/// The serialized object.
pub open spec fn ser_object(kvs: Seq<(Seq<char>, Seq<char>)>) -> Seq<char> {
    seq!['{'] + ser_members(kvs) + seq!['}']
}

pub proof fn lemma_parse_str_body_round(s: Seq<char>, rest: Seq<char>)
    ensures
        parse_str_body(esc(s) + seq!['"'] + rest) == Some((s, rest)),
    decreases s.len(),
{
    let u = esc(s) + seq!['"'] + rest;
    if s.len() == 0 {
        assert(esc(s) =~= Seq::<char>::empty());
        assert(u =~= seq!['"'] + rest);
        assert(u[0] == '"');
        assert(u.skip(1) =~= rest);
    } else {
        let c = s[0];
        let tl = s.skip(1);
        assert(esc(s) == esc_char(c) + esc(tl));
        lemma_parse_str_body_round(tl, rest);
        if c == '"' || c == '\\' {
            assert(u[0] == '\\');
            assert(u[1] == c);
            assert(u.len() >= 2);
            assert(u.skip(2) =~= esc(tl) + seq!['"'] + rest);
            assert(parse_str_body(u) == Some((seq![c] + tl, rest)));
            assert(seq![c] + tl =~= s);
        } else {
            assert(u[0] == c);
            assert(u.skip(1) =~= esc(tl) + seq!['"'] + rest);
            assert(parse_str_body(u) == Some((seq![c] + tl, rest)));
            assert(seq![c] + tl =~= s);
        }
    }
}

pub proof fn lemma_parse_string_round(s: Seq<char>, rest: Seq<char>)
    ensures
        parse_string(quoted(s) + rest) == Some((s, rest)),
{
    let u = quoted(s) + rest;
    assert(u[0] == '"');
    assert(u.skip(1) =~= esc(s) + seq!['"'] + rest);
    lemma_parse_str_body_round(s, rest);
}

pub proof fn lemma_parse_pair_round(k: Seq<char>, v: Seq<char>, rest: Seq<char>)
    ensures
        parse_pair(ser_pair((k, v)) + rest) == Some(((k, v), rest)),
{
    let u = ser_pair((k, v)) + rest;
    let r1 = seq![':'] + quoted(v) + rest;
    assert(u =~= quoted(k) + r1);
    lemma_parse_string_round(k, r1);
    assert(r1[0] == ':');
    assert(r1.skip(1) =~= quoted(v) + rest);
    lemma_parse_string_round(v, rest);
}

pub proof fn lemma_parse_members_round(kvs: Seq<(Seq<char>, Seq<char>)>, tail: Seq<char>)
    requires
        kvs.len() >= 1,
        tail.len() > 0,
        tail[0] != ',',
    ensures
        parse_members(ser_members(kvs) + tail) == Some((kvs, tail)),
    decreases kvs.len(),
{
    let u = ser_members(kvs) + tail;
    if kvs.len() == 1 {
        assert(u =~= ser_pair(kvs[0]) + tail);
        lemma_parse_pair_round(kvs[0].0, kvs[0].1, tail);
        assert(kvs[0] == (kvs[0].0, kvs[0].1));
        assert(parse_pair(u) == Some((kvs[0], tail)));
        assert(seq![kvs[0]] =~= kvs);
    } else {
        let rest2 = ser_members(kvs.skip(1)) + tail;
        let r = seq![','] + rest2;
        assert(u =~= ser_pair(kvs[0]) + r);
        lemma_parse_pair_round(kvs[0].0, kvs[0].1, r);
        assert(kvs[0] == (kvs[0].0, kvs[0].1));
        assert(parse_pair(u) == Some((kvs[0], r)));
        assert(r[0] == ',');
        assert(r.len() <= u.len());
        assert(r.skip(1) =~= rest2);
        lemma_parse_members_round(kvs.skip(1), tail);
        assert(parse_members(u) == Some((seq![kvs[0]] + kvs.skip(1), tail)));
        assert(seq![kvs[0]] + kvs.skip(1) =~= kvs);
    }
}

proof fn lemma_ser_members_first(kvs: Seq<(Seq<char>, Seq<char>)>)
    requires
        kvs.len() >= 1,
    ensures
        ser_members(kvs).len() > 0,
        ser_members(kvs)[0] == '"',
{
    assert(ser_pair(kvs[0])[0] == '"') by {
        assert(quoted(kvs[0].0)[0] == '"');
    }
}

/// The codec round trip: parsing a serialized object yields exactly the
/// pairs that went in, for every sequence of pairs.
pub proof fn lemma_parse_object_round(kvs: Seq<(Seq<char>, Seq<char>)>)
    ensures
        parse_object(ser_object(kvs)) == Some(kvs),
{
    let u = ser_object(kvs);
    if kvs.len() == 0 {
        assert(ser_members(kvs) =~= Seq::<char>::empty());
        assert(u =~= seq!['{', '}']);
        assert(u[0] == '{');
        assert(u.skip(1) =~= seq!['}']);
        assert(u.skip(1)[0] == '}');
        assert(u.skip(1).len() == 1);
        assert(parse_object(u) == Some(Seq::<(Seq<char>, Seq<char>)>::empty()));
        assert(kvs =~= Seq::<(Seq<char>, Seq<char>)>::empty());
    } else {
        let r = ser_members(kvs) + seq!['}'];
        assert(u[0] == '{');
        assert(u.skip(1) =~= r);
        lemma_ser_members_first(kvs);
        assert(r[0] == '"');
        lemma_parse_members_round(kvs, seq!['}']);
        assert(parse_members(r) == Some((kvs, seq!['}'])));
    }
}

/// The views of a vector of string pairs.
pub open spec fn pairs_view(s: Seq<(String, String)>) -> Seq<(Seq<char>, Seq<char>)> {
    s.map_values(|p: (String, String)| (p.0@, p.1@))
}

/// No character is a line break, so the text can stand on one line.
pub open spec fn nl_free(s: Seq<char>) -> bool {
    forall|j: int| 0 <= j < s.len() ==> s[j] != '\n'
}

pub proof fn lemma_nl_free_concat(a: Seq<char>, b: Seq<char>)
    ensures
        nl_free(a + b) == (nl_free(a) && nl_free(b)),
{
    if nl_free(a) && nl_free(b) {
        assert forall|j: int| 0 <= j < (a + b).len() implies (a + b)[j] != '\n' by {
            if j < a.len() {
                assert((a + b)[j] == a[j]);
            } else {
                assert((a + b)[j] == b[j - a.len()]);
            }
        }
    }
    if nl_free(a + b) {
        assert forall|j: int| 0 <= j < a.len() implies a[j] != '\n' by {
            assert((a + b)[j] == a[j]);
        }
        assert forall|j: int| 0 <= j < b.len() implies b[j] != '\n' by {
            assert((a + b)[j + a.len()] == b[j]);
        }
    }
}

pub proof fn lemma_esc_nl_free(s: Seq<char>)
    requires
        nl_free(s),
    ensures
        nl_free(esc(s)),
    decreases s.len(),
{
    if s.len() > 0 {
        assert(nl_free(s.skip(1)));
        lemma_esc_nl_free(s.skip(1));
        assert(nl_free(esc_char(s[0])));
        lemma_nl_free_concat(esc_char(s[0]), esc(s.skip(1)));
    }
}

pub proof fn lemma_quoted_nl_free(s: Seq<char>)
    requires
        nl_free(s),
    ensures
        nl_free(quoted(s)),
{
    lemma_esc_nl_free(s);
    assert(nl_free(seq!['"']));
    lemma_nl_free_concat(seq!['"'], esc(s));
    lemma_nl_free_concat(seq!['"'] + esc(s), seq!['"']);
}

pub proof fn lemma_ser_pair_nl_free(kv: (Seq<char>, Seq<char>))
    requires
        nl_free(kv.0),
        nl_free(kv.1),
    ensures
        nl_free(ser_pair(kv)),
{
    lemma_quoted_nl_free(kv.0);
    lemma_quoted_nl_free(kv.1);
    assert(nl_free(seq![':']));
    lemma_nl_free_concat(quoted(kv.0), seq![':']);
    lemma_nl_free_concat(quoted(kv.0) + seq![':'], quoted(kv.1));
}

pub proof fn lemma_ser_members_nl_free(kvs: Seq<(Seq<char>, Seq<char>)>)
    requires
        forall|m: int| 0 <= m < kvs.len() ==> nl_free((#[trigger] kvs[m]).0) && nl_free(kvs[m].1),
    ensures
        nl_free(ser_members(kvs)),
    decreases kvs.len(),
{
    if kvs.len() == 0 {
    } else if kvs.len() == 1 {
        lemma_ser_pair_nl_free(kvs[0]);
    } else {
        lemma_ser_pair_nl_free(kvs[0]);
        assert(forall|m: int|
            0 <= m < kvs.skip(1).len() ==> nl_free((#[trigger] kvs.skip(1)[m]).0) && nl_free(
                kvs.skip(1)[m].1,
            ));
        lemma_ser_members_nl_free(kvs.skip(1));
        assert(nl_free(seq![',']));
        lemma_nl_free_concat(ser_pair(kvs[0]), seq![',']);
        lemma_nl_free_concat(ser_pair(kvs[0]) + seq![','], ser_members(kvs.skip(1)));
    }
}

pub proof fn lemma_ser_object_nl_free(kvs: Seq<(Seq<char>, Seq<char>)>)
    requires
        forall|m: int| 0 <= m < kvs.len() ==> nl_free((#[trigger] kvs[m]).0) && nl_free(kvs[m].1),
    ensures
        nl_free(ser_object(kvs)),
{
    lemma_ser_members_nl_free(kvs);
    assert(nl_free(seq!['{']));
    assert(nl_free(seq!['}']));
    lemma_nl_free_concat(seq!['{'], ser_members(kvs));
    lemma_nl_free_concat(seq!['{'] + ser_members(kvs), seq!['}']);
}

pub proof fn lemma_esc_snoc(a: Seq<char>, c: char)
    ensures
        esc(a.push(c)) == esc(a) + esc_char(c),
    decreases a.len(),
{
    if a.len() == 0 {
        assert(a.push(c)[0] == c);
        assert(a.push(c).skip(1) =~= Seq::<char>::empty());
        assert(esc(a.push(c)) == esc_char(c) + esc(Seq::<char>::empty()));
        assert(esc_char(c) + Seq::<char>::empty() =~= Seq::<char>::empty() + esc_char(c));
    } else {
        assert(a.push(c)[0] == a[0]);
        assert(a.push(c).skip(1) =~= a.skip(1).push(c));
        lemma_esc_snoc(a.skip(1), c);
        assert(esc(a.push(c)) == esc_char(a[0]) + (esc(a.skip(1)) + esc_char(c)));
        assert(esc_char(a[0]) + (esc(a.skip(1)) + esc_char(c)) =~= (esc_char(a[0]) + esc(
            a.skip(1),
        )) + esc_char(c));
    }
}

/// Appends the quoted, escaped form of `s`.
pub fn push_quoted(out: &mut Vec<char>, s: &String) -> (u: ())
    ensures
        final(out)@ == old(out)@ + quoted(s@),
{
    let ghost base = out@;
    out.push('"');
    let cs = crate::text::chars_of_str(s.as_str());
    let mut m: usize = 0;
    proof {
        assert(esc(s@.take(0)) =~= Seq::<char>::empty());
        assert(out@ =~= base + seq!['"'] + esc(s@.take(0)));
    }
    while m < cs.len()
        invariant
            m <= cs@.len(),
            cs@ == s@,
            out@ == base + seq!['"'] + esc(s@.take(m as int)),
        decreases cs@.len() - m,
    {
        let c = cs[m];
        proof {
            assert(s@.take((m + 1) as int) =~= s@.take(m as int).push(c));
            lemma_esc_snoc(s@.take(m as int), c);
        }
        if c == '"' || c == '\\' {
            out.push('\\');
            out.push(c);
            proof {
                assert(esc_char(c) =~= seq!['\\', c]);
                assert(out@ =~= base + seq!['"'] + esc(s@.take((m + 1) as int)));
            }
        } else {
            out.push(c);
            proof {
                assert(esc_char(c) =~= seq![c]);
                assert(out@ =~= base + seq!['"'] + esc(s@.take((m + 1) as int)));
            }
        }
        m += 1;
    }
    proof {
        assert(s@.take(s@.len() as int) =~= s@);
    }
    out.push('"');
    proof {
        assert(out@ =~= base + quoted(s@));
    }
}

/// Appends one serialized `"key":"value"` pair.
pub fn push_pair_chars(out: &mut Vec<char>, k: &String, v: &String) -> (u: ())
    ensures
        final(out)@ == old(out)@ + ser_pair((k@, v@)),
{
    let ghost base = out@;
    push_quoted(out, k);
    out.push(':');
    push_quoted(out, v);
    proof {
        assert(out@ =~= base + ser_pair((k@, v@)));
    }
}

fn exec_parse_str_body(cs: &Vec<char>, i: usize) -> (r: Option<(Vec<char>, usize)>)
    requires
        i <= cs@.len(),
    ensures
        match r {
            Some(p) => i < p.1 <= cs@.len() && parse_str_body(cs@.skip(i as int)) == Some(
                (p.0@, cs@.skip(p.1 as int)),
            ),
            None => parse_str_body(cs@.skip(i as int)) is None,
        },
    decreases cs@.len() - i,
{
    if i == cs.len() {
        proof {
            assert(cs@.skip(i as int) =~= Seq::<char>::empty());
        }
        return None;
    }
    let c = cs[i];
    proof {
        lemma_skip_shift(cs@, i as int);
    }
    if c == '"' {
        let out: Vec<char> = Vec::new();
        proof {
            assert(out@ =~= Seq::<char>::empty());
        }
        Some((out, i + 1))
    } else if c == '\\' {
        if i + 1 < cs.len() {
            let c2 = cs[i + 1];
            proof {
                assert(cs@.skip(i as int)[1] == cs@[(i + 1) as int]);
                assert(cs@.skip(i as int).skip(2) =~= cs@.skip((i + 2) as int));
            }
            if c2 == '"' || c2 == '\\' {
                match exec_parse_str_body(cs, i + 2) {
                    Some(p) => {
                        let (t, j) = p;
                        let mut t2 = t;
                        t2.insert(0, c2);
                        proof {
                            assert(t2@ =~= seq![c2] + t2@.skip(1));
                            assert(t2@.skip(1) =~= t2@.remove(0));
                        }
                        Some((t2, j))
                    },
                    None => None,
                }
            } else {
                None
            }
        } else {
            proof {
                assert(cs@.skip(i as int).len() == 1);
            }
            None
        }
    } else {
        match exec_parse_str_body(cs, i + 1) {
            Some(p) => {
                let (t, j) = p;
                let mut t2 = t;
                t2.insert(0, c);
                proof {
                    assert(t2@ =~= seq![c] + t2@.skip(1));
                    assert(t2@.skip(1) =~= t2@.remove(0));
                }
                Some((t2, j))
            },
            None => None,
        }
    }
}

fn exec_parse_string(cs: &Vec<char>, i: usize) -> (r: Option<(Vec<char>, usize)>)
    requires
        i <= cs@.len(),
    ensures
        match r {
            Some(p) => i < p.1 <= cs@.len() && parse_string(cs@.skip(i as int)) == Some(
                (p.0@, cs@.skip(p.1 as int)),
            ),
            None => parse_string(cs@.skip(i as int)) is None,
        },
{
    if i < cs.len() {
        proof {
            lemma_skip_shift(cs@, i as int);
        }
        if cs[i] == '"' {
            exec_parse_string_body_from(cs, i)
        } else {
            None
        }
    } else {
        proof {
            assert(cs@.skip(i as int) =~= Seq::<char>::empty());
        }
        None
    }
}

fn exec_parse_string_body_from(cs: &Vec<char>, i: usize) -> (r: Option<(Vec<char>, usize)>)
    requires
        i < cs@.len(),
        cs@[i as int] == '"',
    ensures
        match r {
            Some(p) => i < p.1 <= cs@.len() && parse_str_body(cs@.skip((i + 1) as int)) == Some(
                (p.0@, cs@.skip(p.1 as int)),
            ),
            None => parse_str_body(cs@.skip((i + 1) as int)) is None,
        },
{
    let n = cs.len();
    exec_parse_str_body(cs, i + 1)
}

fn exec_parse_pair(cs: &Vec<char>, i: usize) -> (r: Option<((String, String), usize)>)
    requires
        i <= cs@.len(),
    ensures
        match r {
            Some(p) => i < p.1 <= cs@.len() && parse_pair(cs@.skip(i as int)) == Some(
                ((p.0.0@, p.0.1@), cs@.skip(p.1 as int)),
            ),
            None => parse_pair(cs@.skip(i as int)) is None,
        },
{
    match exec_parse_string(cs, i) {
        Some(kp) => {
            let (kchars, j1) = kp;
            if j1 < cs.len() {
                proof {
                    lemma_skip_shift(cs@, j1 as int);
                }
                if cs[j1] == ':' {
                    match exec_parse_string(cs, j1 + 1) {
                        Some(vp) => {
                            let (vchars, j2) = vp;
                            let k = crate::text::string_of_chars(&kchars);
                            let v = crate::text::string_of_chars(&vchars);
                            Some(((k, v), j2))
                        },
                        None => None,
                    }
                } else {
                    None
                }
            } else {
                proof {
                    assert(cs@.skip(j1 as int) =~= Seq::<char>::empty());
                }
                None
            }
        },
        None => None,
    }
}

fn exec_parse_members(cs: &Vec<char>, i: usize) -> (r: Option<(Vec<(String, String)>, usize)>)
    requires
        i <= cs@.len(),
    ensures
        match r {
            Some(p) => i < p.1 <= cs@.len() && parse_members(cs@.skip(i as int)) == Some(
                (pairs_view(p.0@), cs@.skip(p.1 as int)),
            ),
            None => parse_members(cs@.skip(i as int)) is None,
        },
    decreases cs@.len() - i,
{
    match exec_parse_pair(cs, i) {
        Some(pr) => {
            let (kv, j) = pr;
            if j < cs.len() {
                proof {
                    lemma_skip_shift(cs@, j as int);
                }
                if cs[j] == ',' {
                    match exec_parse_members(cs, j + 1) {
                        Some(mr) => {
                            let (rest, j2) = mr;
                            let mut out = rest;
                            out.insert(0, kv);
                            proof {
                                assert(out@ =~= seq![out@[0]] + out@.skip(1));
                                assert(out@.skip(1) =~= out@.remove(0));
                                assert(pairs_view(out@) =~= seq![(out@[0].0@, out@[0].1@)]
                                    + pairs_view(out@.skip(1)));
                            }
                            Some((out, j2))
                        },
                        None => None,
                    }
                } else {
                    let mut out: Vec<(String, String)> = Vec::new();
                    out.push(kv);
                    proof {
                        assert(pairs_view(out@) =~= seq![(out@[0].0@, out@[0].1@)]);
                    }
                    Some((out, j))
                }
            } else {
                let mut out: Vec<(String, String)> = Vec::new();
                out.push(kv);
                proof {
                    assert(cs@.skip(j as int) =~= Seq::<char>::empty());
                    assert(pairs_view(out@) =~= seq![(out@[0].0@, out@[0].1@)]);
                }
                Some((out, j))
            }
        },
        None => None,
    }
}

/// Parses one line as an object of string fields, in order. `None` when
/// the line is not exactly one such object.
pub fn parse_object_line(cs: &Vec<char>) -> (r: Option<Vec<(String, String)>>)
    ensures
        match r {
            Some(pairs) => parse_object(cs@) == Some(pairs_view(pairs@)),
            None => parse_object(cs@) is None,
        },
{
    proof {
        assert(cs@.skip(0) =~= cs@);
    }
    if cs.len() >= 2 && cs[0] == '{' {
        proof {
            lemma_skip_shift(cs@, 0);
            assert(cs@.skip(1)[0] == cs@[1]);
        }
        if cs[1] == '}' {
            if cs.len() == 2 {
                let out: Vec<(String, String)> = Vec::new();
                proof {
                    assert(pairs_view(out@) =~= Seq::<(Seq<char>, Seq<char>)>::empty());
                }
                Some(out)
            } else {
                None
            }
        } else {
            match exec_parse_members(cs, 1) {
                Some(mr) => {
                    let (pairs, j) = mr;
                    if j == cs.len() - 1 {
                        proof {
                            lemma_skip_shift(cs@, j as int);
                        }
                        if cs[j] == '}' {
                            proof {
                                assert(cs@.skip(j as int).len() == 1);
                                assert(cs@.skip(j as int)[0] == '}');
                            }
                            Some(pairs)
                        } else {
                            None
                        }
                    } else {
                        proof {
                            if j < cs@.len() {
                                assert(cs@.skip(j as int).len() != 1);
                            } else {
                                assert(cs@.skip(j as int).len() == 0);
                            }
                        }
                        None
                    }
                },
                None => None,
            }
        }
    } else {
        None
    }
}

} // verus!
