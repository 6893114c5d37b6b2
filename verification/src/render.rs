use vstd::prelude::*;
use crate::error::Error;
use crate::resolver::{pget, Precedence};
use crate::text::{chars_to_string, str_to_chars, sub_chars, trim_chars, trim_seq};
use crate::workflow::WorkflowCommand;

verus! {

/// A value is escaped before substitution: each single quote gets a
/// backslash in front, so the value cannot break shell quoting.
pub open spec fn escape_seq(v: Seq<char>) -> Seq<char>
    decreases v.len(),
{
    if v.len() == 0 {
        Seq::empty()
    } else {
        (if v[0] == '\'' {
            seq!['\\', '\'']
        } else {
            seq![v[0]]
        }) + escape_seq(v.drop_first())
    }
}

/// Escaping one more character appends its escape.
pub proof fn lemma_escape_push(v: Seq<char>, c: char)
    ensures
        escape_seq(v.push(c)) == escape_seq(v) + (if c == '\'' {
            seq!['\\', '\'']
        } else {
            seq![c]
        }),
    decreases v.len(),
{
    let unit = if c == '\'' {
        seq!['\\', '\'']
    } else {
        seq![c]
    };
    if v.len() == 0 {
        assert(v.push(c)[0] == c);
        assert(v.push(c).drop_first() =~= Seq::<char>::empty());
        assert(escape_seq(Seq::<char>::empty()) == Seq::<char>::empty());
        assert(escape_seq(v.push(c)) == unit + Seq::<char>::empty());
        assert(unit + Seq::<char>::empty() =~= unit);
        assert(escape_seq(v) + unit =~= unit);
    } else {
        assert(v.push(c)[0] == v[0]);
        assert(v.push(c).drop_first() =~= v.drop_first().push(c));
        lemma_escape_push(v.drop_first(), c);
        let h = if v[0] == '\'' {
            seq!['\\', '\'']
        } else {
            seq![v[0]]
        };
        assert(escape_seq(v.push(c)) == h + (escape_seq(v.drop_first()) + unit));
        assert(h + (escape_seq(v.drop_first()) + unit) =~= (h + escape_seq(v.drop_first()))
            + unit);
    }
}

/// Escape every single quote of a value.
pub fn escape_chars(v: &Vec<char>) -> (r: Vec<char>)
    ensures
        r@ == escape_seq(v@),
{
    let mut r: Vec<char> = Vec::new();
    let mut i: usize = 0;
    proof {
        assert(v@.subrange(0, 0) =~= Seq::<char>::empty());
    }
    while i < v.len()
        invariant
            i <= v@.len(),
            r@ == escape_seq(v@.subrange(0, i as int)),
        decreases v@.len() - i,
    {
        let c = v[i];
        if c == '\'' {
            r.push('\\');
            r.push('\'');
        } else {
            r.push(c);
        }
        i += 1;
        proof {
            assert(v@.subrange(0, i as int) =~= v@.subrange(0, i - 1).push(v@[i - 1]));
            lemma_escape_push(v@.subrange(0, i - 1), v@[i - 1]);
        }
    }
    proof {
        assert(v@.subrange(0, v@.len() as int) =~= v@);
    }
    r
}

/// The position of the first occurrence of the two-character token `c0 c1`,
/// or at least `s.len() - 1` when there is none.
pub open spec fn first_pair(s: Seq<char>, c0: char, c1: char) -> int
    decreases s.len(),
{
    if s.len() < 2 {
        s.len() as int
    } else if s[0] == c0 && s[1] == c1 {
        0
    } else {
        1 + first_pair(s.drop_first(), c0, c1)
    }
}

pub proof fn lemma_first_pair(s: Seq<char>, c0: char, c1: char)
    ensures
        0 <= first_pair(s, c0, c1) <= s.len(),
        forall|j: int|
            0 <= j < first_pair(s, c0, c1) && j + 1 < s.len() ==> !(#[trigger] s[j] == c0 && s[j
                + 1] == c1),
        first_pair(s, c0, c1) + 1 < s.len() ==> s[first_pair(s, c0, c1)] == c0 && s[first_pair(
            s,
            c0,
            c1,
        ) + 1] == c1,
    decreases s.len(),
{
    if s.len() >= 2 && !(s[0] == c0 && s[1] == c1) {
        lemma_first_pair(s.drop_first(), c0, c1);
        assert(forall|j: int| 1 <= j < s.len() ==> #[trigger] s[j] == s.drop_first()[j - 1]);
    }
}

/// What a command template renders to under a value map: every `{{name}}`
/// token is replaced by the escaped value bound to the trimmed name; a
/// template whose token is unclosed or whose name has no binding renders to
/// nothing.
pub open spec fn render_spec(s: Seq<char>, p: Seq<(Seq<char>, Seq<char>)>) -> Option<Seq<char>>
    decreases s.len(),
{
    if s.len() == 0 {
        Some(Seq::empty())
    } else if s.len() >= 2 && s[0] == '{' && s[1] == '{' {
        let inner = s.subrange(2, s.len() as int);
        let close = first_pair(inner, '}', '}');
        if 0 <= close && close + 1 < inner.len() {
            let name = trim_seq(inner.subrange(0, close));
            match pget(p, name) {
                Some(v) => match render_spec(inner.subrange(close + 2, inner.len() as int), p) {
                    Some(t) => Some(escape_seq(v) + t),
                    None => None,
                },
                None => None,
            }
        } else {
            None
        }
    } else {
        match render_spec(s.drop_first(), p) {
            Some(t) => Some(seq![s[0]] + t),
            None => None,
        }
    }
}

impl WorkflowCommand {
    /// Substitute every `{{name}}` placeholder of the command with its
    /// resolved value; an unresolved placeholder fails the render.
    pub fn replace(&self, arguments: &Precedence) -> (r: Result<String, Error>)
        ensures
            (match r {
                Ok(out) => render_spec(self@, arguments@) == Some(out@),
                Err(e) => render_spec(self@, arguments@) is None && e is ParseError,
            }),
    {
        let s = str_to_chars(self.inner());
        let n: usize = s.len();
        let mut out: Vec<char> = Vec::new();
        let mut i: usize = 0;
        proof {
            assert(s@.subrange(0, n as int) =~= s@);
            assert(Seq::<char>::empty() + s@ =~= s@);
        }
        while i < n
            invariant
                n == s@.len(),
                s@ == self@,
                i <= n,
                (match render_spec(s@.subrange(i as int, n as int), arguments@) {
                    Some(t) => render_spec(s@, arguments@) == Some(out@ + t),
                    None => render_spec(s@, arguments@) is None,
                }),
            decreases n - i,
        {
            let ghost rest = s@.subrange(i as int, n as int);
            if i + 1 < n && s[i] == '{' && s[i + 1] == '{' {
                proof {
                    assert(rest[0] == '{' && rest[1] == '{');
                }
                let ghost inner = rest.subrange(2, rest.len() as int);
                proof {
                    assert(inner =~= s@.subrange(i + 2, n as int));
                }
                // Find the closing braces.
                let mut j: usize = i + 2;
                let mut found: bool = false;
                while j < n - 1 && !found
                    invariant
                        n == s@.len(),
                        i + 2 <= j <= n,
                        inner == s@.subrange(i + 2, n as int),
                        rest == s@.subrange(i as int, n as int),
                        found ==> j + 1 < n && s@[j as int] == '}' && s@[j + 1] == '}',
                        forall|b: int|
                            i + 2 <= b < j && b + 1 < n ==> !(#[trigger] s@[b] == '}' && s@[b + 1]
                                == '}'),
                        !found ==> first_pair(inner, '}', '}') == (j - i - 2) + first_pair(
                            s@.subrange(j as int, n as int),
                            '}',
                            '}',
                        ),
                    decreases n - j + (if found { 0int } else { 1int }),
                {
                    if s[j] == '}' && s[j + 1] == '}' {
                        found = true;
                    } else {
                        proof {
                            let tail = s@.subrange(j as int, n as int);
                            if tail.len() >= 2 {
                                assert(tail[0] == s@[j as int] && tail[1] == s@[j + 1]);
                                assert(tail.drop_first() =~= s@.subrange(j + 1, n as int));
                            } else {
                                assert(tail.len() < 2);
                            }
                        }
                        j += 1;
                    }
                }
                if !found {
                    proof {
                        let tail = s@.subrange(j as int, n as int);
                        assert(tail.len() < 2);
                        assert(first_pair(inner, '}', '}') >= j - i - 2);
                        lemma_first_pair(inner, '}', '}');
                        assert(first_pair(inner, '}', '}') + 1 >= inner.len());
                        assert(render_spec(rest, arguments@) is None);
                    }
                    return Err(
                        Error::ParseError(Some("unclosed placeholder in the command".to_owned())),
                    );
                }
                proof {
                    lemma_first_pair(inner, '}', '}');
                    assert(forall|b: int|
                        0 <= b < j - i - 2 && b + 1 < inner.len() ==> !(#[trigger] inner[b] == '}'
                            && inner[b + 1] == '}')) by {
                        assert(forall|b: int|
                            0 <= b < inner.len() ==> #[trigger] inner[b] == s@[i + 2 + b]);
                    }
                    assert(inner[j - i - 2] == '}' && inner[j - i - 1] == '}');
                    assert(first_pair(inner, '}', '}') == j - i - 2) by {
                        let fp = first_pair(inner, '}', '}');
                        if fp < j - i - 2 {
                            assert(inner[fp] == '}' && inner[fp + 1] == '}');
                        }
                        if fp > j - i - 2 {
                            assert(!(inner[j - i - 2] == '}' && inner[j - i - 1] == '}'));
                        }
                    }
                }
                let raw_name = sub_chars(&s, i + 2, j);
                let name = trim_chars(&raw_name);
                proof {
                    assert(raw_name@ =~= inner.subrange(0, j - i - 2));
                }
                let name_s = chars_to_string(&name);
                match arguments.get(name_s.as_str()) {
                    Some(v) => {
                        let ghost close = j - i - 2;
                        let ev = escape_chars(&str_to_chars(v.as_str()));
                        let mut k: usize = 0;
                        let ghost before = out@;
                        while k < ev.len()
                            invariant
                                k <= ev@.len(),
                                out@ == before + ev@.subrange(0, k as int),
                            decreases ev@.len() - k,
                        {
                            out.push(ev[k]);
                            k += 1;
                            proof {
                                assert(out@ =~= before + ev@.subrange(0, k as int));
                            }
                        }
                        proof {
                            assert(ev@.subrange(0, ev@.len() as int) =~= ev@);
                            assert(out@ =~= before + ev@);
                        }
                        i = j + 2;
                        proof {
                            let newrest = s@.subrange(i as int, n as int);
                            assert(inner.subrange(close + 2, inner.len() as int) =~= newrest);
                            assert(name@ == trim_seq(inner.subrange(0, close)));
                            assert(pget(arguments@, name@) == Some(v@));
                            match render_spec(newrest, arguments@) {
                                Some(t) => {
                                    assert(render_spec(rest, arguments@) == Some(
                                        escape_seq(v@) + t,
                                    ));
                                    assert(render_spec(s@, arguments@) == Some(
                                        before + (escape_seq(v@) + t),
                                    ));
                                    assert(before + (escape_seq(v@) + t) =~= out@ + t);
                                },
                                None => {
                                    assert(render_spec(rest, arguments@) is None);
                                },
                            }
                        }
                    },
                    None => {
                        proof {
                            assert(render_spec(rest, arguments@) is None);
                        }
                        return Err(
                            Error::ParseError(
                                Some("unresolved placeholder in the command".to_owned()),
                            ),
                        );
                    },
                }
            } else {
                let ghost before = out@;
                out.push(s[i]);
                i += 1;
                proof {
                    assert(rest[0] == s@[i - 1]);
                    assert(rest.drop_first() =~= s@.subrange(i as int, n as int));
                    assert(out@ =~= before.push(s@[i - 1]));
                    if render_spec(rest.drop_first(), arguments@) is Some {
                        let t = render_spec(rest.drop_first(), arguments@).unwrap();
                        assert(render_spec(rest, arguments@) == Some(seq![rest[0]] + t));
                        assert(before + (seq![rest[0]] + t) =~= out@ + t);
                    }
                }
            }
        }
        proof {
            assert(s@.subrange(n as int, n as int) =~= Seq::<char>::empty());
            assert(out@ + Seq::<char>::empty() =~= out@);
        }
        Ok(chars_to_string(&out))
    }
}

// ---------------------------------------------------------------------------
// Reading the placeholders out of a command.
// ---------------------------------------------------------------------------

/// Find the first two-character token `c0 c1` at or after `from`.
fn find_pair(s: &Vec<char>, from: usize, c0: char, c1: char) -> (r: Option<usize>)
    requires
        from <= s@.len(),
    ensures
        (match r {
            Some(p) => from <= p && p + 1 < s@.len() && first_pair(
                s@.subrange(from as int, s@.len() as int),
                c0,
                c1,
            ) == p - from,
            None => first_pair(s@.subrange(from as int, s@.len() as int), c0, c1) + 1
                >= s@.len() - from,
        }),
{
    let n: usize = s.len();
    let ghost suffix = s@.subrange(from as int, n as int);
    if n == 0 {
        proof {
            lemma_first_pair(suffix, c0, c1);
        }
        return None;
    }
    let mut j: usize = from;
    let mut found: bool = false;
    while j < n - 1 && !found
        invariant
            n == s@.len(),
            n >= 1,
            suffix == s@.subrange(from as int, n as int),
            from <= j <= n,
            found ==> j + 1 < n && s@[j as int] == c0 && s@[j + 1] == c1,
            forall|b: int|
                from <= b < j && b + 1 < n ==> !(#[trigger] s@[b] == c0 && s@[b + 1] == c1),
            !found ==> first_pair(suffix, c0, c1) == (j - from) + first_pair(
                s@.subrange(j as int, n as int),
                c0,
                c1,
            ),
        decreases n - j + (if found { 0int } else { 1int }),
    {
        if s[j] == c0 && s[j + 1] == c1 {
            found = true;
        } else {
            proof {
                let tail = s@.subrange(j as int, n as int);
                if tail.len() >= 2 {
                    assert(tail[0] == s@[j as int] && tail[1] == s@[j + 1]);
                    assert(tail.drop_first() =~= s@.subrange(j + 1, n as int));
                } else {
                    assert(tail.len() < 2);
                }
            }
            j += 1;
        }
    }
    if found {
        proof {
            lemma_first_pair(suffix, c0, c1);
            assert(forall|b: int|
                0 <= b < j - from && b + 1 < suffix.len() ==> !(#[trigger] suffix[b] == c0
                    && suffix[b + 1] == c1)) by {
                assert(forall|b: int|
                    0 <= b < suffix.len() ==> #[trigger] suffix[b] == s@[from + b]);
            }
            assert(suffix[j - from] == c0 && suffix[j - from + 1] == c1);
            let fp = first_pair(suffix, c0, c1);
            assert(fp == j - from) by {
                if fp < j - from {
                    assert(suffix[fp] == c0 && suffix[fp + 1] == c1);
                }
                if fp > j - from {
                    assert(!(suffix[j - from] == c0 && suffix[j - from + 1] == c1));
                }
            }
        }
        Some(j)
    } else {
        proof {
            let tail = s@.subrange(j as int, n as int);
            assert(tail.len() < 2);
            lemma_first_pair(tail, c0, c1);
            assert(first_pair(suffix, c0, c1) >= j - from);
        }
        None
    }
}

/// The placeholder names a command mentions, in reading order, repeats
/// kept: for each `{{` the text up to the closing `}}` of its segment (or
/// the whole segment where none closes), trimmed, where non-empty.
pub open spec fn brace_names(s: Seq<char>) -> Seq<Seq<char>>
    decreases s.len(),
{
    let fp = first_pair(s, '{', '{');
    if 0 <= fp && fp + 1 < s.len() {
        let rest = s.subrange(fp + 2, s.len() as int);
        let nxt = first_pair(rest, '{', '{');
        let seg = if 0 <= nxt && nxt + 1 < rest.len() {
            rest.subrange(0, nxt)
        } else {
            rest
        };
        let close = first_pair(seg, '}', '}');
        let token = if 0 <= close && close + 1 < seg.len() {
            seg.subrange(0, close)
        } else {
            seg
        };
        let t = trim_seq(token);
        (if t.len() > 0 {
            seq![t]
        } else {
            Seq::<Seq<char>>::empty()
        }) + brace_names(rest)
    } else {
        Seq::empty()
    }
}

/// The distinct placeholder names of a command, first occurrences first.
pub open spec fn get_values_spec(s: Seq<char>) -> Seq<Seq<char>> {
    crate::file_ext::dedup_seq(brace_names(s))
}

/// Extract the distinct placeholder names of a command.
pub fn get_values(command: &str) -> (r: Result<Vec<String>, Error>)
    ensures
        (match r {
            Ok(v) => v@.map_values(|s: String| s@) == get_values_spec(command@),
            Err(_) => false,
        }),
{
    let s = str_to_chars(command);
    let n: usize = s.len();
    let mut raw: Vec<String> = Vec::new();
    let mut pos: usize = 0;
    proof {
        assert(s@.subrange(0, n as int) =~= s@);
        assert(Seq::<Seq<char>>::empty() + brace_names(s@) =~= brace_names(s@));
    }
    loop
        invariant
            n == s@.len(),
            s@ == command@,
            pos <= n,
            brace_names(s@) == raw@.map_values(|x: String| x@) + brace_names(
                s@.subrange(pos as int, n as int),
            ),
        ensures
            brace_names(command@) == raw@.map_values(|x: String| x@),
        decreases n - pos,
    {
        let ghost suffix = s@.subrange(pos as int, n as int);
        let fp = match find_pair(&s, pos, '{', '{') {
            Some(fp) => fp,
            None => {
                proof {
                    assert(brace_names(suffix) =~= Seq::<Seq<char>>::empty());
                    assert(raw@.map_values(|x: String| x@) + Seq::<Seq<char>>::empty()
                        =~= raw@.map_values(|x: String| x@));
                }
                break ;
            },
        };
        let ghost rest = s@.subrange(fp + 2, n as int);
        proof {
            assert(first_pair(suffix, '{', '{') == fp - pos);
            assert(suffix.subrange(fp - pos + 2, suffix.len() as int) =~= rest);
        }
        // The segment runs to the next `{{`, or to the end.
        let seg_end: usize = match find_pair(&s, fp + 2, '{', '{') {
            Some(q) => q,
            None => n,
        };
        let ghost nxt = first_pair(rest, '{', '{');
        let ghost seg = if 0 <= nxt && nxt + 1 < rest.len() {
            rest.subrange(0, nxt)
        } else {
            rest
        };
        proof {
            if seg_end < n {
                assert(nxt == seg_end - fp - 2);
                assert(seg =~= s@.subrange(fp + 2, seg_end as int));
            } else {
                assert(nxt + 1 >= rest.len());
                assert(seg =~= s@.subrange(fp + 2, seg_end as int));
            }
        }
        // The token runs to the first `}}` of the segment, or spans it.
        let close: Option<usize> = find_pair(&s, fp + 2, '}', '}');
        let token_end: usize = match close {
            Some(c) => if c + 1 < seg_end {
                c
            } else {
                seg_end
            },
            None => seg_end,
        };
        proof {
            let sc = first_pair(seg, '}', '}');
            let restc = first_pair(rest, '}', '}');
            assert(forall|b: int|
                0 <= b < seg.len() ==> #[trigger] seg[b] == rest[b]);
            lemma_first_pair(seg, '}', '}');
            lemma_first_pair(rest, '}', '}');
            match close {
                Some(c) => {
                    assert(restc == c - fp - 2);
                    if c + 1 < token_end + 1 && c + 1 < seg_end {
                    }
                    if c + 1 < seg_end {
                        // The closing token lies inside the segment.
                        assert(seg[c - fp - 2] == rest[c - fp - 2]);
                        assert(rest[restc] == '}' && rest[restc + 1] == '}');
                        assert(sc == c - fp - 2) by {
                            if sc < c - fp - 2 {
                                assert(seg[sc] == '}' && seg[sc + 1] == '}');
                                assert(rest[sc] == '}' && rest[sc + 1] == '}');
                            }
                            if sc > c - fp - 2 {
                                assert(!(seg[c - fp - 2] == '}' && seg[c - fp - 2 + 1] == '}'));
                            }
                        }
                        assert(0 <= sc && sc + 1 < seg.len());
                        assert(seg.subrange(0, sc) =~= s@.subrange(fp + 2, c as int));
                    } else {
                        // The segment closes nowhere inside.
                        assert(sc + 1 >= seg.len()) by {
                            if sc + 1 < seg.len() {
                                assert(seg[sc] == '}' && seg[sc + 1] == '}');
                                assert(rest[sc] == '}' && rest[sc + 1] == '}');
                                assert(restc <= sc) by {
                                    if restc > sc {
                                        assert(!(rest[sc] == '}' && rest[sc + 1] == '}'));
                                    }
                                }
                            }
                        }
                    }
                },
                None => {
                    assert(restc + 1 >= rest.len());
                    assert(sc + 1 >= seg.len()) by {
                        if sc + 1 < seg.len() {
                            assert(seg[sc] == '}' && seg[sc + 1] == '}');
                            assert(rest[sc] == '}' && rest[sc + 1] == '}');
                            assert(restc <= sc) by {
                                if restc > sc {
                                    assert(!(rest[sc] == '}' && rest[sc + 1] == '}'));
                                }
                            }
                        }
                    }
                },
            }
        }
        let token = sub_chars(&s, fp + 2, token_end);
        let trimmed = trim_chars(&token);
        let ghost before = raw@.map_values(|x: String| x@);
        if trimmed.len() > 0 {
            raw.push(chars_to_string(&trimmed));
        }
        proof {
            let sc = first_pair(seg, '}', '}');
            let spec_token = if 0 <= sc && sc + 1 < seg.len() {
                seg.subrange(0, sc)
            } else {
                seg
            };
            assert(token@ =~= spec_token);
            let t = trim_seq(spec_token);
            if t.len() > 0 {
                assert(raw@.map_values(|x: String| x@) =~= before.push(t));
                assert(before + (seq![t] + brace_names(rest)) =~= raw@.map_values(
                    |x: String| x@,
                ) + brace_names(rest));
            } else {
                assert(Seq::<Seq<char>>::empty() + brace_names(rest) =~= brace_names(rest));
            }
        }
        pos = fp + 2;
    }
    // Keep the first occurrence of each name.
    let ghost all = raw@.map_values(|x: String| x@);
    let mut out: Vec<String> = Vec::new();
    let mut i: usize = 0;
    proof {
        assert(all.subrange(0, 0) =~= Seq::<Seq<char>>::empty());
        assert(out@.map_values(|x: String| x@) =~= crate::file_ext::dedup_seq(
            all.subrange(0, 0),
        ));
    }
    while i < raw.len()
        invariant
            all == raw@.map_values(|x: String| x@),
            i <= raw@.len(),
            out@.map_values(|x: String| x@) == crate::file_ext::dedup_seq(
                all.subrange(0, i as int),
            ),
        decreases raw@.len() - i,
    {
        let cur = str_to_chars(raw[i].as_str());
        let ghost prefix = all.subrange(0, i as int);
        let mut seen: bool = false;
        let mut j: usize = 0;
        while j < i && !seen
            invariant
                all == raw@.map_values(|x: String| x@),
                i <= raw@.len(),
                prefix == all.subrange(0, i as int),
                cur@ == all[i as int],
                j <= i,
                !seen ==> forall|b: int| 0 <= b < j ==> #[trigger] all[b] != cur@,
                seen ==> prefix.contains(cur@),
            decreases i - j + (if seen { 0int } else { 1int }),
        {
            if crate::text::chars_eq(&str_to_chars(raw[j].as_str()), &cur) {
                proof {
                    assert(prefix[j as int] == all[j as int]);
                }
                seen = true;
            } else {
                j += 1;
            }
        }
        let ghost before = out@.map_values(|x: String| x@);
        if !seen {
            out.push(raw[i].clone());
        }
        i += 1;
        proof {
            let now = all.subrange(0, i as int);
            assert(now.last() == all[i - 1]);
            assert(now.drop_last() =~= prefix);
            if seen {
                assert(prefix.contains(cur@));
            } else {
                assert(!prefix.contains(cur@)) by {
                    if prefix.contains(cur@) {
                        let b = choose|b: int| 0 <= b < prefix.len() && prefix[b] == cur@;
                        assert(all[b] == cur@);
                    }
                }
                assert(out@.map_values(|x: String| x@) =~= before.push(cur@));
            }
        }
    }
    proof {
        assert(all.subrange(0, raw@.len() as int) =~= all);
    }
    Ok(out)
}

// ---------------------------------------------------------------------------
// The shape of a command's placeholders.
// ---------------------------------------------------------------------------

/// The start positions of the non-overlapping occurrences of `c0 c1`.
pub open spec fn nov_positions(s: Seq<char>, c0: char, c1: char, base: int) -> Seq<int>
    decreases s.len(),
{
    let fp = first_pair(s, c0, c1);
    if 0 <= fp && fp + 1 < s.len() {
        seq![base + fp] + nov_positions(s.subrange(fp + 2, s.len() as int), c0, c1, base + fp + 2)
    } else {
        Seq::empty()
    }
}

/// Every opening `{{` starts before the closing `}}` it is paired with.
pub open spec fn braces_ordered(s: Seq<char>) -> bool {
    let opens = nov_positions(s, '{', '{', 0);
    let closes = nov_positions(s, '}', '}', 0);
    forall|k: int|
        0 <= k < opens.len() && k < closes.len() ==> #[trigger] opens[k] < closes[k]
}

/// As many `{{` as `}}`.
pub open spec fn braces_balanced(s: Seq<char>) -> bool {
    nov_positions(s, '{', '{', 0).len() == nov_positions(s, '}', '}', 0).len()
}

/// A command that declares arguments: ordered, balanced, and at least one
/// placeholder.
pub open spec fn has_args_spec(s: Seq<char>) -> bool {
    braces_ordered(s) && braces_balanced(s) && nov_positions(s, '{', '{', 0).len() > 0
}

/// The start positions of the non-overlapping occurrences of `c0 c1`,
/// computed.
fn collect_pairs(s: &Vec<char>, c0: char, c1: char) -> (r: Vec<usize>)
    ensures
        r@.map_values(|p: usize| p as int) == nov_positions(s@, c0, c1, 0),
{
    let n: usize = s.len();
    let mut acc: Vec<usize> = Vec::new();
    let mut pos: usize = 0;
    proof {
        assert(s@.subrange(0, n as int) =~= s@);
        assert(Seq::<int>::empty() + nov_positions(s@, c0, c1, 0) =~= nov_positions(
            s@,
            c0,
            c1,
            0,
        ));
    }
    loop
        invariant
            n == s@.len(),
            pos <= n,
            nov_positions(s@, c0, c1, 0) == acc@.map_values(|p: usize| p as int)
                + nov_positions(s@.subrange(pos as int, n as int), c0, c1, pos as int),
        ensures
            nov_positions(s@, c0, c1, 0) == acc@.map_values(|p: usize| p as int),
        decreases n - pos,
    {
        let ghost suffix = s@.subrange(pos as int, n as int);
        let p = match find_pair(s, pos, c0, c1) {
            Some(p) => p,
            None => {
                proof {
                    assert(nov_positions(suffix, c0, c1, pos as int)
                        =~= Seq::<int>::empty());
                    assert(acc@.map_values(|p: usize| p as int) + Seq::<int>::empty()
                        =~= acc@.map_values(|p: usize| p as int));
                }
                break ;
            },
        };
        let ghost before = acc@.map_values(|p: usize| p as int);
        acc.push(p);
        proof {
            assert(first_pair(suffix, c0, c1) == p - pos);
            assert(suffix.subrange(p - pos + 2, suffix.len() as int) =~= s@.subrange(
                p + 2,
                n as int,
            ));
            assert(nov_positions(suffix, c0, c1, pos as int) == seq![p as int]
                + nov_positions(s@.subrange(p + 2, n as int), c0, c1, p + 2));
            assert(acc@.map_values(|q: usize| q as int) =~= before.push(p as int));
            assert(before + (seq![p as int] + nov_positions(
                s@.subrange(p + 2, n as int),
                c0,
                c1,
                p + 2,
            )) =~= acc@.map_values(|q: usize| q as int) + nov_positions(
                s@.subrange(p + 2, n as int),
                c0,
                c1,
                p + 2,
            ));
        }
        pos = p + 2;
    }
    acc
}

/// Decide whether a command declares placeholder arguments: yes when its
/// braces are ordered, balanced and present; an ordered but unbalanced
/// command is refused; anything else declares none.
pub fn placeholder_shape(command: &str) -> (r: Result<bool, Error>)
    ensures
        (match r {
            Ok(b) => b == has_args_spec(command@) && !(braces_ordered(command@)
                && !braces_balanced(command@)),
            Err(e) => braces_ordered(command@) && !braces_balanced(command@)
                && e is InvalidCommand,
        }),
{
    let s = str_to_chars(command);
    let opens = collect_pairs(&s, '{', '{');
    let closes = collect_pairs(&s, '}', '}');
    let ghost ov = opens@.map_values(|p: usize| p as int);
    let ghost cv = closes@.map_values(|p: usize| p as int);
    let limit: usize = if opens.len() <= closes.len() {
        opens.len()
    } else {
        closes.len()
    };
    let mut ordered: bool = true;
    let mut k: usize = 0;
    while k < limit && ordered
        invariant
            ov == opens@.map_values(|p: usize| p as int),
            cv == closes@.map_values(|p: usize| p as int),
            limit <= ov.len() && limit <= cv.len(),
            (limit == ov.len() || limit == cv.len()),
            k <= limit,
            ordered ==> forall|b: int| 0 <= b < k ==> #[trigger] ov[b] < cv[b],
            !ordered ==> exists|b: int| 0 <= b < limit && #[trigger] ov[b] >= cv[b],
        decreases limit - k + (if ordered { 1int } else { 0int }),
    {
        if opens[k] < closes[k] {
            k += 1;
        } else {
            proof {
                assert(ov[k as int] >= cv[k as int]);
            }
            ordered = false;
        }
    }
    proof {
        if ordered {
            assert(braces_ordered(command@)) by {
                assert(forall|b: int|
                    0 <= b < ov.len() && b < cv.len() ==> b < limit && #[trigger] ov[b] < cv[b]);
            }
        } else {
            assert(!braces_ordered(command@));
        }
    }
    let balanced: bool = opens.len() == closes.len();
    if ordered && balanced && opens.len() > 0 {
        Ok(true)
    } else if ordered && !balanced {
        Err(
            Error::InvalidCommand(
                Some("the command has an unbalanced number of {{ and }}".to_owned()),
            ),
        )
    } else {
        Ok(false)
    }
}

} // verus!
