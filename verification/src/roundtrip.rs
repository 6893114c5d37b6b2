use vstd::prelude::*;
use crate::codec::{
    arg_lines, args_lines, args_seg, checksum_of, classify, finish, flush_arg, ind2,
    indent_of, init_state, is_blank, item_line, k_arguments, k_author, k_command, k_default,
    k_description, k_name, k_source, k_tags, k_values, k_version, kv_line, opt_arg_line, opt_line,
    parse_spec, run, sec_line, ser_lines, ser_view, step, tags_lines, tags_seg, values_lines,
    LineKind, PState, Section,
};
use crate::text::{first_sep, is_ws, lemma_first_sep, lemma_split_join, split_seq};
use crate::workflow::{ArgumentView, WorkflowView};

verus! {

// ---------------------------------------------------------------------------
// Well-formed records: those whose canonical form reads back exactly.
// ---------------------------------------------------------------------------

/// A text that fits on one line of a document.
pub open spec fn text_ok(s: Seq<char>) -> bool {
    forall|i: int| 0 <= i < s.len() ==> s[i] != '\n'
}

/// An optional one-line text.
pub open spec fn opt_ok(o: Option<Seq<char>>) -> bool {
    match o {
        Some(v) => text_ok(v),
        None => true,
    }
}

/// An argument whose fields fit on their lines.
pub open spec fn arg_ok(a: ArgumentView) -> bool {
    &&& text_ok(a.name)
    &&& opt_ok(a.description)
    &&& opt_ok(a.default)
    &&& forall|i: int| 0 <= i < a.values.len() ==> text_ok(#[trigger] a.values[i])
}

/// A workflow record whose canonical document parses back to it: its name is
/// non-empty and none of its texts spans more than one line.
pub open spec fn wf_workflow(w: WorkflowView) -> bool {
    &&& w.name.len() > 0
    &&& text_ok(w.name)
    &&& opt_ok(w.description)
    &&& text_ok(w.command)
    &&& forall|i: int| 0 <= i < w.arguments.len() ==> arg_ok(#[trigger] w.arguments[i])
    &&& opt_ok(w.source)
    &&& opt_ok(w.author)
    &&& opt_ok(w.version)
    &&& forall|i: int| 0 <= i < w.tags.len() ==> text_ok(#[trigger] w.tags[i])
}

// ---------------------------------------------------------------------------
// Running the parser over concatenated line lists.
// ---------------------------------------------------------------------------

pub proof fn lemma_run_concat(st: PState, a: Seq<Seq<char>>, b: Seq<Seq<char>>)
    ensures
        run(st, a + b) == run(run(st, a), b),
    decreases a.len(),
{
    if a.len() == 0 {
        assert(a + b =~= b);
    } else {
        assert((a + b)[0] == a[0]);
        assert((a + b).drop_first() =~= a.drop_first() + b);
        lemma_run_concat(step(st, a[0]), a.drop_first(), b);
    }
}

// ---------------------------------------------------------------------------
// Facts about the grammar's keys.
// ---------------------------------------------------------------------------

/// A key as classification sees it: non-empty, no colon inside, and a first
/// character that starts neither an indent, an item, nor a blank line.
pub open spec fn key_ok(k: Seq<char>) -> bool {
    &&& k.len() > 0
    &&& !is_ws(k[0])
    &&& k[0] != '-'
    &&& forall|i: int| 0 <= i < k.len() ==> #[trigger] k[i] != ':' && k[i] != '\n'
}

pub proof fn lemma_key_facts()
    ensures
        key_ok(k_name()),
        key_ok(k_description()),
        key_ok(k_command()),
        key_ok(k_arguments()),
        key_ok(k_source()),
        key_ok(k_author()),
        key_ok(k_version()),
        key_ok(k_tags()),
        key_ok(k_default()),
        key_ok(k_values()),
        k_name() != k_description(),
        k_name() != k_command(),
        k_name() != k_source(),
        k_name() != k_author(),
        k_name() != k_version(),
        k_name() != k_arguments(),
        k_name() != k_tags(),
        k_description() != k_command(),
        k_description() != k_source(),
        k_description() != k_author(),
        k_description() != k_version(),
        k_description() != k_arguments(),
        k_description() != k_tags(),
        k_description() != k_default(),
        k_description() != k_values(),
        k_command() != k_source(),
        k_command() != k_author(),
        k_command() != k_version(),
        k_command() != k_arguments(),
        k_command() != k_tags(),
        k_source() != k_author(),
        k_source() != k_version(),
        k_source() != k_arguments(),
        k_source() != k_tags(),
        k_author() != k_version(),
        k_author() != k_arguments(),
        k_author() != k_tags(),
        k_version() != k_arguments(),
        k_version() != k_tags(),
        k_arguments() != k_tags(),
        k_default() != k_name(),
        k_default() != k_values(),
        k_values() != k_name(),
{
    reveal_strlit("name");
    reveal_strlit("description");
    reveal_strlit("command");
    reveal_strlit("arguments");
    reveal_strlit("source_url");
    reveal_strlit("author");
    reveal_strlit("version");
    reveal_strlit("tags");
    reveal_strlit("default_value");
    reveal_strlit("values");
    assert(k_name()[0] != k_tags()[0]);
    assert(k_command()[0] != k_version()[0]);
    assert(k_default().len() == 13 && k_values().len() == 6);
}

// ---------------------------------------------------------------------------
// Classification of the canonical line shapes.
// ---------------------------------------------------------------------------

/// `key: value` classifies as a key/value line at indent 0.
pub proof fn lemma_classify_kv0(key: Seq<char>, v: Seq<char>)
    requires
        key_ok(key),
    ensures
        classify(kv_line(key, v)) == (LineKind::KeyVal { indent: 0, key: key, value: Some(v) }),
{
    let l = kv_line(key, v);
    assert(l[0] == key[0]);
    assert(!is_blank(l));
    assert(indent_of(l) == 0);
    let c = l.subrange(0, l.len() as int);
    assert(c =~= l);
    if c.len() >= 2 {
        assert(c[0] != '-');
    }
    let p = key.len() as int;
    assert(l[p] == ':');
    assert(forall|j: int| 0 <= j < p ==> l[j] == key[j] && #[trigger] l[j] != ':');
    lemma_first_sep(l, ':');
    let fs = first_sep(l, ':');
    assert(fs == p) by {
        if fs < p {
            assert(l[fs] == ':');
        }
        if fs > p {
            assert(l[p] != ':');
        }
    }
    assert(c.subrange(0, p) =~= key);
    let rest = c.subrange(p + 1, c.len() as int);
    assert(rest.len() == v.len() + 1);
    assert(rest[0] == ' ');
    assert(rest.drop_first() =~= v);
}

/// `key:` classifies as a key line without a value, at indent 0.
pub proof fn lemma_classify_sec0(key: Seq<char>)
    requires
        key_ok(key),
    ensures
        classify(sec_line(key)) == (LineKind::KeyVal { indent: 0, key: key, value: None }),
{
    let l = sec_line(key);
    assert(l[0] == key[0]);
    assert(!is_blank(l));
    assert(indent_of(l) == 0);
    let c = l.subrange(0, l.len() as int);
    assert(c =~= l);
    if c.len() >= 2 {
        assert(c[0] != '-');
    }
    let p = key.len() as int;
    assert(l[p] == ':');
    assert(forall|j: int| 0 <= j < p ==> l[j] == key[j] && #[trigger] l[j] != ':');
    lemma_first_sep(l, ':');
    let fs = first_sep(l, ':');
    assert(fs == p) by {
        if fs < p {
            assert(l[fs] == ':');
        }
        if fs > p {
            assert(l[p] != ':');
        }
    }
    assert(c.subrange(0, p) =~= key);
    let rest = c.subrange(p + 1, c.len() as int);
    assert(rest.len() == 0);
}

/// `- content` classifies as an item at indent 0.
pub proof fn lemma_classify_item0(content: Seq<char>)
    ensures
        classify(item_line(content)) == (LineKind::Item { indent: 0, content: content }),
{
    let l = item_line(content);
    assert(l[0] == '-');
    assert(!is_ws('-'));
    assert(!is_blank(l));
    assert(indent_of(l) == 0);
    let c = l.subrange(0, l.len() as int);
    assert(c =~= l);
    assert(c[0] == '-' && c[1] == ' ');
    assert(c.subrange(2, c.len() as int) =~= content);
}

/// Two leading spaces push a line's classification to indent 2.
pub proof fn lemma_indent_ind2(l: Seq<char>)
    requires
        l.len() > 0,
        l[0] != ' ',
    ensures
        indent_of(ind2(l)) == 2,
        ind2(l).subrange(2, ind2(l).len() as int) == l,
{
    let m = ind2(l);
    assert(m[0] == ' ' && m[1] == ' ' && m[2] == l[0]);
    let m1 = seq![' '] + l;
    assert(m.drop_first() =~= m1);
    assert(m1[0] == ' ');
    assert(m1.drop_first() =~= l);
    assert(indent_of(l) == 0);
    assert(indent_of(m1) == 1 + indent_of(l));
    assert(indent_of(m) == 1 + indent_of(m1));
    assert(m.subrange(2, m.len() as int) =~= l);
}

/// `  key: value` classifies as a key/value line at indent 2.
pub proof fn lemma_classify_kv2(key: Seq<char>, v: Seq<char>)
    requires
        key_ok(key),
    ensures
        classify(ind2(kv_line(key, v))) == (LineKind::KeyVal {
            indent: 2,
            key: key,
            value: Some(v),
        }),
{
    let l = kv_line(key, v);
    let m = ind2(l);
    assert(l[0] == key[0]);
    lemma_indent_ind2(l);
    assert(m[2] == key[0]);
    assert(!is_blank(m));
    let c = m.subrange(2, m.len() as int);
    assert(c == l);
    if c.len() >= 2 {
        assert(c[0] != '-');
    }
    let p = key.len() as int;
    assert(l[p] == ':');
    assert(forall|j: int| 0 <= j < p ==> l[j] == key[j] && #[trigger] l[j] != ':');
    lemma_first_sep(l, ':');
    let fs = first_sep(l, ':');
    assert(fs == p) by {
        if fs < p {
            assert(l[fs] == ':');
        }
        if fs > p {
            assert(l[p] != ':');
        }
    }
    assert(l.subrange(0, p) =~= key);
    let rest = l.subrange(p + 1, l.len() as int);
    assert(rest.len() == v.len() + 1);
    assert(rest[0] == ' ');
    assert(rest.drop_first() =~= v);
}

/// `  key:` classifies as a key line without a value, at indent 2.
pub proof fn lemma_classify_sec2(key: Seq<char>)
    requires
        key_ok(key),
    ensures
        classify(ind2(sec_line(key))) == (LineKind::KeyVal { indent: 2, key: key, value: None }),
{
    let l = sec_line(key);
    let m = ind2(l);
    assert(l[0] == key[0]);
    lemma_indent_ind2(l);
    assert(m[2] == key[0]);
    assert(!is_blank(m));
    let c = m.subrange(2, m.len() as int);
    assert(c == l);
    if c.len() >= 2 {
        assert(c[0] != '-');
    }
    let p = key.len() as int;
    assert(l[p] == ':');
    assert(forall|j: int| 0 <= j < p ==> l[j] == key[j] && #[trigger] l[j] != ':');
    lemma_first_sep(l, ':');
    let fs = first_sep(l, ':');
    assert(fs == p) by {
        if fs < p {
            assert(l[fs] == ':');
        }
        if fs > p {
            assert(l[p] != ':');
        }
    }
    assert(l.subrange(0, p) =~= key);
    let rest = l.subrange(p + 1, l.len() as int);
    assert(rest.len() == 0);
}

/// `  - content` classifies as an item at indent 2.
pub proof fn lemma_classify_item2(content: Seq<char>)
    ensures
        classify(ind2(item_line(content))) == (LineKind::Item { indent: 2, content: content }),
{
    let l = item_line(content);
    let m = ind2(l);
    assert(l[0] == '-');
    lemma_indent_ind2(l);
    assert(m[2] == '-');
    assert(!is_ws('-'));
    assert(!is_blank(m));
    let c = m.subrange(2, m.len() as int);
    assert(c == l);
    assert(c[0] == '-' && c[1] == ' ');
    assert(c.subrange(2, c.len() as int) =~= content);
}

// ---------------------------------------------------------------------------
// No canonical line contains a newline.
// ---------------------------------------------------------------------------

/// One line without a newline inside.
pub open spec fn line_ok(l: Seq<char>) -> bool {
    forall|j: int| 0 <= j < l.len() ==> l[j] != '\n'
}

/// A list of newline-free lines.
pub open spec fn lines_ok(ls: Seq<Seq<char>>) -> bool {
    forall|i: int, j: int|
        0 <= i < ls.len() && 0 <= j < ls[i].len() ==> #[trigger] ls[i][j] != '\n'
}

pub proof fn lemma_lines_ok_concat(a: Seq<Seq<char>>, b: Seq<Seq<char>>)
    requires
        lines_ok(a),
        lines_ok(b),
    ensures
        lines_ok(a + b),
{
    assert forall|i: int, j: int|
        0 <= i < (a + b).len() && 0 <= j < (a + b)[i].len() implies #[trigger] (a + b)[i][j]
        != '\n' by {
        if i < a.len() {
            assert((a + b)[i] == a[i]);
        } else {
            assert((a + b)[i] == b[i - a.len()]);
        }
    }
}

pub proof fn lemma_line_ok_kv(key: Seq<char>, v: Seq<char>)
    requires
        key_ok(key),
        text_ok(v),
    ensures
        line_ok(kv_line(key, v)),
        line_ok(sec_line(key)),
        line_ok(item_line(kv_line(key, v))),
        line_ok(ind2(kv_line(key, v))),
        line_ok(ind2(sec_line(key))),
{
}

pub proof fn lemma_line_ok_item(v: Seq<char>)
    requires
        text_ok(v),
    ensures
        line_ok(item_line(v)),
        line_ok(ind2(item_line(v))),
{
}

/// One newline-free line forms a newline-free list.
pub proof fn lemma_lines_ok_single(l: Seq<char>)
    requires
        line_ok(l),
    ensures
        lines_ok(seq![l]),
{
}

pub proof fn lemma_lines_ok_values(vs: Seq<Seq<char>>)
    requires
        forall|i: int| 0 <= i < vs.len() ==> text_ok(#[trigger] vs[i]),
    ensures
        lines_ok(values_lines(vs)),
    decreases vs.len(),
{
    if vs.len() > 0 {
        lemma_line_ok_item(vs[0]);
        lemma_lines_ok_single(ind2(item_line(vs[0])));
        assert(forall|i: int| 0 <= i < vs.drop_first().len() ==> text_ok(
            #[trigger] vs.drop_first()[i],
        ));
        lemma_lines_ok_values(vs.drop_first());
        lemma_lines_ok_concat(seq![ind2(item_line(vs[0]))], values_lines(vs.drop_first()));
    }
}

pub proof fn lemma_lines_ok_arg(a: ArgumentView)
    requires
        arg_ok(a),
    ensures
        lines_ok(arg_lines(a)),
{
    lemma_key_facts();
    lemma_line_ok_kv(k_name(), a.name);
    lemma_lines_ok_single(item_line(kv_line(k_name(), a.name)));
    let s1 = seq![item_line(kv_line(k_name(), a.name))];
    let s2 = opt_arg_line(k_description(), a.description);
    let s3 = opt_arg_line(k_default(), a.default);
    let s4 = if a.values.len() == 0 {
        Seq::<Seq<char>>::empty()
    } else {
        seq![ind2(sec_line(k_values()))] + values_lines(a.values)
    };
    assert(lines_ok(s2)) by {
        match a.description {
            Some(d) => {
                lemma_line_ok_kv(k_description(), d);
                lemma_lines_ok_single(ind2(kv_line(k_description(), d)));
            },
            None => {},
        }
    }
    assert(lines_ok(s3)) by {
        match a.default {
            Some(d) => {
                lemma_line_ok_kv(k_default(), d);
                lemma_lines_ok_single(ind2(kv_line(k_default(), d)));
            },
            None => {},
        }
    }
    assert(lines_ok(s4)) by {
        if a.values.len() > 0 {
            lemma_line_ok_kv(k_values(), Seq::empty());
            lemma_lines_ok_single(ind2(sec_line(k_values())));
            lemma_lines_ok_values(a.values);
            lemma_lines_ok_concat(seq![ind2(sec_line(k_values()))], values_lines(a.values));
        }
    }
    lemma_lines_ok_concat(s1, s2);
    lemma_lines_ok_concat(s1 + s2, s3);
    lemma_lines_ok_concat(s1 + s2 + s3, s4);
}

pub proof fn lemma_lines_ok_args(args: Seq<ArgumentView>)
    requires
        forall|i: int| 0 <= i < args.len() ==> arg_ok(#[trigger] args[i]),
    ensures
        lines_ok(args_lines(args)),
    decreases args.len(),
{
    if args.len() > 0 {
        lemma_lines_ok_arg(args[0]);
        assert(forall|i: int| 0 <= i < args.drop_first().len() ==> arg_ok(
            #[trigger] args.drop_first()[i],
        ));
        lemma_lines_ok_args(args.drop_first());
        lemma_lines_ok_concat(arg_lines(args[0]), args_lines(args.drop_first()));
    }
}

pub proof fn lemma_lines_ok_tags(ts: Seq<Seq<char>>)
    requires
        forall|i: int| 0 <= i < ts.len() ==> text_ok(#[trigger] ts[i]),
    ensures
        lines_ok(tags_lines(ts)),
    decreases ts.len(),
{
    if ts.len() > 0 {
        lemma_line_ok_item(ts[0]);
        lemma_lines_ok_single(item_line(ts[0]));
        assert(forall|i: int| 0 <= i < ts.drop_first().len() ==> text_ok(
            #[trigger] ts.drop_first()[i],
        ));
        lemma_lines_ok_tags(ts.drop_first());
        lemma_lines_ok_concat(seq![item_line(ts[0])], tags_lines(ts.drop_first()));
    }
}

/// Every canonical line of a well-formed record is newline-free.
pub proof fn lemma_lines_ok_ser(w: WorkflowView)
    requires
        wf_workflow(w),
    ensures
        lines_ok(ser_lines(w)),
{
    lemma_key_facts();
    let s1 = seq![kv_line(k_name(), w.name)];
    let s2 = opt_line(k_description(), w.description);
    let s3 = seq![kv_line(k_command(), w.command)];
    let s4 = args_seg(w.arguments);
    let s5 = opt_line(k_source(), w.source);
    let s6 = opt_line(k_author(), w.author);
    let s7 = opt_line(k_version(), w.version);
    let s8 = tags_seg(w.tags);
    assert(lines_ok(s1)) by {
        lemma_line_ok_kv(k_name(), w.name);
        lemma_lines_ok_single(kv_line(k_name(), w.name));
    }
    assert(lines_ok(s2)) by {
        match w.description {
            Some(d) => {
                lemma_line_ok_kv(k_description(), d);
                lemma_lines_ok_single(kv_line(k_description(), d));
            },
            None => {},
        }
    }
    assert(lines_ok(s3)) by {
        lemma_line_ok_kv(k_command(), w.command);
        lemma_lines_ok_single(kv_line(k_command(), w.command));
    }
    assert(lines_ok(s4)) by {
        if w.arguments.len() > 0 {
            lemma_line_ok_kv(k_arguments(), Seq::empty());
            lemma_lines_ok_single(sec_line(k_arguments()));
            lemma_lines_ok_args(w.arguments);
            lemma_lines_ok_concat(seq![sec_line(k_arguments())], args_lines(w.arguments));
        }
    }
    assert(lines_ok(s5)) by {
        match w.source {
            Some(d) => {
                lemma_line_ok_kv(k_source(), d);
                lemma_lines_ok_single(kv_line(k_source(), d));
            },
            None => {},
        }
    }
    assert(lines_ok(s6)) by {
        match w.author {
            Some(d) => {
                lemma_line_ok_kv(k_author(), d);
                lemma_lines_ok_single(kv_line(k_author(), d));
            },
            None => {},
        }
    }
    assert(lines_ok(s7)) by {
        match w.version {
            Some(d) => {
                lemma_line_ok_kv(k_version(), d);
                lemma_lines_ok_single(kv_line(k_version(), d));
            },
            None => {},
        }
    }
    assert(lines_ok(s8)) by {
        if w.tags.len() > 0 {
            lemma_line_ok_kv(k_tags(), Seq::empty());
            lemma_lines_ok_single(sec_line(k_tags()));
            lemma_lines_ok_tags(w.tags);
            lemma_lines_ok_concat(seq![sec_line(k_tags())], tags_lines(w.tags));
        }
    }
    lemma_lines_ok_concat(s1, s2);
    lemma_lines_ok_concat(s1 + s2, s3);
    lemma_lines_ok_concat(s1 + s2 + s3, s4);
    lemma_lines_ok_concat(s1 + s2 + s3 + s4, s5);
    lemma_lines_ok_concat(s1 + s2 + s3 + s4 + s5, s6);
    lemma_lines_ok_concat(s1 + s2 + s3 + s4 + s5 + s6, s7);
    lemma_lines_ok_concat(s1 + s2 + s3 + s4 + s5 + s6 + s7, s8);
}

// ---------------------------------------------------------------------------
// Running the parser over the canonical segments.
// ---------------------------------------------------------------------------

/// A pending argument, as a sequence of zero or one arguments.
pub open spec fn opt_to_seq(o: Option<ArgumentView>) -> Seq<ArgumentView> {
    match o {
        Some(a) => seq![a],
        None => Seq::empty(),
    }
}

/// Running over one line is one step.
pub proof fn lemma_run_one(st: PState, l: Seq<char>)
    ensures
        run(st, seq![l]) == step(st, l),
{
    let s = seq![l];
    assert(s.len() == 1);
    assert(s[0] == l);
    assert(s.drop_first() =~= Seq::<Seq<char>>::empty());
    assert(run(st, s) == run(step(st, l), s.drop_first()));
    assert(run(step(st, l), Seq::<Seq<char>>::empty()) == step(st, l));
}

/// The value items of an open `values:` list append to the pending argument.
pub proof fn lemma_run_values(st: PState, vs: Seq<Seq<char>>)
    requires
        st.ok,
        st.base == Some(0int),
        st.cur is Some,
        st.in_values,
    ensures
        run(st, values_lines(vs)) == (PState {
            cur: Some(
                ArgumentView { values: st.cur.unwrap().values + vs, ..st.cur.unwrap() },
            ),
            ..st
        }),
    decreases vs.len(),
{
    let a0 = st.cur.unwrap();
    if vs.len() == 0 {
        assert(a0.values + vs =~= a0.values);
        assert((ArgumentView { values: a0.values + vs, ..a0 }) == a0);
        assert((PState { cur: Some(a0), ..st }) == st);
    } else {
        let l = ind2(item_line(vs[0]));
        assert(values_lines(vs) == seq![l] + values_lines(vs.drop_first()));
        assert((seq![l] + values_lines(vs.drop_first()))[0] == l);
        assert((seq![l] + values_lines(vs.drop_first())).drop_first() =~= values_lines(
            vs.drop_first(),
        ));
        lemma_classify_item2(vs[0]);
        let st1 = step(st, l);
        assert(st1 == (PState { cur: Some(ArgumentView { values: a0.values.push(vs[0]), ..a0 }), ..st }));
        lemma_run_values(st1, vs.drop_first());
        assert(a0.values.push(vs[0]) + vs.drop_first() =~= a0.values + vs);
    }
}

/// The lines of one argument close the pending argument and open a new one.
pub proof fn lemma_run_one_arg(st: PState, a: ArgumentView)
    requires
        st.ok,
        st.base == Some(0int),
        st.section == Section::Args,
    ensures
        run(st, arg_lines(a)) == (PState {
            arguments: st.arguments + opt_to_seq(st.cur),
            cur: Some(a),
            in_values: a.values.len() > 0,
            ..st
        }),
{
    lemma_key_facts();
    let s1 = seq![item_line(kv_line(k_name(), a.name))];
    let s2 = opt_arg_line(k_description(), a.description);
    let s3 = opt_arg_line(k_default(), a.default);
    let s4 = if a.values.len() == 0 {
        Seq::<Seq<char>>::empty()
    } else {
        seq![ind2(sec_line(k_values()))] + values_lines(a.values)
    };
    assert(arg_lines(a) == s1 + s2 + s3 + s4);
    lemma_run_concat(st, s1 + s2 + s3, s4);
    lemma_run_concat(st, s1 + s2, s3);
    lemma_run_concat(st, s1, s2);
    // The `- name:` line.
    lemma_classify_item0(kv_line(k_name(), a.name));
    lemma_classify_kv0(k_name(), a.name);
    lemma_run_one(st, item_line(kv_line(k_name(), a.name)));
    let t1 = step(st, item_line(kv_line(k_name(), a.name)));
    assert(flush_arg(st).arguments == st.arguments + opt_to_seq(st.cur)) by {
        match st.cur {
            Some(c0) => {
                assert(st.arguments.push(c0) =~= st.arguments + seq![c0]);
            },
            None => {
                assert(st.arguments + Seq::<ArgumentView>::empty() =~= st.arguments);
            },
        }
    }
    let base1 = PState {
        arguments: st.arguments + opt_to_seq(st.cur),
        cur: Some(
            ArgumentView {
                name: a.name,
                description: None,
                default: None,
                values: Seq::empty(),
            },
        ),
        in_values: false,
        ..st
    };
    assert(t1 == base1);
    // The optional description line.
    let t2 = run(t1, s2);
    let base2 = PState {
        cur: Some(
            ArgumentView {
                name: a.name,
                description: a.description,
                default: None,
                values: Seq::empty(),
            },
        ),
        ..base1
    };
    assert(t2 == base2) by {
        match a.description {
            Some(d) => {
                lemma_classify_kv2(k_description(), d);
                lemma_run_one(t1, ind2(kv_line(k_description(), d)));
            },
            None => {
                assert(s2 =~= Seq::<Seq<char>>::empty());
            },
        }
    }
    // The optional default line.
    let t3 = run(t2, s3);
    let base3 = PState {
        cur: Some(
            ArgumentView {
                name: a.name,
                description: a.description,
                default: a.default,
                values: Seq::empty(),
            },
        ),
        ..base2
    };
    assert(t3 == base3) by {
        match a.default {
            Some(d) => {
                lemma_classify_kv2(k_default(), d);
                lemma_run_one(t2, ind2(kv_line(k_default(), d)));
            },
            None => {
                assert(s3 =~= Seq::<Seq<char>>::empty());
            },
        }
    }
    // The optional values list.
    let t4 = run(t3, s4);
    if a.values.len() == 0 {
        assert(t4 == t3);
        assert((ArgumentView {
            name: a.name,
            description: a.description,
            default: a.default,
            values: Seq::empty(),
        }) == a) by {
            assert(a.values =~= Seq::<Seq<char>>::empty());
        }
    } else {
        lemma_run_concat(t3, seq![ind2(sec_line(k_values()))], values_lines(a.values));
        lemma_classify_sec2(k_values());
        lemma_run_one(t3, ind2(sec_line(k_values())));
        let t3v = step(t3, ind2(sec_line(k_values())));
        assert(t3v == (PState { in_values: true, ..base3 }));
        lemma_run_values(t3v, a.values);
        assert(Seq::<Seq<char>>::empty() + a.values =~= a.values);
        assert((ArgumentView {
            name: a.name,
            description: a.description,
            default: a.default,
            values: Seq::empty() + a.values,
        }) == a);
    }
}

/// The lines of a non-empty argument list: every argument but the last is
/// appended, the last one stays pending.
pub proof fn lemma_run_args(st: PState, args: Seq<ArgumentView>)
    requires
        st.ok,
        st.base == Some(0int),
        st.section == Section::Args,
        args.len() > 0,
    ensures
        run(st, args_lines(args)) == (PState {
            arguments: st.arguments + opt_to_seq(st.cur) + args.drop_last(),
            cur: Some(args.last()),
            in_values: args.last().values.len() > 0,
            ..st
        }),
    decreases args.len(),
{
    assert(args_lines(args) == arg_lines(args[0]) + args_lines(args.drop_first()));
    lemma_run_concat(st, arg_lines(args[0]), args_lines(args.drop_first()));
    lemma_run_one_arg(st, args[0]);
    let s1 = PState {
        arguments: st.arguments + opt_to_seq(st.cur),
        cur: Some(args[0]),
        in_values: args[0].values.len() > 0,
        ..st
    };
    if args.len() == 1 {
        assert(args.drop_first().len() == 0);
        assert(run(s1, args_lines(args.drop_first())) == s1);
        assert(args.last() == args[0]);
        assert(args.drop_last() =~= Seq::<ArgumentView>::empty());
        assert(st.arguments + opt_to_seq(st.cur) + args.drop_last() =~= st.arguments + opt_to_seq(
            st.cur,
        ));
    } else {
        lemma_run_args(s1, args.drop_first());
        assert(args.drop_first().last() == args.last());
        assert(s1.arguments + opt_to_seq(s1.cur) + args.drop_first().drop_last() =~= st.arguments
            + opt_to_seq(st.cur) + args.drop_last()) by {
            assert(opt_to_seq(s1.cur) == seq![args[0]]);
            assert(forall|k: int|
                0 <= k < args.drop_first().drop_last().len() ==> #[trigger] args.drop_first()
                    .drop_last()[k] == args[k + 1]);
            assert(forall|k: int|
                0 <= k < args.drop_last().len() ==> #[trigger] args.drop_last()[k] == args[k]);
        }
    }
}

/// The optional `description:` line sets the description, closing any open
/// list first.
pub proof fn lemma_run_opt_description(st: PState, o: Option<Seq<char>>)
    requires
        st.ok,
        st.base == Some(0int),
    ensures
        run(st, opt_line(k_description(), o)) == (match o {
            None => st,
            Some(v) => PState { description: Some(v), section: Section::Top, ..flush_arg(st) },
        }),
{
    lemma_key_facts();
    match o {
        None => {
            assert(opt_line(k_description(), o) =~= Seq::<Seq<char>>::empty());
        },
        Some(v) => {
            lemma_classify_kv0(k_description(), v);
            lemma_run_one(st, kv_line(k_description(), v));
            assert(step(st, kv_line(k_description(), v)) == (PState {
                description: Some(v),
                section: Section::Top,
                ..flush_arg(st)
            }));
        },
    }
}

/// The optional `source_url:` line.
pub proof fn lemma_run_opt_source(st: PState, o: Option<Seq<char>>)
    requires
        st.ok,
        st.base == Some(0int),
    ensures
        run(st, opt_line(k_source(), o)) == (match o {
            None => st,
            Some(v) => PState { source: Some(v), section: Section::Top, ..flush_arg(st) },
        }),
{
    lemma_key_facts();
    match o {
        None => {
            assert(opt_line(k_source(), o) =~= Seq::<Seq<char>>::empty());
        },
        Some(v) => {
            lemma_classify_kv0(k_source(), v);
            lemma_run_one(st, kv_line(k_source(), v));
            assert(step(st, kv_line(k_source(), v)) == (PState {
                source: Some(v),
                section: Section::Top,
                ..flush_arg(st)
            }));
        },
    }
}

/// The optional `author:` line.
pub proof fn lemma_run_opt_author(st: PState, o: Option<Seq<char>>)
    requires
        st.ok,
        st.base == Some(0int),
    ensures
        run(st, opt_line(k_author(), o)) == (match o {
            None => st,
            Some(v) => PState { author: Some(v), section: Section::Top, ..flush_arg(st) },
        }),
{
    lemma_key_facts();
    match o {
        None => {
            assert(opt_line(k_author(), o) =~= Seq::<Seq<char>>::empty());
        },
        Some(v) => {
            lemma_classify_kv0(k_author(), v);
            lemma_run_one(st, kv_line(k_author(), v));
            assert(step(st, kv_line(k_author(), v)) == (PState {
                author: Some(v),
                section: Section::Top,
                ..flush_arg(st)
            }));
        },
    }
}

/// The optional `version:` line.
pub proof fn lemma_run_opt_version(st: PState, o: Option<Seq<char>>)
    requires
        st.ok,
        st.base == Some(0int),
    ensures
        run(st, opt_line(k_version(), o)) == (match o {
            None => st,
            Some(v) => PState { version: Some(v), section: Section::Top, ..flush_arg(st) },
        }),
{
    lemma_key_facts();
    match o {
        None => {
            assert(opt_line(k_version(), o) =~= Seq::<Seq<char>>::empty());
        },
        Some(v) => {
            lemma_classify_kv0(k_version(), v);
            lemma_run_one(st, kv_line(k_version(), v));
            assert(step(st, kv_line(k_version(), v)) == (PState {
                version: Some(v),
                section: Section::Top,
                ..flush_arg(st)
            }));
        },
    }
}

/// The whole `arguments:` section: all arguments but the last are appended,
/// the last stays pending.
pub proof fn lemma_run_args_seg(st: PState, args: Seq<ArgumentView>)
    requires
        st.ok,
        st.base == Some(0int),
    ensures
        run(st, args_seg(args)) == (if args.len() == 0 {
            st
        } else {
            PState {
                section: Section::Args,
                cur: Some(args.last()),
                in_values: args.last().values.len() > 0,
                arguments: flush_arg(st).arguments + args.drop_last(),
                ..flush_arg(st)
            }
        }),
{
    lemma_key_facts();
    if args.len() == 0 {
        assert(args_seg(args) =~= Seq::<Seq<char>>::empty());
    } else {
        lemma_run_concat(st, seq![sec_line(k_arguments())], args_lines(args));
        lemma_classify_sec0(k_arguments());
        lemma_run_one(st, sec_line(k_arguments()));
        let st1 = step(st, sec_line(k_arguments()));
        assert(st1 == (PState { section: Section::Args, ..flush_arg(st) }));
        lemma_run_args(st1, args);
        assert(st1.arguments + opt_to_seq(st1.cur) + args.drop_last() =~= flush_arg(st).arguments
            + args.drop_last());
    }
}

/// The whole `tags:` section appends the tags.
pub proof fn lemma_run_tags_seg(st: PState, ts: Seq<Seq<char>>)
    requires
        st.ok,
        st.base == Some(0int),
    ensures
        run(st, tags_seg(ts)) == (if ts.len() == 0 {
            st
        } else {
            PState { section: Section::Tags, tags: st.tags + ts, ..flush_arg(st) }
        }),
{
    lemma_key_facts();
    if ts.len() == 0 {
        assert(tags_seg(ts) =~= Seq::<Seq<char>>::empty());
    } else {
        lemma_run_concat(st, seq![sec_line(k_tags())], tags_lines(ts));
        lemma_classify_sec0(k_tags());
        lemma_run_one(st, sec_line(k_tags()));
        let st1 = step(st, sec_line(k_tags()));
        assert(st1 == (PState { section: Section::Tags, ..flush_arg(st) }));
        lemma_run_tags(st1, ts);
    }
}

/// The tag items of an open `tags:` list append to the tag list.
pub proof fn lemma_run_tags(st: PState, ts: Seq<Seq<char>>)
    requires
        st.ok,
        st.base == Some(0int),
        st.section == Section::Tags,
    ensures
        run(st, tags_lines(ts)) == (PState { tags: st.tags + ts, ..st }),
    decreases ts.len(),
{
    if ts.len() == 0 {
        assert(st.tags + ts =~= st.tags);
        assert((PState { tags: st.tags + ts, ..st }) == st);
    } else {
        let l = item_line(ts[0]);
        assert(tags_lines(ts) == seq![l] + tags_lines(ts.drop_first()));
        assert((seq![l] + tags_lines(ts.drop_first()))[0] == l);
        assert((seq![l] + tags_lines(ts.drop_first())).drop_first() =~= tags_lines(
            ts.drop_first(),
        ));
        lemma_classify_item0(ts[0]);
        let st1 = step(st, l);
        assert(st1 == (PState { tags: st.tags.push(ts[0]), ..st }));
        lemma_run_tags(st1, ts.drop_first());
        assert(st.tags.push(ts[0]) + ts.drop_first() =~= st.tags + ts);
    }
}

// ---------------------------------------------------------------------------
// The round trip.
// ---------------------------------------------------------------------------

/// Parsing the canonical document of a well-formed workflow record gives the
/// record back, exactly.
pub proof fn lemma_parse_serialize(w: WorkflowView)
    requires
        wf_workflow(w),
    ensures
        parse_spec(ser_view(w)) == Some(w),
{
    lemma_key_facts();
    let lines = ser_lines(w);
    lemma_lines_ok_ser(w);
    let la = seq![kv_line(k_name(), w.name)];
    let lb = opt_line(k_description(), w.description);
    let lc = seq![kv_line(k_command(), w.command)];
    let ld = args_seg(w.arguments);
    let le = opt_line(k_source(), w.source);
    let lf = opt_line(k_author(), w.author);
    let lg = opt_line(k_version(), w.version);
    let lh = tags_seg(w.tags);
    assert(lines == la + lb + lc + ld + le + lf + lg + lh);
    assert(lines.len() > 0);
    lemma_split_join(lines, '\n');
    assert(split_seq(ser_view(w), '\n') == lines);

    let s0 = init_state();
    lemma_run_concat(s0, la + lb + lc + ld + le + lf + lg, lh);
    lemma_run_concat(s0, la + lb + lc + ld + le + lf, lg);
    lemma_run_concat(s0, la + lb + lc + ld + le, lf);
    lemma_run_concat(s0, la + lb + lc + ld, le);
    lemma_run_concat(s0, la + lb + lc, ld);
    lemma_run_concat(s0, la + lb, lc);
    lemma_run_concat(s0, la, lb);

    // The name line.
    lemma_classify_kv0(k_name(), w.name);
    lemma_run_one(s0, kv_line(k_name(), w.name));
    let t1 = run(s0, la);
    assert(t1 == (PState { base: Some(0int), name: Some(w.name), ..s0 }));

    // The optional description line.
    lemma_run_opt_description(t1, w.description);
    let t2 = run(t1, lb);
    assert(t2.ok && t2.base == Some(0int) && t2.section == Section::Top && t2.cur is None
        && t2.name == Some(w.name) && t2.description == w.description && t2.command is None
        && t2.arguments == Seq::<ArgumentView>::empty() && t2.source is None && t2.author is None
        && t2.version is None && t2.tags == Seq::<Seq<char>>::empty());

    // The command line.
    lemma_classify_kv0(k_command(), w.command);
    lemma_run_one(t2, kv_line(k_command(), w.command));
    let t3 = run(t2, lc);
    assert(t3 == (PState { command: Some(w.command), section: Section::Top, ..flush_arg(t2) }));
    assert(t3.ok && t3.base == Some(0int) && t3.cur is None && t3.name == Some(w.name)
        && t3.description == w.description && t3.command == Some(w.command) && t3.arguments
        == Seq::<ArgumentView>::empty() && t3.source is None && t3.author is None && t3.version
        is None && t3.tags == Seq::<Seq<char>>::empty());

    // The arguments section.
    lemma_run_args_seg(t3, w.arguments);
    let t4 = run(t3, ld);
    assert(t4.ok && t4.base == Some(0int) && t4.name == Some(w.name) && t4.description
        == w.description && t4.command == Some(w.command) && t4.source is None && t4.author
        is None && t4.version is None && t4.tags == Seq::<Seq<char>>::empty());
    assert(flush_arg(t4).arguments == w.arguments) by {
        if w.arguments.len() == 0 {
            assert(t4 == t3);
            assert(flush_arg(t4).arguments =~= w.arguments);
        } else {
            assert(t4.cur == Some(w.arguments.last()));
            assert(t4.arguments == flush_arg(t3).arguments + w.arguments.drop_last());
            assert(flush_arg(t3).arguments =~= Seq::<ArgumentView>::empty());
            assert(flush_arg(t4).arguments =~= w.arguments);
        }
    }

    // The optional provenance lines.
    lemma_run_opt_source(t4, w.source);
    let t5 = run(t4, le);
    assert(t5.ok && t5.base == Some(0int) && t5.name == Some(w.name) && t5.description
        == w.description && t5.command == Some(w.command) && t5.source == w.source && t5.author
        is None && t5.version is None && t5.tags == Seq::<Seq<char>>::empty());
    assert(flush_arg(t5).arguments == w.arguments) by {
        match w.source {
            None => {
                assert(t5 == t4);
            },
            Some(v) => {
                assert(t5.cur is None);
                assert(t5.arguments == flush_arg(t4).arguments);
            },
        }
    }

    lemma_run_opt_author(t5, w.author);
    let t6 = run(t5, lf);
    assert(t6.ok && t6.base == Some(0int) && t6.name == Some(w.name) && t6.description
        == w.description && t6.command == Some(w.command) && t6.source == w.source && t6.author
        == w.author && t6.version is None && t6.tags == Seq::<Seq<char>>::empty());
    assert(flush_arg(t6).arguments == w.arguments) by {
        match w.author {
            None => {
                assert(t6 == t5);
            },
            Some(v) => {
                assert(t6.cur is None);
                assert(t6.arguments == flush_arg(t5).arguments);
            },
        }
    }

    lemma_run_opt_version(t6, w.version);
    let t7 = run(t6, lg);
    assert(t7.ok && t7.base == Some(0int) && t7.name == Some(w.name) && t7.description
        == w.description && t7.command == Some(w.command) && t7.source == w.source && t7.author
        == w.author && t7.version == w.version && t7.tags == Seq::<Seq<char>>::empty());
    assert(flush_arg(t7).arguments == w.arguments) by {
        match w.version {
            None => {
                assert(t7 == t6);
            },
            Some(v) => {
                assert(t7.cur is None);
                assert(t7.arguments == flush_arg(t6).arguments);
            },
        }
    }

    // The tags section.
    lemma_run_tags_seg(t7, w.tags);
    let t8 = run(t7, lh);
    assert(t8.ok && t8.name == Some(w.name) && t8.description == w.description && t8.command
        == Some(w.command) && t8.source == w.source && t8.author == w.author && t8.version
        == w.version);
    assert(t8.tags == w.tags) by {
        if w.tags.len() == 0 {
            assert(t8 == t7);
            assert(t8.tags =~= w.tags);
        } else {
            assert(t8.tags == t7.tags + w.tags);
            assert(t8.tags =~= w.tags);
        }
    }
    assert(flush_arg(t8).arguments == w.arguments) by {
        if w.tags.len() == 0 {
            assert(t8 == t7);
        } else {
            assert(t8.cur is None);
            assert(t8.arguments == flush_arg(t7).arguments);
        }
    }

    // Assemble.
    assert(run(s0, lines) == t8);
    let f = flush_arg(t8);
    assert(f.ok && f.name == Some(w.name) && f.command == Some(w.command));
    assert(f.description == w.description && f.source == w.source && f.author == w.author
        && f.version == w.version && f.tags == w.tags && f.arguments == w.arguments);
    assert(finish(t8) == Some(WorkflowView {
        name: w.name,
        description: w.description,
        command: w.command,
        arguments: w.arguments,
        source: w.source,
        author: w.author,
        version: w.version,
        tags: w.tags,
    }));
    assert((WorkflowView {
        name: w.name,
        description: w.description,
        command: w.command,
        arguments: w.arguments,
        source: w.source,
        author: w.author,
        version: w.version,
        tags: w.tags,
    }) == w);
}

/// Checksum determinism across a round trip: the canonical document of a
/// well-formed workflow parses back to a record with the same checksum.
pub proof fn lemma_checksum_roundtrip(w: WorkflowView)
    requires
        wf_workflow(w),
    ensures
        parse_spec(ser_view(w)) is Some,
        checksum_of(parse_spec(ser_view(w)).unwrap()) == checksum_of(w),
{
    lemma_parse_serialize(w);
}

} // verus!
