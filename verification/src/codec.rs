use vstd::prelude::*;
use crate::error::Error;
use crate::text::{
    chars_eq, chars_to_string, first_sep, is_ws, is_ws_char, join_chars, join_seq, lemma_first_sep,
    split_chars, split_seq, str_to_chars, sub_chars,
};
use crate::workflow::{
    Argument, ArgumentView, Workflow, WorkflowCommand, WorkflowDescription, WorkflowName,
    WorkflowView,
};

verus! {

// ---------------------------------------------------------------------------
// The document grammar: keys.
// ---------------------------------------------------------------------------

pub open spec fn k_name() -> Seq<char> {
    "name"@
}

pub open spec fn k_description() -> Seq<char> {
    "description"@
}

pub open spec fn k_command() -> Seq<char> {
    "command"@
}

pub open spec fn k_arguments() -> Seq<char> {
    "arguments"@
}

pub open spec fn k_source() -> Seq<char> {
    "source_url"@
}

pub open spec fn k_author() -> Seq<char> {
    "author"@
}

pub open spec fn k_version() -> Seq<char> {
    "version"@
}

pub open spec fn k_tags() -> Seq<char> {
    "tags"@
}

pub open spec fn k_default() -> Seq<char> {
    "default_value"@
}

pub open spec fn k_values() -> Seq<char> {
    "values"@
}

// ---------------------------------------------------------------------------
// Line classification.
// ---------------------------------------------------------------------------

/// What one line of a document is.
pub enum LineKind {
    /// Only whitespace.
    Blank,
    /// `- ` after the indent: one item of the open list.
    Item { indent: int, content: Seq<char> },
    /// `key:` or `key: value` after the indent.
    KeyVal { indent: int, key: Seq<char>, value: Option<Seq<char>> },
    /// Anything else: refused.
    Other,
}

/// The number of leading space characters of a line.
pub open spec fn indent_of(l: Seq<char>) -> int
    decreases l.len(),
{
    if l.len() > 0 && l[0] == ' ' {
        1 + indent_of(l.drop_first())
    } else {
        0
    }
}

/// A line of whitespace only.
pub open spec fn is_blank(l: Seq<char>) -> bool {
    forall|i: int| 0 <= i < l.len() ==> is_ws(l[i])
}

/// The value part after a `:`: absent when nothing follows, otherwise the
/// rest with one leading space removed.
pub open spec fn value_after_colon(rest: Seq<char>) -> Option<Seq<char>> {
    if rest.len() == 0 {
        None
    } else if rest[0] == ' ' {
        Some(rest.drop_first())
    } else {
        Some(rest)
    }
}

/// Classify one line of a document.
pub open spec fn classify(l: Seq<char>) -> LineKind {
    if is_blank(l) {
        LineKind::Blank
    } else {
        let ind = indent_of(l);
        let c = l.subrange(ind, l.len() as int);
        if c.len() >= 2 && c[0] == '-' && c[1] == ' ' {
            LineKind::Item { indent: ind, content: c.subrange(2, c.len() as int) }
        } else {
            let p = first_sep(c, ':');
            if p < c.len() {
                LineKind::KeyVal {
                    indent: ind,
                    key: c.subrange(0, p),
                    value: value_after_colon(c.subrange(p + 1, c.len() as int)),
                }
            } else {
                LineKind::Other
            }
        }
    }
}

/// The executable mirror of `LineKind`.
pub enum ClassifiedLine {
    Blank,
    Item { indent: usize, content: Vec<char> },
    KeyVal { indent: usize, key: Vec<char>, value: Option<Vec<char>> },
    Other,
}

impl View for ClassifiedLine {
    type V = LineKind;

    open spec fn view(&self) -> LineKind {
        match self {
            ClassifiedLine::Blank => LineKind::Blank,
            ClassifiedLine::Item { indent, content } => LineKind::Item {
                indent: *indent as int,
                content: content@,
            },
            ClassifiedLine::KeyVal { indent, key, value } => LineKind::KeyVal {
                indent: *indent as int,
                key: key@,
                value: match value {
                    Some(v) => Some(v@),
                    None => None,
                },
            },
            ClassifiedLine::Other => LineKind::Other,
        }
    }
}

/// Classify one line, as `classify` describes.
pub fn classify_line(l: &Vec<char>) -> (r: ClassifiedLine)
    ensures
        r@ == classify(l@),
{
    let n: usize = l.len();
    // Leading spaces.
    let mut ind: usize = 0;
    proof {
        assert(l@.subrange(0, n as int) =~= l@);
    }
    while ind < n && l[ind] == ' '
        invariant
            n == l@.len(),
            ind <= n,
            indent_of(l@) == ind + indent_of(l@.subrange(ind as int, n as int)),
            forall|k: int| 0 <= k < ind ==> l@[k] == ' ',
        decreases n - ind,
    {
        proof {
            let s = l@.subrange(ind as int, n as int);
            assert(s[0] == ' ');
            assert(s.drop_first() =~= l@.subrange(ind + 1, n as int));
        }
        ind += 1;
    }
    proof {
        let s = l@.subrange(ind as int, n as int);
        if s.len() > 0 {
            assert(s[0] == l@[ind as int]);
        }
        assert(indent_of(s) == 0);
        assert(indent_of(l@) == ind);
    }
    // Blank test.
    let mut bl: usize = ind;
    let mut blank: bool = true;
    while bl < n && blank
        invariant
            n == l@.len(),
            ind <= bl <= n,
            forall|k: int| 0 <= k < ind ==> l@[k] == ' ',
            blank ==> forall|k: int| 0 <= k < bl ==> is_ws(l@[k]),
            !blank ==> bl < n && !is_ws(l@[bl as int]),
        decreases n - bl + (if blank { 1int } else { 0int }),
    {
        if is_ws_char(l[bl]) {
            bl += 1;
        } else {
            blank = false;
        }
    }
    if blank {
        proof {
            assert(is_blank(l@));
        }
        return ClassifiedLine::Blank;
    }
    proof {
        assert(!is_blank(l@));
    }
    let ghost c = l@.subrange(ind as int, n as int);
    // Item test.
    if n - ind >= 2 && l[ind] == '-' && l[ind + 1] == ' ' {
        let content = sub_chars(l, ind + 2, n);
        proof {
            assert(c[0] == '-' && c[1] == ' ');
            assert(content@ =~= c.subrange(2, c.len() as int));
        }
        return ClassifiedLine::Item { indent: ind, content };
    }
    proof {
        if c.len() >= 2 {
            assert(c[0] == l@[ind as int]);
            assert(c[1] == l@[ind + 1]);
        }
    }
    // Key / value split at the first ':'.
    let mut p: usize = ind;
    while p < n && l[p] != ':'
        invariant
            n == l@.len(),
            ind <= p <= n,
            first_sep(c, ':') == (p - ind) + first_sep(l@.subrange(p as int, n as int), ':'),
            forall|k: int| ind <= k < p ==> l@[k] != ':',
        decreases n - p,
    {
        proof {
            let s = l@.subrange(p as int, n as int);
            assert(s[0] == l@[p as int]);
            assert(s.drop_first() =~= l@.subrange(p + 1, n as int));
        }
        p += 1;
    }
    proof {
        let s = l@.subrange(p as int, n as int);
        if s.len() > 0 {
            assert(s[0] == l@[p as int]);
        }
        assert(first_sep(c, ':') == p - ind);
    }
    if p == n {
        return ClassifiedLine::Other;
    }
    let key = sub_chars(l, ind, p);
    proof {
        assert(key@ =~= c.subrange(0, p - ind));
        assert(l@.subrange(p + 1, n as int) =~= c.subrange(p - ind + 1, c.len() as int));
    }
    let value: Option<Vec<char>> = if p + 1 == n {
        None
    } else if l[p + 1] == ' ' {
        let v = sub_chars(l, p + 2, n);
        proof {
            let rest = c.subrange(p - ind + 1, c.len() as int);
            assert(rest[0] == l@[p + 1]);
            assert(v@ =~= rest.drop_first());
        }
        Some(v)
    } else {
        let v = sub_chars(l, p + 1, n);
        proof {
            let rest = c.subrange(p - ind + 1, c.len() as int);
            assert(rest[0] == l@[p + 1]);
            assert(v@ =~= rest);
        }
        Some(v)
    };
    ClassifiedLine::KeyVal { indent: ind, key, value }
}

// ---------------------------------------------------------------------------
// The parser's state machine.
// ---------------------------------------------------------------------------

/// Which list of the document is open.
#[derive(Clone, Copy, Debug, PartialEq, Eq, Structural)]
pub enum Section {
    Top,
    Args,
    Tags,
}

/// The parser's state: the fields gathered so far, the open list, and the
/// argument under construction.
pub struct PState {
    pub ok: bool,
    pub base: Option<int>,
    pub section: Section,
    pub cur: Option<ArgumentView>,
    pub in_values: bool,
    pub name: Option<Seq<char>>,
    pub description: Option<Seq<char>>,
    pub command: Option<Seq<char>>,
    pub arguments: Seq<ArgumentView>,
    pub source: Option<Seq<char>>,
    pub author: Option<Seq<char>>,
    pub version: Option<Seq<char>>,
    pub tags: Seq<Seq<char>>,
}

pub open spec fn init_state() -> PState {
    PState {
        ok: true,
        base: None,
        section: Section::Top,
        cur: None,
        in_values: false,
        name: None,
        description: None,
        command: None,
        arguments: Seq::empty(),
        source: None,
        author: None,
        version: None,
        tags: Seq::empty(),
    }
}

pub open spec fn fail(st: PState) -> PState {
    PState { ok: false, ..st }
}

/// Close the argument under construction, appending it to the list.
pub open spec fn flush_arg(st: PState) -> PState {
    match st.cur {
        Some(a) => PState { arguments: st.arguments.push(a), cur: None, in_values: false, ..st },
        None => st,
    }
}

/// One step of the parser: consume one line.
pub open spec fn step(st: PState, l: Seq<char>) -> PState {
    if !st.ok {
        st
    } else {
        match classify(l) {
            LineKind::Blank => st,
            LineKind::Other => fail(st),
            LineKind::Item { indent, content } => {
                let b = match st.base {
                    Some(x) => x,
                    None => indent,
                };
                let st = PState { base: Some(b), ..st };
                if indent == b {
                    match st.section {
                        Section::Args => match classify(content) {
                            LineKind::KeyVal { indent: ci, key, value } => {
                                if key == k_name() {
                                    match value {
                                        Some(v) => {
                                            let st = flush_arg(st);
                                            PState {
                                                cur: Some(
                                                    ArgumentView {
                                                        name: v,
                                                        description: None,
                                                        default: None,
                                                        values: Seq::empty(),
                                                    },
                                                ),
                                                in_values: false,
                                                ..st
                                            }
                                        },
                                        None => fail(st),
                                    }
                                } else {
                                    fail(st)
                                }
                            },
                            _ => fail(st),
                        },
                        Section::Tags => PState { tags: st.tags.push(content), ..st },
                        Section::Top => fail(st),
                    }
                } else if indent == b + 2 {
                    match st.cur {
                        Some(a) => if st.in_values {
                            PState {
                                cur: Some(ArgumentView { values: a.values.push(content), ..a }),
                                ..st
                            }
                        } else {
                            fail(st)
                        },
                        None => fail(st),
                    }
                } else {
                    fail(st)
                }
            },
            LineKind::KeyVal { indent, key, value } => {
                let b = match st.base {
                    Some(x) => x,
                    None => indent,
                };
                let st = PState { base: Some(b), ..st };
                if indent == b {
                    let st = flush_arg(st);
                    let st = PState { section: Section::Top, ..st };
                    if key == k_name() {
                        match value {
                            Some(v) => PState { name: Some(v), ..st },
                            None => fail(st),
                        }
                    } else if key == k_description() {
                        match value {
                            Some(v) => PState { description: Some(v), ..st },
                            None => fail(st),
                        }
                    } else if key == k_command() {
                        match value {
                            Some(v) => PState { command: Some(v), ..st },
                            None => fail(st),
                        }
                    } else if key == k_source() {
                        match value {
                            Some(v) => PState { source: Some(v), ..st },
                            None => fail(st),
                        }
                    } else if key == k_author() {
                        match value {
                            Some(v) => PState { author: Some(v), ..st },
                            None => fail(st),
                        }
                    } else if key == k_version() {
                        match value {
                            Some(v) => PState { version: Some(v), ..st },
                            None => fail(st),
                        }
                    } else if key == k_arguments() {
                        match value {
                            None => PState { section: Section::Args, ..st },
                            Some(_) => fail(st),
                        }
                    } else if key == k_tags() {
                        match value {
                            None => PState { section: Section::Tags, ..st },
                            Some(_) => fail(st),
                        }
                    } else {
                        st
                    }
                } else if indent == b + 2 {
                    match st.cur {
                        Some(a) => {
                            if key == k_description() {
                                match value {
                                    Some(v) => PState {
                                        cur: Some(ArgumentView { description: Some(v), ..a }),
                                        in_values: false,
                                        ..st
                                    },
                                    None => fail(st),
                                }
                            } else if key == k_default() {
                                match value {
                                    Some(v) => PState {
                                        cur: Some(ArgumentView { default: Some(v), ..a }),
                                        in_values: false,
                                        ..st
                                    },
                                    None => fail(st),
                                }
                            } else if key == k_values() {
                                match value {
                                    None => PState { in_values: true, ..st },
                                    Some(_) => fail(st),
                                }
                            } else {
                                PState { in_values: false, ..st }
                            }
                        },
                        None => fail(st),
                    }
                } else {
                    fail(st)
                }
            },
        }
    }
}

/// Run the parser over a list of lines.
pub open spec fn run(st: PState, lines: Seq<Seq<char>>) -> PState
    decreases lines.len(),
{
    if lines.len() == 0 {
        st
    } else {
        run(step(st, lines[0]), lines.drop_first())
    }
}

/// Close the final state: the document is accepted when a non-empty name and
/// a command were found.
pub open spec fn finish(st: PState) -> Option<WorkflowView> {
    let st = flush_arg(st);
    if !st.ok {
        None
    } else {
        match (st.name, st.command) {
            (Some(n), Some(c)) => if n.len() > 0 {
                Some(
                    WorkflowView {
                        name: n,
                        description: st.description,
                        command: c,
                        arguments: st.arguments,
                        source: st.source,
                        author: st.author,
                        version: st.version,
                        tags: st.tags,
                    },
                )
            } else {
                None
            },
            _ => None,
        }
    }
}

/// The workflow that a document text denotes, if any.
pub open spec fn parse_spec(text: Seq<char>) -> Option<WorkflowView> {
    finish(run(init_state(), split_seq(text, '\n')))
}

/// A failed state stays failed, and is never accepted.
pub proof fn lemma_run_not_ok(st: PState, lines: Seq<Seq<char>>)
    requires
        !st.ok,
    ensures
        run(st, lines) == st,
    decreases lines.len(),
{
    if lines.len() > 0 {
        lemma_run_not_ok(st, lines.drop_first());
    }
}

// ---------------------------------------------------------------------------
// The executable parser.
// ---------------------------------------------------------------------------

/// The argument under construction while its lines are read.
pub struct ArgDraft {
    pub name: Vec<char>,
    pub description: Option<Vec<char>>,
    pub default: Option<Vec<char>>,
    pub values: Vec<Vec<char>>,
}

impl View for ArgDraft {
    type V = ArgumentView;

    open spec fn view(&self) -> ArgumentView {
        ArgumentView {
            name: self.name@,
            description: match self.description {
                Some(v) => Some(v@),
                None => None,
            },
            default: match self.default {
                Some(v) => Some(v@),
                None => None,
            },
            values: self.values@.map_values(|v: Vec<char>| v@),
        }
    }
}

/// Turn a finished draft into an argument record.
fn draft_to_argument(d: ArgDraft) -> (r: Argument)
    ensures
        r@ == d@,
{
    let description = match d.description {
        Some(v) => Some(crate::workflow::ArgumentDescription(chars_to_string(&v))),
        None => None,
    };
    let default = match d.default {
        Some(v) => Some(crate::workflow::ArgumentDefault(chars_to_string(&v))),
        None => None,
    };
    let mut values: Vec<crate::workflow::ArgumentValue> = Vec::new();
    let mut i: usize = 0;
    while i < d.values.len()
        invariant
            i <= d.values@.len(),
            values@.len() == i,
            forall|k: int| 0 <= k < i ==> (#[trigger] values@[k])@ == d.values@[k]@,
        decreases d.values@.len() - i,
    {
        values.push(crate::workflow::ArgumentValue(chars_to_string(&d.values[i])));
        i += 1;
    }
    let r = Argument {
        name: crate::workflow::ArgumentName(chars_to_string(&d.name)),
        description,
        default,
        values,
    };
    proof {
        assert(r@.values =~= d@.values);
    }
    r
}

/// The view of an optional character vector.
pub open spec fn oview(o: Option<Vec<char>>) -> Option<Seq<char>> {
    match o {
        Some(v) => Some(v@),
        None => None,
    }
}

/// The view of an optional draft.
pub open spec fn dview(o: Option<ArgDraft>) -> Option<ArgumentView> {
    match o {
        Some(d) => Some(d@),
        None => None,
    }
}

/// The view of an optional base indent.
pub open spec fn bview(o: Option<usize>) -> Option<int> {
    match o {
        Some(b) => Some(b as int),
        None => None,
    }
}

/// Parse the lines of a document, as the state machine describes.
#[verifier::rlimit(100)]
pub fn parse_lines(lines: &Vec<Vec<char>>) -> (r: Result<Workflow, Error>)
    ensures
        (match r {
            Ok(w) => finish(run(init_state(), lines@.map_values(|l: Vec<char>| l@))) == Some(w@),
            Err(e) => finish(run(init_state(), lines@.map_values(|l: Vec<char>| l@))) is None
                && e is ParseError,
        }),
{
    let ghost all = lines@.map_values(|l: Vec<char>| l@);
    let key_name = str_to_chars("name");
    let key_description = str_to_chars("description");
    let key_command = str_to_chars("command");
    let key_arguments = str_to_chars("arguments");
    let key_source = str_to_chars("source_url");
    let key_author = str_to_chars("author");
    let key_version = str_to_chars("version");
    let key_tags = str_to_chars("tags");
    let key_default = str_to_chars("default_value");
    let key_values = str_to_chars("values");

    let mut base: Option<usize> = None;
    let mut section: Section = Section::Top;
    let mut cur: Option<ArgDraft> = None;
    let mut in_values: bool = false;
    let mut w_name: Option<Vec<char>> = None;
    let mut w_description: Option<Vec<char>> = None;
    let mut w_command: Option<Vec<char>> = None;
    let mut w_arguments: Vec<Argument> = Vec::new();
    let mut w_source: Option<Vec<char>> = None;
    let mut w_author: Option<Vec<char>> = None;
    let mut w_version: Option<Vec<char>> = None;
    let mut w_tags: Vec<crate::workflow::WorkflowTag> = Vec::new();

    let mut i: usize = 0;
    let n: usize = lines.len();
    proof {
        assert(all.subrange(0, all.len() as int) =~= all);
        assert(w_arguments@.map_values(|a: Argument| a@) =~= Seq::<ArgumentView>::empty());
        assert(w_tags@.map_values(|t: crate::workflow::WorkflowTag| t@) =~= Seq::<
            Seq<char>,
        >::empty());
    }
    while i < n
        invariant
            n == lines@.len(),
            all == lines@.map_values(|l: Vec<char>| l@),
            i <= n,
            key_name@ == k_name(),
            key_description@ == k_description(),
            key_command@ == k_command(),
            key_arguments@ == k_arguments(),
            key_source@ == k_source(),
            key_author@ == k_author(),
            key_version@ == k_version(),
            key_tags@ == k_tags(),
            key_default@ == k_default(),
            key_values@ == k_values(),
            run(init_state(), all) == run(
                PState {
                    ok: true,
                    base: bview(base),
                    section: section,
                    cur: dview(cur),
                    in_values: in_values,
                    name: oview(w_name),
                    description: oview(w_description),
                    command: oview(w_command),
                    arguments: w_arguments@.map_values(|a: Argument| a@),
                    source: oview(w_source),
                    author: oview(w_author),
                    version: oview(w_version),
                    tags: w_tags@.map_values(|t: crate::workflow::WorkflowTag| t@),
                },
                all.subrange(i as int, n as int),
            ),
        decreases n - i,
    {
        let ghost pre = PState {
            ok: true,
            base: bview(base),
            section: section,
            cur: dview(cur),
            in_values: in_values,
            name: oview(w_name),
            description: oview(w_description),
            command: oview(w_command),
            arguments: w_arguments@.map_values(|a: Argument| a@),
            source: oview(w_source),
            author: oview(w_author),
            version: oview(w_version),
            tags: w_tags@.map_values(|t: crate::workflow::WorkflowTag| t@),
        };
        let ghost rest = all.subrange(i as int, n as int);
        let ghost line = all[i as int];
        proof {
            assert(rest.len() > 0);
            assert(rest[0] == line);
            assert(rest.drop_first() =~= all.subrange(i + 1, n as int));
            assert(run(pre, rest) == run(step(pre, line), rest.drop_first()));
        }
        let ghost post = step(pre, line);
        let classified = classify_line(&lines[i]);
        match classified {
            ClassifiedLine::Blank => {
                proof {
                    assert(post == pre);
                }
            },
            ClassifiedLine::Other => {
                proof {
                    assert(post == fail(pre));
                    lemma_run_not_ok(post, rest.drop_first());
                }
                return Err(Error::ParseError(Some("unreadable line".to_owned())));
            },
            ClassifiedLine::Item { indent, content } => {
                let b: usize = match base {
                    Some(x) => x,
                    None => indent,
                };
                base = Some(b);
                if indent == b {
                    match section {
                        Section::Args => {
                            let inner = classify_line(&content);
                            match inner {
                                ClassifiedLine::KeyVal { indent: _ci, key, value } => {
                                    if chars_eq(&key, &key_name) {
                                        match value {
                                            Some(v) => {
                                                // Close the previous argument.
                                                match cur {
                                                    Some(d) => {
                                                        w_arguments.push(draft_to_argument(d));
                                                        proof {
                                                            assert(w_arguments@.map_values(
                                                                |a: Argument| a@,
                                                            ) =~= pre.arguments.push(
                                                                pre.cur.unwrap(),
                                                            ));
                                                        }
                                                    },
                                                    None => {},
                                                }
                                                cur = Some(
                                                    ArgDraft {
                                                        name: v,
                                                        description: None,
                                                        default: None,
                                                        values: Vec::new(),
                                                    },
                                                );
                                                in_values = false;
                                                proof {
                                                    assert(dview(cur).unwrap().values
                                                        =~= Seq::<Seq<char>>::empty());
                                                }
                                            },
                                            None => {
                                                proof {
                                                    lemma_run_not_ok(post, rest.drop_first());
                                                }
                                                return Err(
                                                    Error::ParseError(
                                                        Some("argument without a name".to_owned()),
                                                    ),
                                                );
                                            },
                                        }
                                    } else {
                                        proof {
                                            lemma_run_not_ok(post, rest.drop_first());
                                        }
                                        return Err(
                                            Error::ParseError(
                                                Some("argument without a name".to_owned()),
                                            ),
                                        );
                                    }
                                },
                                _ => {
                                    proof {
                                        lemma_run_not_ok(post, rest.drop_first());
                                    }
                                    return Err(
                                        Error::ParseError(
                                            Some("argument without a name".to_owned()),
                                        ),
                                    );
                                },
                            }
                        },
                        Section::Tags => {
                            let ghost cv = content@;
                            w_tags.push(crate::workflow::WorkflowTag(chars_to_string(&content)));
                            proof {
                                assert(w_tags@.map_values(|t: crate::workflow::WorkflowTag| t@)
                                    =~= pre.tags.push(cv));
                            }
                        },
                        Section::Top => {
                            proof {
                                lemma_run_not_ok(post, rest.drop_first());
                            }
                            return Err(
                                Error::ParseError(Some("list item outside a list".to_owned())),
                            );
                        },
                    }
                } else if indent > b && indent - b == 2 {
                    match cur {
                        Some(mut d) => {
                            if in_values {
                                let ghost dv = d@;
                                let ghost cv = content@;
                                d.values.push(content);
                                proof {
                                    assert(d@.values =~= dv.values.push(cv));
                                }
                                cur = Some(d);
                            } else {
                                proof {
                                    lemma_run_not_ok(post, rest.drop_first());
                                }
                                return Err(
                                    Error::ParseError(Some("stray list item".to_owned())),
                                );
                            }
                        },
                        None => {
                            proof {
                                lemma_run_not_ok(post, rest.drop_first());
                            }
                            return Err(Error::ParseError(Some("stray list item".to_owned())));
                        },
                    }
                } else {
                    proof {
                        lemma_run_not_ok(post, rest.drop_first());
                    }
                    return Err(Error::ParseError(Some("unexpected indentation".to_owned())));
                }
            },
            ClassifiedLine::KeyVal { indent, key, value } => {
                let b: usize = match base {
                    Some(x) => x,
                    None => indent,
                };
                base = Some(b);
                if indent == b {
                    // Close the previous argument.
                    match cur {
                        Some(d) => {
                            w_arguments.push(draft_to_argument(d));
                            cur = None;
                            in_values = false;
                            proof {
                                assert(w_arguments@.map_values(|a: Argument| a@)
                                    =~= pre.arguments.push(pre.cur.unwrap()));
                            }
                        },
                        None => {},
                    }
                    section = Section::Top;
                    if chars_eq(&key, &key_name) {
                        match value {
                            Some(v) => {
                                w_name = Some(v);
                            },
                            None => {
                                proof {
                                    lemma_run_not_ok(post, rest.drop_first());
                                }
                                return Err(
                                    Error::ParseError(Some("field without a value".to_owned())),
                                );
                            },
                        }
                    } else if chars_eq(&key, &key_description) {
                        match value {
                            Some(v) => {
                                w_description = Some(v);
                            },
                            None => {
                                proof {
                                    lemma_run_not_ok(post, rest.drop_first());
                                }
                                return Err(
                                    Error::ParseError(Some("field without a value".to_owned())),
                                );
                            },
                        }
                    } else if chars_eq(&key, &key_command) {
                        match value {
                            Some(v) => {
                                w_command = Some(v);
                            },
                            None => {
                                proof {
                                    lemma_run_not_ok(post, rest.drop_first());
                                }
                                return Err(
                                    Error::ParseError(Some("field without a value".to_owned())),
                                );
                            },
                        }
                    } else if chars_eq(&key, &key_source) {
                        match value {
                            Some(v) => {
                                w_source = Some(v);
                            },
                            None => {
                                proof {
                                    lemma_run_not_ok(post, rest.drop_first());
                                }
                                return Err(
                                    Error::ParseError(Some("field without a value".to_owned())),
                                );
                            },
                        }
                    } else if chars_eq(&key, &key_author) {
                        match value {
                            Some(v) => {
                                w_author = Some(v);
                            },
                            None => {
                                proof {
                                    lemma_run_not_ok(post, rest.drop_first());
                                }
                                return Err(
                                    Error::ParseError(Some("field without a value".to_owned())),
                                );
                            },
                        }
                    } else if chars_eq(&key, &key_version) {
                        match value {
                            Some(v) => {
                                w_version = Some(v);
                            },
                            None => {
                                proof {
                                    lemma_run_not_ok(post, rest.drop_first());
                                }
                                return Err(
                                    Error::ParseError(Some("field without a value".to_owned())),
                                );
                            },
                        }
                    } else if chars_eq(&key, &key_arguments) {
                        match value {
                            None => {
                                section = Section::Args;
                            },
                            Some(_) => {
                                proof {
                                    lemma_run_not_ok(post, rest.drop_first());
                                }
                                return Err(
                                    Error::ParseError(Some("list key with a value".to_owned())),
                                );
                            },
                        }
                    } else if chars_eq(&key, &key_tags) {
                        match value {
                            None => {
                                section = Section::Tags;
                            },
                            Some(_) => {
                                proof {
                                    lemma_run_not_ok(post, rest.drop_first());
                                }
                                return Err(
                                    Error::ParseError(Some("list key with a value".to_owned())),
                                );
                            },
                        }
                    } else {
                        // Unknown field: ignored.
                    }
                } else if indent > b && indent - b == 2 {
                    match cur {
                        Some(mut d) => {
                            if chars_eq(&key, &key_description) {
                                match value {
                                    Some(v) => {
                                        d.description = Some(v);
                                        in_values = false;
                                    },
                                    None => {
                                        proof {
                                            lemma_run_not_ok(post, rest.drop_first());
                                        }
                                        return Err(
                                            Error::ParseError(
                                                Some("field without a value".to_owned()),
                                            ),
                                        );
                                    },
                                }
                            } else if chars_eq(&key, &key_default) {
                                match value {
                                    Some(v) => {
                                        d.default = Some(v);
                                        in_values = false;
                                    },
                                    None => {
                                        proof {
                                            lemma_run_not_ok(post, rest.drop_first());
                                        }
                                        return Err(
                                            Error::ParseError(
                                                Some("field without a value".to_owned()),
                                            ),
                                        );
                                    },
                                }
                            } else if chars_eq(&key, &key_values) {
                                match value {
                                    None => {
                                        in_values = true;
                                    },
                                    Some(_) => {
                                        proof {
                                            lemma_run_not_ok(post, rest.drop_first());
                                        }
                                        return Err(
                                            Error::ParseError(
                                                Some("list key with a value".to_owned()),
                                            ),
                                        );
                                    },
                                }
                            } else {
                                in_values = false;
                            }
                            cur = Some(d);
                        },
                        None => {
                            proof {
                                lemma_run_not_ok(post, rest.drop_first());
                            }
                            return Err(
                                Error::ParseError(Some("field outside an argument".to_owned())),
                            );
                        },
                    }
                } else {
                    proof {
                        lemma_run_not_ok(post, rest.drop_first());
                    }
                    return Err(Error::ParseError(Some("unexpected indentation".to_owned())));
                }
            },
        }
        i += 1;
        proof {
            let now = PState {
                ok: true,
                base: bview(base),
                section: section,
                cur: dview(cur),
                in_values: in_values,
                name: oview(w_name),
                description: oview(w_description),
                command: oview(w_command),
                arguments: w_arguments@.map_values(|a: Argument| a@),
                source: oview(w_source),
                author: oview(w_author),
                version: oview(w_version),
                tags: w_tags@.map_values(|t: crate::workflow::WorkflowTag| t@),
            };
            assert(now == post);
        }
    }
    proof {
        assert(all.subrange(n as int, n as int) =~= Seq::<Seq<char>>::empty());
    }
    // Close the final state.
    match cur {
        Some(d) => {
            let ghost pre_args = w_arguments@.map_values(|a: Argument| a@);
            w_arguments.push(draft_to_argument(d));
            cur = None;
            proof {
                assert(w_arguments@.map_values(|a: Argument| a@) =~= pre_args.push(d@));
            }
        },
        None => {},
    }
    let name_chars = match w_name {
        Some(v) => v,
        None => {
            return Err(Error::ParseError(Some("the name field is missing".to_owned())));
        },
    };
    if name_chars.len() == 0 {
        return Err(Error::ParseError(Some("the name field is empty".to_owned())));
    }
    let command_chars = match w_command {
        Some(v) => v,
        None => {
            return Err(Error::ParseError(Some("the command field is missing".to_owned())));
        },
    };
    let r = Workflow {
        name: WorkflowName(chars_to_string(&name_chars)),
        description: match w_description {
            Some(v) => Some(WorkflowDescription(chars_to_string(&v))),
            None => None,
        },
        command: WorkflowCommand(chars_to_string(&command_chars)),
        arguments: w_arguments,
        source: match w_source {
            Some(v) => Some(crate::workflow::WorkflowSource(chars_to_string(&v))),
            None => None,
        },
        author: match w_author {
            Some(v) => Some(crate::workflow::WorkflowAuthor(chars_to_string(&v))),
            None => None,
        },
        version: match w_version {
            Some(v) => Some(crate::workflow::WorkflowVersion(chars_to_string(&v))),
            None => None,
        },
        tags: w_tags,
    };
    Ok(r)
}

// ---------------------------------------------------------------------------
// Serialization: the canonical form of a workflow.
// ---------------------------------------------------------------------------

/// `key: value`.
pub open spec fn kv_line(key: Seq<char>, value: Seq<char>) -> Seq<char> {
    key + seq![':', ' '] + value
}

/// `key:` — a key that opens a list.
pub open spec fn sec_line(key: Seq<char>) -> Seq<char> {
    key + seq![':']
}

/// `- content` — one list item.
pub open spec fn item_line(content: Seq<char>) -> Seq<char> {
    seq!['-', ' '] + content
}

/// Two spaces of indentation in front of a line.
pub open spec fn ind2(l: Seq<char>) -> Seq<char> {
    seq![' ', ' '] + l
}

/// The optional line of an optional scalar field.
pub open spec fn opt_line(key: Seq<char>, o: Option<Seq<char>>) -> Seq<Seq<char>> {
    match o {
        Some(v) => seq![kv_line(key, v)],
        None => Seq::empty(),
    }
}

/// The lines of the example values of one argument.
pub open spec fn values_lines(vs: Seq<Seq<char>>) -> Seq<Seq<char>>
    decreases vs.len(),
{
    if vs.len() == 0 {
        Seq::empty()
    } else {
        seq![ind2(item_line(vs[0]))] + values_lines(vs.drop_first())
    }
}

/// The lines of one argument.
pub open spec fn arg_lines(a: ArgumentView) -> Seq<Seq<char>> {
    seq![item_line(kv_line(k_name(), a.name))] + opt_arg_line(k_description(), a.description)
        + opt_arg_line(k_default(), a.default) + (if a.values.len() == 0 {
        Seq::<Seq<char>>::empty()
    } else {
        seq![ind2(sec_line(k_values()))] + values_lines(a.values)
    })
}

/// The optional, indented line of an optional argument field.
pub open spec fn opt_arg_line(key: Seq<char>, o: Option<Seq<char>>) -> Seq<Seq<char>> {
    match o {
        Some(v) => seq![ind2(kv_line(key, v))],
        None => Seq::empty(),
    }
}

/// The lines of the whole argument list.
pub open spec fn args_lines(args: Seq<ArgumentView>) -> Seq<Seq<char>>
    decreases args.len(),
{
    if args.len() == 0 {
        Seq::empty()
    } else {
        arg_lines(args[0]) + args_lines(args.drop_first())
    }
}

/// The lines of the tag list.
pub open spec fn tags_lines(ts: Seq<Seq<char>>) -> Seq<Seq<char>>
    decreases ts.len(),
{
    if ts.len() == 0 {
        Seq::empty()
    } else {
        seq![item_line(ts[0])] + tags_lines(ts.drop_first())
    }
}

/// The `arguments:` section, empty when there are no arguments.
pub open spec fn args_seg(args: Seq<ArgumentView>) -> Seq<Seq<char>> {
    if args.len() == 0 {
        Seq::empty()
    } else {
        seq![sec_line(k_arguments())] + args_lines(args)
    }
}

/// The `tags:` section, empty when there are no tags.
pub open spec fn tags_seg(ts: Seq<Seq<char>>) -> Seq<Seq<char>> {
    if ts.len() == 0 {
        Seq::empty()
    } else {
        seq![sec_line(k_tags())] + tags_lines(ts)
    }
}

/// The canonical lines of a workflow record.
pub open spec fn ser_lines(w: WorkflowView) -> Seq<Seq<char>> {
    seq![kv_line(k_name(), w.name)] + opt_line(k_description(), w.description) + seq![
        kv_line(k_command(), w.command),
    ] + args_seg(w.arguments) + opt_line(k_source(), w.source) + opt_line(k_author(), w.author)
        + opt_line(k_version(), w.version) + tags_seg(w.tags)
}

/// The canonical text of a workflow record.
pub open spec fn ser_view(w: WorkflowView) -> Seq<char> {
    join_seq(ser_lines(w), '\n')
}

/// Appending one value at the end appends its line.
pub proof fn lemma_values_lines_push(vs: Seq<Seq<char>>, v: Seq<char>)
    ensures
        values_lines(vs.push(v)) == values_lines(vs) + seq![ind2(item_line(v))],
    decreases vs.len(),
{
    if vs.len() == 0 {
        assert(vs.push(v)[0] == v);
        assert(vs.push(v).drop_first() =~= Seq::<Seq<char>>::empty());
        assert(values_lines(vs.push(v).drop_first()) == Seq::<Seq<char>>::empty());
        assert(values_lines(vs.push(v)) == seq![ind2(item_line(v))] + Seq::<Seq<char>>::empty());
        assert(seq![ind2(item_line(v))] + Seq::<Seq<char>>::empty() =~= values_lines(vs) + seq![
            ind2(item_line(v)),
        ]);
    } else {
        assert(vs.push(v)[0] == vs[0]);
        assert(vs.push(v).drop_first() =~= vs.drop_first().push(v));
        lemma_values_lines_push(vs.drop_first(), v);
        let x = ind2(item_line(vs[0]));
        let b2 = values_lines(vs.drop_first());
        let c2 = seq![ind2(item_line(v))];
        assert(values_lines(vs.push(v)) == seq![x] + (b2 + c2));
        assert(values_lines(vs) == seq![x] + b2);
        assert(seq![x] + (b2 + c2) =~= (seq![x] + b2) + c2);
    }
}

/// Appending one argument at the end appends its lines.
pub proof fn lemma_args_lines_push(args: Seq<ArgumentView>, a: ArgumentView)
    ensures
        args_lines(args.push(a)) == args_lines(args) + arg_lines(a),
    decreases args.len(),
{
    if args.len() == 0 {
        assert(args.push(a)[0] == a);
        assert(args.push(a).drop_first() =~= Seq::<ArgumentView>::empty());
        assert(args_lines(args.push(a).drop_first()) == Seq::<Seq<char>>::empty());
        assert(args_lines(args.push(a)) == arg_lines(a) + Seq::<Seq<char>>::empty());
        assert(arg_lines(a) + Seq::<Seq<char>>::empty() =~= args_lines(args) + arg_lines(a));
    } else {
        assert(args.push(a)[0] == args[0]);
        assert(args.push(a).drop_first() =~= args.drop_first().push(a));
        lemma_args_lines_push(args.drop_first(), a);
        let x = arg_lines(args[0]);
        let b2 = args_lines(args.drop_first());
        let c2 = arg_lines(a);
        assert(args_lines(args.push(a)) == x + (b2 + c2));
        assert(args_lines(args) == x + b2);
        assert(x + (b2 + c2) =~= (x + b2) + c2);
    }
}

/// Appending one tag at the end appends its line.
pub proof fn lemma_tags_lines_push(ts: Seq<Seq<char>>, t: Seq<char>)
    ensures
        tags_lines(ts.push(t)) == tags_lines(ts) + seq![item_line(t)],
    decreases ts.len(),
{
    if ts.len() == 0 {
        assert(ts.push(t)[0] == t);
        assert(ts.push(t).drop_first() =~= Seq::<Seq<char>>::empty());
        assert(tags_lines(ts.push(t).drop_first()) == Seq::<Seq<char>>::empty());
        assert(tags_lines(ts.push(t)) == seq![item_line(t)] + Seq::<Seq<char>>::empty());
        assert(seq![item_line(t)] + Seq::<Seq<char>>::empty() =~= tags_lines(ts) + seq![
            item_line(t),
        ]);
    } else {
        assert(ts.push(t)[0] == ts[0]);
        assert(ts.push(t).drop_first() =~= ts.drop_first().push(t));
        lemma_tags_lines_push(ts.drop_first(), t);
        let x = item_line(ts[0]);
        let b2 = tags_lines(ts.drop_first());
        let c2 = seq![item_line(t)];
        assert(tags_lines(ts.push(t)) == seq![x] + (b2 + c2));
        assert(tags_lines(ts) == seq![x] + b2);
        assert(seq![x] + (b2 + c2) =~= (seq![x] + b2) + c2);
    }
}

/// Build `key: value` as characters.
fn kv_vec(key: &str, value: &str) -> (r: Vec<char>)
    ensures
        r@ == kv_line(key@, value@),
{
    let mut r = str_to_chars(key);
    let ghost k = r@;
    r.push(':');
    r.push(' ');
    let tail = str_to_chars(value);
    let mut i: usize = 0;
    while i < tail.len()
        invariant
            tail@ == value@,
            i <= tail@.len(),
            r@ == k + seq![':', ' '] + tail@.subrange(0, i as int),
        decreases tail@.len() - i,
    {
        r.push(tail[i]);
        i += 1;
        proof {
            assert(r@ =~= k + seq![':', ' '] + tail@.subrange(0, i as int));
        }
    }
    proof {
        assert(r@ =~= kv_line(key@, value@));
    }
    r
}

/// Build `key:` as characters.
fn sec_vec(key: &str) -> (r: Vec<char>)
    ensures
        r@ == sec_line(key@),
{
    let mut r = str_to_chars(key);
    r.push(':');
    proof {
        assert(r@ =~= sec_line(key@));
    }
    r
}

/// Put two characters in front of a line.
fn prefixed(p0: char, p1: char, l: Vec<char>) -> (r: Vec<char>)
    ensures
        r@ == seq![p0, p1] + l@,
{
    let mut r: Vec<char> = Vec::new();
    r.push(p0);
    r.push(p1);
    let mut i: usize = 0;
    while i < l.len()
        invariant
            i <= l@.len(),
            r@ == seq![p0, p1] + l@.subrange(0, i as int),
        decreases l@.len() - i,
    {
        r.push(l[i]);
        i += 1;
        proof {
            assert(r@ =~= seq![p0, p1] + l@.subrange(0, i as int));
        }
    }
    proof {
        assert(r@ =~= seq![p0, p1] + l@);
    }
    r
}

/// The canonical lines of one argument.
fn arg_to_lines(a: &Argument) -> (r: Vec<Vec<char>>)
    ensures
        r@.map_values(|l: Vec<char>| l@) == arg_lines(a@),
{
    let mut r: Vec<Vec<char>> = Vec::new();
    r.push(prefixed('-', ' ', kv_vec("name", a.name.0.as_str())));
    match &a.description {
        Some(d) => {
            r.push(prefixed(' ', ' ', kv_vec("description", d.0.as_str())));
        },
        None => {},
    }
    match &a.default {
        Some(d) => {
            r.push(prefixed(' ', ' ', kv_vec("default_value", d.0.as_str())));
        },
        None => {},
    }
    let ghost head = r@.map_values(|l: Vec<char>| l@);
    proof {
        assert(head =~= seq![item_line(kv_line(k_name(), a@.name))] + opt_arg_line(
            k_description(),
            a@.description,
        ) + opt_arg_line(k_default(), a@.default));
    }
    if a.values.len() > 0 {
        r.push(prefixed(' ', ' ', sec_vec("values")));
        let ghost head2 = r@.map_values(|l: Vec<char>| l@);
        proof {
            assert(head2 =~= head + seq![ind2(sec_line(k_values()))]);
        }
        let mut i: usize = 0;
        while i < a.values.len()
            invariant
                head2 == head + seq![ind2(sec_line(k_values()))],
                i <= a.values@.len(),
                r@.map_values(|l: Vec<char>| l@) == head2 + values_lines(
                    a.values@.map_values(|v: crate::workflow::ArgumentValue| v@).subrange(
                        0,
                        i as int,
                    ),
                ),
            decreases a.values@.len() - i,
        {
            let ghost vals = a.values@.map_values(|v: crate::workflow::ArgumentValue| v@);
            let line = prefixed(' ', ' ', prefixed('-', ' ', str_to_chars(a.values[i].0.as_str())));
            let ghost before = r@.map_values(|l: Vec<char>| l@);
            r.push(line);
            i += 1;
            proof {
                assert(vals.subrange(0, i as int) =~= vals.subrange(0, i - 1).push(vals[i - 1]));
                lemma_values_lines_push(vals.subrange(0, i - 1), vals[i - 1]);
                assert(line@ == ind2(item_line(vals[i - 1])));
                assert(r@.map_values(|l: Vec<char>| l@) =~= before.push(line@));
                assert(r@.map_values(|l: Vec<char>| l@) =~= head2 + values_lines(
                    vals.subrange(0, i as int),
                ));
            }
        }
        proof {
            let vals = a.values@.map_values(|v: crate::workflow::ArgumentValue| v@);
            assert(vals.subrange(0, vals.len() as int) =~= vals);
            assert(a@.values == vals);
            assert(r@.map_values(|l: Vec<char>| l@) =~= arg_lines(a@));
        }
    } else {
        proof {
            assert(a@.values.len() == 0);
            assert(r@.map_values(|l: Vec<char>| l@) =~= arg_lines(a@));
        }
    }
    r
}

/// Copy a character vector.
fn clone_chars(v: &Vec<char>) -> (r: Vec<char>)
    ensures
        r@ == v@,
{
    let r = sub_chars(v, 0, v.len());
    proof {
        assert(v@.subrange(0, v@.len() as int) =~= v@);
    }
    r
}

/// The canonical lines of a workflow record.
#[verifier::rlimit(50)]
fn serialize_lines(w: &Workflow) -> (r: Vec<Vec<char>>)
    ensures
        r@.map_values(|l: Vec<char>| l@) == ser_lines(w@),
{
    let mut r: Vec<Vec<char>> = Vec::new();
    r.push(kv_vec("name", w.name.0.as_str()));
    match &w.description {
        Some(d) => {
            r.push(kv_vec("description", d.0.as_str()));
        },
        None => {},
    }
    r.push(kv_vec("command", w.command.0.as_str()));
    let ghost seg1 = r@.map_values(|l: Vec<char>| l@);
    proof {
        assert(seg1 =~= seq![kv_line(k_name(), w@.name)] + opt_line(
            k_description(),
            w@.description,
        ) + seq![kv_line(k_command(), w@.command)]);
    }
    if w.arguments.len() > 0 {
        r.push(sec_vec("arguments"));
        let ghost seg2 = r@.map_values(|l: Vec<char>| l@);
        proof {
            assert(seg2 =~= seg1 + seq![sec_line(k_arguments())]);
        }
        let mut i: usize = 0;
        while i < w.arguments.len()
            invariant
                seg2 == seg1 + seq![sec_line(k_arguments())],
                i <= w.arguments@.len(),
                r@.map_values(|l: Vec<char>| l@) == seg2 + args_lines(
                    w.arguments@.map_values(|a: Argument| a@).subrange(0, i as int),
                ),
            decreases w.arguments@.len() - i,
        {
            let ghost avs = w.arguments@.map_values(|a: Argument| a@);
            let sub = arg_to_lines(&w.arguments[i]);
            let mut j: usize = 0;
            let ghost before = r@.map_values(|l: Vec<char>| l@);
            while j < sub.len()
                invariant
                    j <= sub@.len(),
                    r@.map_values(|l: Vec<char>| l@) == before + sub@.map_values(
                        |l: Vec<char>| l@,
                    ).subrange(0, j as int),
                decreases sub@.len() - j,
            {
                let ghost mid = r@.map_values(|l: Vec<char>| l@);
                r.push(clone_chars(&sub[j]));
                j += 1;
                proof {
                    assert(r@.map_values(|l: Vec<char>| l@) =~= mid.push(sub@[j - 1]@));
                    assert(r@.map_values(|l: Vec<char>| l@) =~= before + sub@.map_values(
                        |l: Vec<char>| l@,
                    ).subrange(0, j as int));
                }
            }
            i += 1;
            proof {
                assert(sub@.map_values(|l: Vec<char>| l@).subrange(0, sub@.len() as int) =~= sub@
                    .map_values(|l: Vec<char>| l@));
                assert(avs.subrange(0, i as int) =~= avs.subrange(0, i - 1).push(avs[i - 1]));
                lemma_args_lines_push(avs.subrange(0, i - 1), avs[i - 1]);
                assert(r@.map_values(|l: Vec<char>| l@) =~= seg2 + args_lines(
                    avs.subrange(0, i as int),
                ));
            }
        }
        proof {
            let avs = w.arguments@.map_values(|a: Argument| a@);
            assert(avs.subrange(0, avs.len() as int) =~= avs);
        }
    }
    let ghost seg3 = r@.map_values(|l: Vec<char>| l@);
    proof {
        assert(seg3 =~= seg1 + args_seg(w@.arguments));
    }
    match &w.source {
        Some(v) => {
            r.push(kv_vec("source_url", v.0.as_str()));
        },
        None => {},
    }
    match &w.author {
        Some(v) => {
            r.push(kv_vec("author", v.0.as_str()));
        },
        None => {},
    }
    match &w.version {
        Some(v) => {
            r.push(kv_vec("version", v.0.as_str()));
        },
        None => {},
    }
    let ghost seg4 = r@.map_values(|l: Vec<char>| l@);
    proof {
        assert(seg4 =~= seg3 + opt_line(k_source(), w@.source) + opt_line(k_author(), w@.author)
            + opt_line(k_version(), w@.version));
    }
    if w.tags.len() > 0 {
        r.push(sec_vec("tags"));
        let ghost seg5 = r@.map_values(|l: Vec<char>| l@);
        proof {
            assert(seg5 =~= seg4 + seq![sec_line(k_tags())]);
        }
        let mut i: usize = 0;
        while i < w.tags.len()
            invariant
                seg5 == seg4 + seq![sec_line(k_tags())],
                i <= w.tags@.len(),
                r@.map_values(|l: Vec<char>| l@) == seg5 + tags_lines(
                    w.tags@.map_values(|t: crate::workflow::WorkflowTag| t@).subrange(0, i as int),
                ),
            decreases w.tags@.len() - i,
        {
            let ghost tvs = w.tags@.map_values(|t: crate::workflow::WorkflowTag| t@);
            let line = prefixed('-', ' ', str_to_chars(w.tags[i].0.as_str()));
            let ghost before = r@.map_values(|l: Vec<char>| l@);
            r.push(line);
            i += 1;
            proof {
                assert(tvs.subrange(0, i as int) =~= tvs.subrange(0, i - 1).push(tvs[i - 1]));
                lemma_tags_lines_push(tvs.subrange(0, i - 1), tvs[i - 1]);
                assert(line@ == item_line(tvs[i - 1]));
                assert(r@.map_values(|l: Vec<char>| l@) =~= before.push(line@));
                assert(r@.map_values(|l: Vec<char>| l@) =~= seg5 + tags_lines(
                    tvs.subrange(0, i as int),
                ));
            }
        }
        proof {
            let tvs = w.tags@.map_values(|t: crate::workflow::WorkflowTag| t@);
            assert(tvs.subrange(0, tvs.len() as int) =~= tvs);
        }
    }
    proof {
        assert(r@.map_values(|l: Vec<char>| l@) =~= ser_lines(w@));
    }
    r
}

/// Render a workflow record into its canonical document text.
pub fn serialize_document(w: &Workflow) -> (r: String)
    ensures
        r@ == ser_view(w@),
{
    let lines = serialize_lines(w);
    let joined = join_chars(&lines, '\n');
    chars_to_string(&joined)
}

/// The checksum of a workflow: the fingerprint of its canonical text.
pub open spec fn checksum_of(w: WorkflowView) -> u64 {
    crate::hasher::sip13_of(ser_view(w))
}

impl Workflow {
    /// The 64-bit fingerprint of this record's canonical textual form.
    pub fn checksum(&self) -> (r: u64)
        ensures
            r == checksum_of(self@),
    {
        let text = serialize_document(self);
        crate::hasher::Hasher::new().hash(text.as_str())
    }
}

/// Parse one document text into a workflow record.
pub fn parse_document(text: &str) -> (r: Result<Workflow, Error>)
    ensures
        (match r {
            Ok(w) => parse_spec(text@) == Some(w@),
            Err(e) => parse_spec(text@) is None && e is ParseError,
        }),
{
    let cs = str_to_chars(text);
    let lines = split_chars(&cs, '\n');
    parse_lines(&lines)
}

} // verus!
