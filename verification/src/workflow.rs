use vstd::prelude::*;
use crate::text::{chars_to_string, lower_char, lower_char_exec, str_to_chars, trim_chars,
    trim_seq};

verus! {

// ---------------------------------------------------------------------------
// Field newtypes.
// ---------------------------------------------------------------------------

/// The human-readable title of a workflow.
#[derive(Debug, PartialEq, Eq)]
pub struct WorkflowName(pub String);

impl View for WorkflowName {
    type V = Seq<char>;

    open spec fn view(&self) -> Seq<char> {
        self.0@
    }
}

impl Clone for WorkflowName {
    fn clone(&self) -> (r: Self)
        ensures
            r == *self,
    {
        WorkflowName(self.0.clone())
    }
}

impl WorkflowName {
    pub fn new(value: &str) -> (r: Self)
        ensures
            r@ == value@,
    {
        WorkflowName(value.to_owned())
    }

    pub fn inner(&self) -> (r: &str)
        ensures
            r@ == self@,
    {
        self.0.as_str()
    }
}

/// The free-text description of a workflow.
#[derive(Debug, PartialEq, Eq)]
pub struct WorkflowDescription(pub String);

impl View for WorkflowDescription {
    type V = Seq<char>;

    open spec fn view(&self) -> Seq<char> {
        self.0@
    }
}

impl Clone for WorkflowDescription {
    fn clone(&self) -> (r: Self)
        ensures
            r == *self,
    {
        WorkflowDescription(self.0.clone())
    }
}

impl WorkflowDescription {
    pub fn new(value: &str) -> (r: Self)
        ensures
            r@ == value@,
    {
        WorkflowDescription(value.to_owned())
    }

    pub fn inner(&self) -> (r: &str)
        ensures
            r@ == self@,
    {
        self.0.as_str()
    }
}

/// The command template of a workflow, holding `{{name}}` placeholders.
#[derive(Debug, PartialEq, Eq)]
pub struct WorkflowCommand(pub String);

impl View for WorkflowCommand {
    type V = Seq<char>;

    open spec fn view(&self) -> Seq<char> {
        self.0@
    }
}

impl Clone for WorkflowCommand {
    fn clone(&self) -> (r: Self)
        ensures
            r == *self,
    {
        WorkflowCommand(self.0.clone())
    }
}

impl WorkflowCommand {
    pub fn new(value: &str) -> (r: Self)
        ensures
            r@ == value@,
    {
        WorkflowCommand(value.to_owned())
    }

    pub fn inner(&self) -> (r: &str)
        ensures
            r@ == self@,
    {
        self.0.as_str()
    }
}

/// The link to where a workflow came from.
#[derive(Debug, PartialEq, Eq)]
pub struct WorkflowSource(pub String);

impl View for WorkflowSource {
    type V = Seq<char>;

    open spec fn view(&self) -> Seq<char> {
        self.0@
    }
}

impl Clone for WorkflowSource {
    fn clone(&self) -> (r: Self)
        ensures
            r == *self,
    {
        WorkflowSource(self.0.clone())
    }
}

impl WorkflowSource {
    pub fn new(value: &str) -> (r: Self)
        ensures
            r@ == value@,
    {
        WorkflowSource(value.to_owned())
    }

    pub fn inner(&self) -> (r: &str)
        ensures
            r@ == self@,
    {
        self.0.as_str()
    }
}

/// The author of a workflow.
#[derive(Debug, PartialEq, Eq)]
pub struct WorkflowAuthor(pub String);

impl View for WorkflowAuthor {
    type V = Seq<char>;

    open spec fn view(&self) -> Seq<char> {
        self.0@
    }
}

impl Clone for WorkflowAuthor {
    fn clone(&self) -> (r: Self)
        ensures
            r == *self,
    {
        WorkflowAuthor(self.0.clone())
    }
}

impl WorkflowAuthor {
    pub fn new(value: &str) -> (r: Self)
        ensures
            r@ == value@,
    {
        WorkflowAuthor(value.to_owned())
    }

    pub fn inner(&self) -> (r: &str)
        ensures
            r@ == self@,
    {
        self.0.as_str()
    }
}

/// The version string of a workflow.
#[derive(Debug, PartialEq, Eq)]
pub struct WorkflowVersion(pub String);

impl View for WorkflowVersion {
    type V = Seq<char>;

    open spec fn view(&self) -> Seq<char> {
        self.0@
    }
}

impl Clone for WorkflowVersion {
    fn clone(&self) -> (r: Self)
        ensures
            r == *self,
    {
        WorkflowVersion(self.0.clone())
    }
}

impl WorkflowVersion {
    pub fn new(value: &str) -> (r: Self)
        ensures
            r@ == value@,
    {
        WorkflowVersion(value.to_owned())
    }

    pub fn inner(&self) -> (r: &str)
        ensures
            r@ == self@,
    {
        self.0.as_str()
    }
}

/// One free-text label attached to a workflow.
#[derive(Debug, PartialEq, Eq)]
pub struct WorkflowTag(pub String);

impl View for WorkflowTag {
    type V = Seq<char>;

    open spec fn view(&self) -> Seq<char> {
        self.0@
    }
}

impl Clone for WorkflowTag {
    fn clone(&self) -> (r: Self)
        ensures
            r == *self,
    {
        WorkflowTag(self.0.clone())
    }
}

impl WorkflowTag {
    pub fn new(value: &str) -> (r: Self)
        ensures
            r@ == value@,
    {
        WorkflowTag(value.to_owned())
    }

    pub fn inner(&self) -> (r: &str)
        ensures
            r@ == self@,
    {
        self.0.as_str()
    }
}

/// The normalized key under which a workflow is stored.
#[derive(Debug, PartialEq, Eq)]
pub struct WorkflowId(pub String);

impl View for WorkflowId {
    type V = Seq<char>;

    open spec fn view(&self) -> Seq<char> {
        self.0@
    }
}

impl Clone for WorkflowId {
    fn clone(&self) -> (r: Self)
        ensures
            r == *self,
    {
        WorkflowId(self.0.clone())
    }
}

impl WorkflowId {
    pub fn inner(&self) -> (r: &str)
        ensures
            r@ == self@,
    {
        self.0.as_str()
    }
}

// ---------------------------------------------------------------------------
// Argument newtypes.
// ---------------------------------------------------------------------------

/// The name of one parameter of a workflow.
#[derive(Debug, PartialEq, Eq)]
pub struct ArgumentName(pub String);

impl View for ArgumentName {
    type V = Seq<char>;

    open spec fn view(&self) -> Seq<char> {
        self.0@
    }
}

impl Clone for ArgumentName {
    fn clone(&self) -> (r: Self)
        ensures
            r == *self,
    {
        ArgumentName(self.0.clone())
    }
}

impl ArgumentName {
    pub fn new(value: &str) -> (r: Self)
        ensures
            r@ == value@,
    {
        ArgumentName(value.to_owned())
    }

    pub fn inner(&self) -> (r: &str)
        ensures
            r@ == self@,
    {
        self.0.as_str()
    }
}

/// The help text of one parameter.
#[derive(Debug, PartialEq, Eq)]
pub struct ArgumentDescription(pub String);

impl View for ArgumentDescription {
    type V = Seq<char>;

    open spec fn view(&self) -> Seq<char> {
        self.0@
    }
}

impl Clone for ArgumentDescription {
    fn clone(&self) -> (r: Self)
        ensures
            r == *self,
    {
        ArgumentDescription(self.0.clone())
    }
}

impl ArgumentDescription {
    pub fn new(value: &str) -> (r: Self)
        ensures
            r@ == value@,
    {
        ArgumentDescription(value.to_owned())
    }

    pub fn inner(&self) -> (r: &str)
        ensures
            r@ == self@,
    {
        self.0.as_str()
    }
}

/// The value used for a parameter when the user supplies none.
#[derive(Debug, PartialEq, Eq)]
pub struct ArgumentDefault(pub String);

impl View for ArgumentDefault {
    type V = Seq<char>;

    open spec fn view(&self) -> Seq<char> {
        self.0@
    }
}

impl Clone for ArgumentDefault {
    fn clone(&self) -> (r: Self)
        ensures
            r == *self,
    {
        ArgumentDefault(self.0.clone())
    }
}

impl ArgumentDefault {
    pub fn new(value: &str) -> (r: Self)
        ensures
            r@ == value@,
    {
        ArgumentDefault(value.to_owned())
    }

    pub fn inner(&self) -> (r: &str)
        ensures
            r@ == self@,
    {
        self.0.as_str()
    }
}

/// One example value of a parameter, used only for suggestion ranking.
#[derive(Debug, PartialEq, Eq)]
pub struct ArgumentValue(pub String);

impl View for ArgumentValue {
    type V = Seq<char>;

    open spec fn view(&self) -> Seq<char> {
        self.0@
    }
}

impl Clone for ArgumentValue {
    fn clone(&self) -> (r: Self)
        ensures
            r == *self,
    {
        ArgumentValue(self.0.clone())
    }
}

impl ArgumentValue {
    pub fn new(value: &str) -> (r: Self)
        ensures
            r@ == value@,
    {
        ArgumentValue(value.to_owned())
    }

    pub fn inner(&self) -> (r: &str)
        ensures
            r@ == self@,
    {
        self.0.as_str()
    }
}

// ---------------------------------------------------------------------------
// Argument.
// ---------------------------------------------------------------------------

/// The mathematical shape of one argument.
pub struct ArgumentView {
    pub name: Seq<char>,
    pub description: Option<Seq<char>>,
    pub default: Option<Seq<char>>,
    pub values: Seq<Seq<char>>,
}

/// One named parameter of a workflow.
#[derive(Debug, PartialEq, Eq)]
pub struct Argument {
    pub name: ArgumentName,
    pub description: Option<ArgumentDescription>,
    pub default: Option<ArgumentDefault>,
    pub values: Vec<ArgumentValue>,
}

impl View for Argument {
    type V = ArgumentView;

    open spec fn view(&self) -> ArgumentView {
        ArgumentView {
            name: self.name@,
            description: match self.description {
                Some(d) => Some(d@),
                None => None,
            },
            default: match self.default {
                Some(d) => Some(d@),
                None => None,
            },
            values: self.values@.map_values(|v: ArgumentValue| v@),
        }
    }
}

impl Clone for Argument {
    fn clone(&self) -> (r: Self)
        ensures
            r@ == self@,
            r.name == self.name,
            r.description == self.description,
            r.default == self.default,
            r.values@ == self.values@,
    {
        let description = match &self.description {
            Some(d) => Some(d.clone()),
            None => None,
        };
        let default = match &self.default {
            Some(d) => Some(d.clone()),
            None => None,
        };
        let mut values: Vec<ArgumentValue> = Vec::new();
        let mut i: usize = 0;
        while i < self.values.len()
            invariant
                i <= self.values@.len(),
                values@ == self.values@.subrange(0, i as int),
            decreases self.values@.len() - i,
        {
            values.push(self.values[i].clone());
            i += 1;
            proof {
                assert(values@ =~= self.values@.subrange(0, i as int));
            }
        }
        proof {
            assert(values@ =~= self.values@);
        }
        Argument { name: self.name.clone(), description, default, values }
    }
}

impl Argument {
    pub fn new(
        name: &str,
        description: Option<&str>,
        default: Option<&str>,
        values: Vec<ArgumentValue>,
    ) -> (r: Self)
        ensures
            r@.name == name@,
            r@.description == (match description {
                Some(d) => Some(d@),
                None => None::<Seq<char>>,
            }),
            r@.default == (match default {
                Some(d) => Some(d@),
                None => None::<Seq<char>>,
            }),
            r@.values == values@.map_values(|v: ArgumentValue| v@),
    {
        Argument {
            name: ArgumentName(name.to_owned()),
            description: match description {
                Some(d) => Some(ArgumentDescription(d.to_owned())),
                None => None,
            },
            default: match default {
                Some(d) => Some(ArgumentDefault(d.to_owned())),
                None => None,
            },
            values,
        }
    }

    /// A bare argument: a name, an optional default and example values.
    pub fn skinny(name: &str, default: Option<&str>, values: Vec<&str>) -> (r: Self)
        ensures
            r@.name == name@,
            r@.description == None::<Seq<char>>,
            r@.default == (match default {
                Some(d) => Some(d@),
                None => None::<Seq<char>>,
            }),
            r@.values == values@.map_values(|v: &str| v@),
    {
        let mut vs: Vec<ArgumentValue> = Vec::new();
        let mut i: usize = 0;
        while i < values.len()
            invariant
                i <= values@.len(),
                vs@.len() == i,
                forall|k: int| 0 <= k < i ==> (#[trigger] vs@[k])@ == values@[k]@,
            decreases values@.len() - i,
        {
            vs.push(ArgumentValue(values[i].to_owned()));
            i += 1;
        }
        proof {
            assert(vs@.map_values(|v: ArgumentValue| v@) =~= values@.map_values(|v: &str| v@));
        }
        Argument {
            name: ArgumentName(name.to_owned()),
            description: None,
            default: match default {
                Some(d) => Some(ArgumentDefault(d.to_owned())),
                None => None,
            },
            values: vs,
        }
    }

    /// Same shape as `skinny`, under the name some callers use.
    pub fn slim(name: &str, default: Option<&str>, values: Vec<&str>) -> (r: Self)
        ensures
            r@.name == name@,
            r@.description == None::<Seq<char>>,
            r@.default == (match default {
                Some(d) => Some(d@),
                None => None::<Seq<char>>,
            }),
            r@.values == values@.map_values(|v: &str| v@),
    {
        Argument::skinny(name, default, values)
    }

    pub fn name(&self) -> (r: &ArgumentName)
        ensures
            r@ == self@.name,
    {
        &self.name
    }

    pub fn description(&self) -> (r: Option<&ArgumentDescription>)
        ensures
            (match r {
                Some(d) => self@.description == Some(d@),
                None => self@.description == None::<Seq<char>>,
            }),
    {
        self.description.as_ref()
    }

    /// The description, or the empty string where there is none.
    pub fn def_description(&self) -> (r: &str)
        ensures
            (match self@.description {
                Some(d) => r@ == d,
                None => r@ == Seq::<char>::empty(),
            }),
    {
        proof {
            reveal_strlit("");
        }
        match &self.description {
            Some(d) => d.inner(),
            None => "",
        }
    }

    pub fn default(&self) -> (r: Option<&ArgumentDefault>)
        ensures
            (match r {
                Some(d) => self@.default == Some(d@),
                None => self@.default == None::<Seq<char>>,
            }),
    {
        self.default.as_ref()
    }

    pub fn values(&self) -> (r: &Vec<ArgumentValue>)
        ensures
            r@.map_values(|v: ArgumentValue| v@) == self@.values,
    {
        &self.values
    }
}

// ---------------------------------------------------------------------------
// Workflow.
// ---------------------------------------------------------------------------

/// The mathematical shape of a workflow record.
pub struct WorkflowView {
    pub name: Seq<char>,
    pub description: Option<Seq<char>>,
    pub command: Seq<char>,
    pub arguments: Seq<ArgumentView>,
    pub source: Option<Seq<char>>,
    pub author: Option<Seq<char>>,
    pub version: Option<Seq<char>>,
    pub tags: Seq<Seq<char>>,
}

/// A named, versioned command template.
#[derive(Debug, PartialEq, Eq)]
pub struct Workflow {
    pub name: WorkflowName,
    pub description: Option<WorkflowDescription>,
    pub command: WorkflowCommand,
    pub arguments: Vec<Argument>,
    pub source: Option<WorkflowSource>,
    pub author: Option<WorkflowAuthor>,
    pub version: Option<WorkflowVersion>,
    pub tags: Vec<WorkflowTag>,
}

impl View for Workflow {
    type V = WorkflowView;

    open spec fn view(&self) -> WorkflowView {
        WorkflowView {
            name: self.name@,
            description: match self.description {
                Some(d) => Some(d@),
                None => None,
            },
            command: self.command@,
            arguments: self.arguments@.map_values(|a: Argument| a@),
            source: match self.source {
                Some(s) => Some(s@),
                None => None,
            },
            author: match self.author {
                Some(a) => Some(a@),
                None => None,
            },
            version: match self.version {
                Some(v) => Some(v@),
                None => None,
            },
            tags: self.tags@.map_values(|t: WorkflowTag| t@),
        }
    }
}

impl Clone for Workflow {
    fn clone(&self) -> (r: Self)
        ensures
            r@ == self@,
            r.name == self.name,
            r.description == self.description,
            r.command == self.command,
            r.source == self.source,
            r.author == self.author,
            r.version == self.version,
            r.tags@ == self.tags@,
    {
        let description = match &self.description {
            Some(d) => Some(d.clone()),
            None => None,
        };
        let source = match &self.source {
            Some(s) => Some(s.clone()),
            None => None,
        };
        let author = match &self.author {
            Some(a) => Some(a.clone()),
            None => None,
        };
        let version = match &self.version {
            Some(v) => Some(v.clone()),
            None => None,
        };
        let mut arguments: Vec<Argument> = Vec::new();
        let mut i: usize = 0;
        while i < self.arguments.len()
            invariant
                i <= self.arguments@.len(),
                arguments@.len() == i,
                forall|k: int| 0 <= k < i ==> (#[trigger] arguments@[k])@ == self.arguments@[k]@,
            decreases self.arguments@.len() - i,
        {
            arguments.push(self.arguments[i].clone());
            i += 1;
        }
        let mut tags: Vec<WorkflowTag> = Vec::new();
        let mut j: usize = 0;
        while j < self.tags.len()
            invariant
                j <= self.tags@.len(),
                tags@ == self.tags@.subrange(0, j as int),
            decreases self.tags@.len() - j,
        {
            tags.push(self.tags[j].clone());
            j += 1;
            proof {
                assert(tags@ =~= self.tags@.subrange(0, j as int));
            }
        }
        proof {
            assert(tags@ =~= self.tags@);
            assert(arguments@.map_values(|a: Argument| a@) =~= self.arguments@.map_values(
                |a: Argument| a@,
            ));
        }
        Workflow {
            name: self.name.clone(),
            description,
            command: self.command.clone(),
            arguments,
            source,
            author,
            version,
            tags,
        }
    }
}

/// Normalization of one character of a workflow name: lower the case, then
/// turn `-` and space into `_`.
pub open spec fn norm_char(c: char) -> char {
    let l = lower_char(c);
    if l == '-' || l == ' ' {
        '_'
    } else {
        l
    }
}

/// The id derived from a workflow name: the trimmed name, lowered, with `-`
/// and space replaced by `_`.
pub open spec fn id_of_name(name: Seq<char>) -> Seq<char> {
    trim_seq(name).map_values(|c: char| norm_char(c))
}

/// Normalize a workflow name to its id.
pub fn normalize_name(name: &str) -> (r: String)
    ensures
        r@ == id_of_name(name@),
{
    let cs = str_to_chars(name);
    let trimmed = trim_chars(&cs);
    let mut out: Vec<char> = Vec::new();
    let mut i: usize = 0;
    while i < trimmed.len()
        invariant
            trimmed@ == trim_seq(name@),
            i <= trimmed@.len(),
            out@ == trimmed@.subrange(0, i as int).map_values(|c: char| norm_char(c)),
        decreases trimmed@.len() - i,
    {
        let l = lower_char_exec(trimmed[i]);
        if l == '-' || l == ' ' {
            out.push('_');
        } else {
            out.push(l);
        }
        i += 1;
        proof {
            assert(out@ =~= trimmed@.subrange(0, i as int).map_values(|c: char| norm_char(c)));
        }
    }
    proof {
        assert(trimmed@.subrange(0, trimmed@.len() as int) =~= trimmed@);
    }
    chars_to_string(&out)
}

impl Workflow {
    pub fn new(
        name: &str,
        description: Option<&str>,
        command: &str,
        arguments: Vec<Argument>,
        source: Option<&str>,
        author: Option<&str>,
        tags: Vec<WorkflowTag>,
    ) -> (r: Self)
        ensures
            r@.name == name@,
            r@.description == (match description {
                Some(d) => Some(d@),
                None => None::<Seq<char>>,
            }),
            r@.command == command@,
            r@.arguments == arguments@.map_values(|a: Argument| a@),
            r@.source == (match source {
                Some(s) => Some(s@),
                None => None::<Seq<char>>,
            }),
            r@.author == (match author {
                Some(a) => Some(a@),
                None => None::<Seq<char>>,
            }),
            r@.version == Some("0.0.1"@),
            r@.tags == tags@.map_values(|t: WorkflowTag| t@),
    {
        Workflow {
            name: WorkflowName(name.to_owned()),
            description: match description {
                Some(d) => Some(WorkflowDescription(d.to_owned())),
                None => None,
            },
            command: WorkflowCommand(command.to_owned()),
            arguments,
            source: match source {
                Some(s) => Some(WorkflowSource(s.to_owned())),
                None => None,
            },
            author: match author {
                Some(a) => Some(WorkflowAuthor(a.to_owned())),
                None => None,
            },
            version: Some(WorkflowVersion("0.0.1".to_owned())),
            tags,
        }
    }

    /// A bare workflow: a name, a command and arguments, nothing else.
    pub fn slim(name: &str, command: &str, arguments: Vec<Argument>) -> (r: Self)
        ensures
            r@.name == name@,
            r@.description == None::<Seq<char>>,
            r@.command == command@,
            r@.arguments == arguments@.map_values(|a: Argument| a@),
            r@.source == None::<Seq<char>>,
            r@.author == None::<Seq<char>>,
            r@.version == None::<Seq<char>>,
            r@.tags == Seq::<Seq<char>>::empty(),
    {
        let r = Workflow {
            name: WorkflowName(name.to_owned()),
            description: None,
            command: WorkflowCommand(command.to_owned()),
            arguments,
            source: None,
            author: None,
            version: None,
            tags: Vec::new(),
        };
        proof {
            assert(r@.tags =~= Seq::<Seq<char>>::empty());
        }
        r
    }

    /// Build a full workflow value from already-typed parts.
    pub fn from_parts(
        name: WorkflowName,
        description: Option<WorkflowDescription>,
        command: WorkflowCommand,
        arguments: Vec<Argument>,
        source: Option<WorkflowSource>,
        author: Option<WorkflowAuthor>,
        version: Option<WorkflowVersion>,
        tags: Vec<WorkflowTag>,
    ) -> (r: Self)
        ensures
            r == (Workflow { name, description, command, arguments, source, author, version, tags }),
    {
        Workflow { name, description, command, arguments, source, author, version, tags }
    }

    /// The store key of this workflow, derived from its name.
    pub fn id(&self) -> (r: WorkflowId)
        ensures
            r@ == id_of_name(self@.name),
    {
        WorkflowId(normalize_name(self.name.inner()))
    }

    pub fn name(&self) -> (r: &WorkflowName)
        ensures
            r@ == self@.name,
    {
        &self.name
    }

    pub fn description(&self) -> (r: Option<&WorkflowDescription>)
        ensures
            (match r {
                Some(d) => self@.description == Some(d@),
                None => self@.description == None::<Seq<char>>,
            }),
    {
        self.description.as_ref()
    }

    pub fn command(&self) -> (r: &WorkflowCommand)
        ensures
            r@ == self@.command,
    {
        &self.command
    }

    pub fn arguments(&self) -> (r: &Vec<Argument>)
        ensures
            r@.map_values(|a: Argument| a@) == self@.arguments,
    {
        &self.arguments
    }

    pub fn source(&self) -> (r: Option<&WorkflowSource>)
        ensures
            (match r {
                Some(s) => self@.source == Some(s@),
                None => self@.source == None::<Seq<char>>,
            }),
    {
        self.source.as_ref()
    }

    pub fn author(&self) -> (r: Option<&WorkflowAuthor>)
        ensures
            (match r {
                Some(a) => self@.author == Some(a@),
                None => self@.author == None::<Seq<char>>,
            }),
    {
        self.author.as_ref()
    }

    pub fn version(&self) -> (r: Option<&WorkflowVersion>)
        ensures
            (match r {
                Some(v) => self@.version == Some(v@),
                None => self@.version == None::<Seq<char>>,
            }),
    {
        self.version.as_ref()
    }

    pub fn tags(&self) -> (r: &Vec<WorkflowTag>)
        ensures
            r@.map_values(|t: WorkflowTag| t@) == self@.tags,
    {
        &self.tags
    }

    /// The example values of every argument, keyed by argument name, in
    /// declaration order.
    pub fn values(&self) -> (r: Vec<(String, Vec<String>)>)
        ensures
            r@.len() == self@.arguments.len(),
            forall|i: int|
                0 <= i < r@.len() ==> (#[trigger] r@[i]).0@ == self@.arguments[i].name
                    && r@[i].1@.map_values(|v: String| v@) == self@.arguments[i].values,
    {
        let mut r: Vec<(String, Vec<String>)> = Vec::new();
        let mut i: usize = 0;
        while i < self.arguments.len()
            invariant
                i <= self.arguments@.len(),
                r@.len() == i,
                forall|k: int|
                    0 <= k < i ==> (#[trigger] r@[k]).0@ == self@.arguments[k].name
                        && r@[k].1@.map_values(|v: String| v@) == self@.arguments[k].values,
            decreases self.arguments@.len() - i,
        {
            let arg = &self.arguments[i];
            let mut vals: Vec<String> = Vec::new();
            let mut j: usize = 0;
            while j < arg.values.len()
                invariant
                    j <= arg.values@.len(),
                    vals@.len() == j,
                    forall|k: int| 0 <= k < j ==> (#[trigger] vals@[k])@ == arg.values@[k]@,
                decreases arg.values@.len() - j,
            {
                vals.push(arg.values[j].0.clone());
                j += 1;
            }
            proof {
                assert(vals@.map_values(|v: String| v@) =~= arg.values@.map_values(
                    |v: ArgumentValue| v@,
                ));
            }
            r.push((arg.name.0.clone(), vals));
            i += 1;
        }
        r
    }
}

/// Applying name normalization to an already-normalized id leaves it
/// unchanged.
/// A thin wrapper around a list of parsed values, as the interactive
/// prompts hand them around.
#[derive(Debug)]
pub struct RawVec<T> {
    pub tags: Vec<T>,
}

impl<T> RawVec<T> {
    pub fn new(tags: Vec<T>) -> (r: Self)
        ensures
            r.tags@ == tags@,
    {
        RawVec { tags }
    }

    pub fn inner(&self) -> (r: &Vec<T>)
        ensures
            r@ == self.tags@,
    {
        &self.tags
    }

    pub fn into_inner(self) -> (r: Vec<T>)
        ensures
            r@ == self.tags@,
    {
        self.tags
    }
}

impl<T: Clone> RawVec<T> {
    pub fn tags(&self) -> (r: Vec<T>)
        ensures
            r@.len() == self.tags@.len(),
    {
        let mut out: Vec<T> = Vec::new();
        let mut i: usize = 0;
        while i < self.tags.len()
            invariant
                i <= self.tags@.len(),
                out@.len() == i,
            decreases self.tags@.len() - i,
        {
            out.push(self.tags[i].clone());
            i += 1;
        }
        out
    }
}

/// What a comma-separated list of texts parses to: each piece trimmed.
pub open spec fn comma_pieces(s: Seq<char>) -> Seq<Seq<char>> {
    crate::text::split_seq(s, ',').map_values(|p: Seq<char>| trim_seq(p))
}

impl RawVec<WorkflowTag> {
    /// Parse a comma-separated list of tags.
    pub fn from_str(s: &str) -> (r: Result<Self, crate::error::Error>)
        ensures
            (match r {
                Ok(v) => v.tags@.map_values(|t: WorkflowTag| t@) == comma_pieces(s@),
                Err(_) => false,
            }),
    {
        let cs = str_to_chars(s);
        let parts = crate::text::split_chars(&cs, ',');
        let mut tags: Vec<WorkflowTag> = Vec::new();
        let mut i: usize = 0;
        while i < parts.len()
            invariant
                parts@.map_values(|v: Vec<char>| v@) == crate::text::split_seq(s@, ','),
                i <= parts@.len(),
                tags@.len() == i,
                forall|k: int|
                    0 <= k < i ==> (#[trigger] tags@[k])@ == trim_seq(parts@[k]@),
            decreases parts@.len() - i,
        {
            let t = trim_chars(&parts[i]);
            tags.push(WorkflowTag(chars_to_string(&t)));
            i += 1;
        }
        proof {
            assert(tags@.map_values(|t: WorkflowTag| t@) =~= comma_pieces(s@));
        }
        Ok(RawVec { tags })
    }
}

impl RawVec<ArgumentValue> {
    /// Parse a comma-separated list of example values.
    pub fn from_str(s: &str) -> (r: Result<Self, crate::error::Error>)
        ensures
            (match r {
                Ok(v) => v.tags@.map_values(|t: ArgumentValue| t@) == comma_pieces(s@),
                Err(_) => false,
            }),
    {
        let cs = str_to_chars(s);
        let parts = crate::text::split_chars(&cs, ',');
        let mut tags: Vec<ArgumentValue> = Vec::new();
        let mut i: usize = 0;
        while i < parts.len()
            invariant
                parts@.map_values(|v: Vec<char>| v@) == crate::text::split_seq(s@, ','),
                i <= parts@.len(),
                tags@.len() == i,
                forall|k: int|
                    0 <= k < i ==> (#[trigger] tags@[k])@ == trim_seq(parts@[k]@),
            decreases parts@.len() - i,
        {
            let t = trim_chars(&parts[i]);
            tags.push(ArgumentValue(chars_to_string(&t)));
            i += 1;
        }
        proof {
            assert(tags@.map_values(|t: ArgumentValue| t@) =~= comma_pieces(s@));
        }
        Ok(RawVec { tags })
    }
}

/// Normalization keeps a non-whitespace character non-whitespace, and is
/// idempotent on every character.
pub proof fn lemma_norm_char(c: char)
    ensures
        !crate::text::is_ws(c) ==> !crate::text::is_ws(norm_char(c)),
        norm_char(norm_char(c)) == norm_char(c),
{
}

pub proof fn lemma_id_idempotent(name: Seq<char>)
    ensures
        id_of_name(id_of_name(name)) == id_of_name(name),
{
    let once = id_of_name(name);
    let t = trim_seq(name);
    assert(once.len() == t.len());
    assert(forall|i: int| 0 <= i < once.len() ==> once[i] == norm_char(t[i]));
    crate::text::lemma_trim_seq_ends(name);
    if once.len() > 0 {
        lemma_norm_char(t[0]);
        lemma_norm_char(t[t.len() - 1]);
        assert(!crate::text::is_ws(once[0]));
        assert(!crate::text::is_ws(once[once.len() - 1]));
    }
    crate::text::lemma_trim_of_trimmed(once);
    assert(trim_seq(once) == once);
    let mapped = once.map_values(|c: char| norm_char(c));
    assert forall|i: int| 0 <= i < once.len() implies #[trigger] mapped[i] == once[i] by {
        lemma_norm_char(t[i]);
    }
    assert(mapped =~= once);
    assert(id_of_name(once) == mapped);
}

} // verus!
