use vstd::prelude::*;
use crate::error::Error;
use crate::store::{lookup, store_inv, WorkStore};
use crate::workflow::{id_of_name, normalize_name, Workflow};

verus! {

/// Run one workflow by name.
#[derive(Debug)]
pub struct Run {
    pub name: String,
}

impl Run {
    pub fn new(name: &str) -> (r: Self)
        ensures
            r.name@ == name@,
    {
        Run { name: name.to_owned() }
    }

    pub fn name(&self) -> (r: &str)
        ensures
            r@ == self.name@,
    {
        self.name.as_str()
    }
}

/// List every workflow of the catalog.
#[derive(Debug)]
pub struct List {}

impl List {
    pub fn new() -> (r: Self) {
        List {  }
    }
}

impl Default for List {
    fn default() -> (r: Self)
        ensures
            r == (List {  }),
    {
        List {  }
    }
}

/// Search the catalog interactively.
#[derive(Debug)]
pub struct Search {
    pub query: Option<String>,
}

impl Search {
    pub fn new() -> (r: Self)
        ensures
            r.query is None,
    {
        Search { query: None }
    }

    /// A search primed with a fixed query.
    pub fn from(query: &str) -> (r: Self)
        ensures
            (match r.query {
                Some(q) => q@ == query@,
                None => false,
            }),
    {
        Search { query: Some(query.to_owned()) }
    }

    pub fn query(&self) -> (r: Option<&String>)
        ensures
            (match r {
                Some(q) => self.query == Some(*q),
                None => self.query is None,
            }),
    {
        self.query.as_ref()
    }
}

impl Default for Search {
    fn default() -> (r: Self)
        ensures
            r.query is None,
    {
        Search { query: None }
    }
}

/// Reset the workflow store.
#[derive(Debug)]
pub struct Reset {}

impl Reset {
    pub fn new() -> (r: Self) {
        Reset {  }
    }
}

impl Default for Reset {
    fn default() -> (r: Self)
        ensures
            r == (Reset {  }),
    {
        Reset {  }
    }
}

/// The catalog's subcommands.
#[derive(Debug)]
pub enum Command {
    Run(Run),
    List(List),
    Search(Search),
    Reset(Reset),
}

impl Command {
    /// The workflow a command needs, looked up in the store under the
    /// normalized name: only `run` needs one; an absent name yields none.
    pub fn prepare(&self, store: &WorkStore) -> (r: Result<Option<Workflow>, Error>)
        requires
            store_inv(store@),
        ensures
            (match self {
                Command::Run(run) => match r {
                    Ok(Some(w)) => lookup(store@, id_of_name(run.name@)) == Some(w@),
                    Ok(None) => lookup(store@, id_of_name(run.name@)) is None,
                    Err(_) => false,
                },
                _ => r matches Ok(None),
            }),
    {
        match self {
            Command::Run(run) => {
                let id = normalize_name(run.name());
                store.get(id.as_str())
            },
            Command::List(_) => Ok(None),
            Command::Search(_) => Ok(None),
            Command::Reset(_) => Ok(None),
        }
    }
}

/// What executing a command produced: its kind, and a message for the user.
#[derive(Debug, PartialEq, Eq)]
pub struct Output {
    pub kind: String,
    pub message: String,
}

impl Output {
    pub fn new(kind: &str, message: &str) -> (r: Self)
        ensures
            r.kind@ == kind@,
            r.message@ == message@,
    {
        Output { kind: kind.to_owned(), message: message.to_owned() }
    }

    /// The output of a command that does not apply.
    pub fn unsupported() -> (r: Self)
        ensures
            r.kind@ == "unsupported"@,
            r.message@ == Seq::<char>::empty(),
    {
        proof {
            reveal_strlit("");
        }
        Output { kind: "unsupported".to_owned(), message: "".to_owned() }
    }

    pub fn kind(&self) -> (r: &str)
        ensures
            r@ == self.kind@,
    {
        self.kind.as_str()
    }

    pub fn message(&self) -> (r: &str)
        ensures
            r@ == self.message@,
    {
        self.message.as_str()
    }
}

} // verus!
