use vstd::prelude::*;
use crate::error::Error;
use crate::text::{chars_eq, str_to_chars};
use crate::workflow::{Argument, ArgumentView, Workflow};

verus! {

/// The sentinel a parameter resolves to when it has neither a default nor an
/// override.
pub open spec fn insert_sentinel() -> Seq<char> {
    "<insert value>"@
}

/// The value an association list holds under a name: the last write wins.
pub open spec fn pget(s: Seq<(Seq<char>, Seq<char>)>, k: Seq<char>) -> Option<Seq<char>>
    decreases s.len(),
{
    if s.len() == 0 {
        None
    } else if s.last().0 == k {
        Some(s.last().1)
    } else {
        pget(s.drop_last(), k)
    }
}

/// The final name-to-value map a run renders with: defaults and overrides,
/// merged. Built once per run and discarded after rendering.
#[derive(Debug)]
pub struct Precedence {
    pub entries: Vec<(String, String)>,
}

impl View for Precedence {
    type V = Seq<(Seq<char>, Seq<char>)>;

    open spec fn view(&self) -> Seq<(Seq<char>, Seq<char>)> {
        self.entries@.map_values(|e: (String, String)| (e.0@, e.1@))
    }
}

impl Clone for Precedence {
    fn clone(&self) -> (r: Self)
        ensures
            r@ == self@,
    {
        let mut entries: Vec<(String, String)> = Vec::new();
        let mut i: usize = 0;
        while i < self.entries.len()
            invariant
                i <= self.entries@.len(),
                entries@.len() == i,
                forall|k: int|
                    0 <= k < i ==> (#[trigger] entries@[k]).0@ == self.entries@[k].0@
                        && entries@[k].1@ == self.entries@[k].1@,
            decreases self.entries@.len() - i,
        {
            let e = (self.entries[i].0.clone(), self.entries[i].1.clone());
            entries.push(e);
            i += 1;
        }
        let r = Precedence { entries };
        proof {
            assert(r@ =~= self@);
        }
        r
    }
}

impl Precedence {
    pub fn new() -> (r: Precedence)
        ensures
            r@ == Seq::<(Seq<char>, Seq<char>)>::empty(),
    {
        let r = Precedence { entries: Vec::new() };
        proof {
            assert(r@ =~= Seq::<(Seq<char>, Seq<char>)>::empty());
        }
        r
    }

    /// The number of entries.
    pub fn len(&self) -> (r: usize)
        ensures
            r == self@.len(),
    {
        self.entries.len()
    }

    /// Add one name-to-value entry; a later entry for the same name wins.
    pub fn insert(&mut self, name: &str, value: &str)
        ensures
            final(self)@ == old(self)@.push((name@, value@)),
    {
        let ghost s0 = self@;
        self.entries.push((name.to_owned(), value.to_owned()));
        proof {
            assert(self@ =~= s0.push((name@, value@)));
        }
    }

    /// Append every entry of another map; its entries win over this one's.
    pub fn extend(&mut self, other: &Precedence)
        ensures
            final(self)@ == old(self)@ + other@,
    {
        let ghost s0 = self@;
        let mut i: usize = 0;
        while i < other.entries.len()
            invariant
                i <= other.entries@.len(),
                self@ == s0 + other@.subrange(0, i as int),
            decreases other.entries@.len() - i,
        {
            let ghost before = self@;
            let e = (other.entries[i].0.clone(), other.entries[i].1.clone());
            self.entries.push(e);
            i += 1;
            proof {
                assert(self@ =~= before.push(other@[i - 1]));
                assert(self@ =~= s0 + other@.subrange(0, i as int));
            }
        }
        proof {
            assert(other@.subrange(0, other@.len() as int) =~= other@);
        }
    }

    /// The value under a name, or nothing.
    pub fn get(&self, name: &str) -> (r: Option<&String>)
        ensures
            (match r {
                Some(v) => pget(self@, name@) == Some(v@),
                None => pget(self@, name@) is None,
            }),
    {
        let kc = str_to_chars(name);
        let n: usize = self.entries.len();
        let mut i: usize = n;
        proof {
            assert(self@.subrange(0, n as int) =~= self@);
        }
        while i > 0
            invariant
                n == self@.len(),
                kc@ == name@,
                i <= n,
                pget(self@, name@) == pget(self@.subrange(0, i as int), name@),
            decreases i,
        {
            i -= 1;
            let ghost pre = self@.subrange(0, i + 1);
            proof {
                assert(pre.last() == self@[i as int]);
                assert(pre.drop_last() =~= self@.subrange(0, i as int));
            }
            if chars_eq(&str_to_chars(self.entries[i].0.as_str()), &kc) {
                return Some(&self.entries[i].1);
            }
        }
        proof {
            assert(self@.subrange(0, 0) =~= Seq::<(Seq<char>, Seq<char>)>::empty());
        }
        None
    }
}

/// What one argument resolves to: the override under its name where one
/// exists, else its default, else the sentinel.
pub open spec fn resolve_one(a: ArgumentView, p: Seq<(Seq<char>, Seq<char>)>) -> Seq<char> {
    match pget(p, a.name) {
        Some(v) => v,
        None => match a.default {
            Some(d) => d,
            None => insert_sentinel(),
        },
    }
}

impl Argument {
    /// Resolve this argument against an optional override map: the result
    /// holds one entry, the argument's name bound to its final value.
    pub fn try_parse(&self, precedence: Option<&Precedence>) -> (r: Result<
        Option<Precedence>,
        Error,
    >)
        ensures
            (match r {
                Ok(Some(m)) => m@ == seq![
                    (
                        self@.name,
                        resolve_one(
                            self@,
                            match precedence {
                                Some(p) => p@,
                                None => Seq::empty(),
                            },
                        ),
                    ),
                ],
                _ => false,
            }),
    {
        let ghost pv: Seq<(Seq<char>, Seq<char>)> = match precedence {
            Some(p) => p@,
            None => Seq::empty(),
        };
        let mut m = Precedence::new();
        let name = self.name().inner();
        let over: Option<&String> = match precedence {
            Some(p) => p.get(name),
            None => None,
        };
        match over {
            Some(v) => {
                m.insert(name, v.as_str());
            },
            None => {
                match self.default() {
                    Some(d) => {
                        m.insert(name, d.inner());
                    },
                    None => {
                        m.insert(name, "<insert value>");
                    },
                }
            },
        }
        proof {
            assert(m@ =~= seq![(self@.name, resolve_one(self@, pv))]);
        }
        Ok(Some(m))
    }

    /// `try_parse`, under the name older call sites use.
    pub fn parsed(&self, precedence: &Precedence) -> (r: Option<Precedence>)
        ensures
            (match r {
                Some(m) => m@ == seq![(self@.name, resolve_one(self@, precedence@))],
                None => false,
            }),
    {
        match self.try_parse(Some(precedence)) {
            Ok(m) => m,
            Err(_) => None,
        }
    }
}

impl Workflow {
    /// Resolve every argument, in declaration order, against an override
    /// map: each argument contributes its name bound to its final value.
    pub fn try_parse(&self, precedence: &Precedence) -> (r: Result<Precedence, Error>)
        ensures
            (match r {
                Ok(m) => m@ == self@.arguments.map_values(
                    |a: ArgumentView| (a.name, resolve_one(a, precedence@)),
                ),
                Err(_) => false,
            }),
    {
        let mut m = Precedence::new();
        let args = self.arguments();
        let mut i: usize = 0;
        proof {
            assert(m@ =~= self@.arguments.subrange(0, 0).map_values(
                |a: ArgumentView| (a.name, resolve_one(a, precedence@)),
            ));
        }
        while i < args.len()
            invariant
                args@.map_values(|a: Argument| a@) == self@.arguments,
                i <= args@.len(),
                m@ == self@.arguments.subrange(0, i as int).map_values(
                    |a: ArgumentView| (a.name, resolve_one(a, precedence@)),
                ),
            decreases args@.len() - i,
        {
            let ghost before = m@;
            let one = match args[i].try_parse(Some(precedence)) {
                Ok(Some(one)) => one,
                _ => {
                    proof {
                        assert(false);
                    }
                    Precedence::new()
                },
            };
            m.extend(&one);
            i += 1;
            proof {
                assert(m@ =~= before + one@);
                assert(m@ =~= self@.arguments.subrange(0, i as int).map_values(
                    |a: ArgumentView| (a.name, resolve_one(a, precedence@)),
                ));
            }
        }
        proof {
            assert(self@.arguments.subrange(0, self@.arguments.len() as int) =~= self@.arguments);
        }
        Ok(m)
    }
}

} // verus!
