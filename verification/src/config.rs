use vstd::prelude::*;
use crate::error::Error;
use crate::text::{chars_eq, chars_to_string, split_chars, split_seq, str_to_chars, trim_chars,
    trim_seq};

verus! {

/// The entry one configuration line defines: comment lines and lines that do
/// not split into exactly `key = value` define none.
pub open spec fn cfg_entry(line: Seq<char>) -> Option<(Seq<char>, Seq<char>)> {
    if line.len() > 0 && line[0] == '#' {
        None
    } else {
        let parts = split_seq(trim_seq(line), '=');
        if parts.len() == 2 {
            Some((trim_seq(parts[0]), trim_seq(parts[1])))
        } else {
            None
        }
    }
}

/// The value the configuration lines leave under a key: the last line wins.
pub open spec fn cfg_scan(ls: Seq<Seq<char>>, k: Seq<char>) -> Option<Seq<char>>
    decreases ls.len(),
{
    if ls.len() == 0 {
        None
    } else {
        match cfg_entry(ls.last()) {
            Some(e) => if e.0 == k {
                Some(e.1)
            } else {
                cfg_scan(ls.drop_last(), k)
            },
            None => cfg_scan(ls.drop_last(), k),
        }
    }
}

/// The workflow directory a configuration text defines, if any.
pub open spec fn cfg_lookup(text: Seq<char>) -> Option<Seq<char>> {
    cfg_scan(split_seq(text, '\n'), "workflow_dir"@)
}

/// The catalog's configuration: where the workflow documents live.
#[derive(Debug)]
pub struct Configuration {
    pub workflow_dir: String,
}

impl View for Configuration {
    type V = Seq<char>;

    open spec fn view(&self) -> Seq<char> {
        self.workflow_dir@
    }
}

impl Configuration {
    pub fn workflow_dir(&self) -> (r: &str)
        ensures
            r@ == self@,
    {
        self.workflow_dir.as_str()
    }

    /// Read the workflow directory out of a configuration text: one
    /// `key = value` pair per line, `#` starting a comment line, the last
    /// line with the key winning.
    pub fn from_str(input: &str) -> (r: Result<Configuration, Error>)
        ensures
            (match r {
                Ok(c) => cfg_lookup(input@) == Some(c@),
                Err(e) => cfg_lookup(input@) is None && e is InvalidConfiguration,
            }),
    {
        let cs = str_to_chars(input);
        let lines = split_chars(&cs, '\n');
        let key = str_to_chars("workflow_dir");
        let ghost lviews = lines@.map_values(|l: Vec<char>| l@);
        let n: usize = lines.len();
        let mut i: usize = n;
        proof {
            assert(lviews.subrange(0, n as int) =~= lviews);
        }
        while i > 0
            invariant
                n == lines@.len(),
                lviews == lines@.map_values(|l: Vec<char>| l@),
                lviews == split_seq(input@, '\n'),
                key@ == "workflow_dir"@,
                i <= n,
                cfg_scan(lviews, "workflow_dir"@) == cfg_scan(
                    lviews.subrange(0, i as int),
                    "workflow_dir"@,
                ),
            decreases i,
        {
            i -= 1;
            let ghost pre = lviews.subrange(0, i + 1);
            proof {
                assert(pre.last() == lviews[i as int]);
                assert(pre.drop_last() =~= lviews.subrange(0, i as int));
            }
            let line = &lines[i];
            proof {
                assert(line@ == lviews[i as int]);
            }
            // The entry this line defines, if any.
            let mut entry: Option<(Vec<char>, Vec<char>)> = None;
            if line.len() > 0 && line[0] == '#' {
                // A comment line.
            } else {
                let trimmed = trim_chars(line);
                let parts = split_chars(&trimmed, '=');
                if parts.len() == 2 {
                    entry = Some((trim_chars(&parts[0]), trim_chars(&parts[1])));
                }
                proof {
                    let sparts = split_seq(trim_seq(line@), '=');
                    assert(parts@.map_values(|v: Vec<char>| v@) == sparts);
                    if sparts.len() == 2 {
                        assert(parts@[0]@ == sparts[0] && parts@[1]@ == sparts[1]);
                    }
                }
            }
            match entry {
                Some(e) => {
                    proof {
                        assert(cfg_entry(lviews[i as int]) == Some((e.0@, e.1@)));
                    }
                    if chars_eq(&e.0, &key) {
                        return Ok(Configuration { workflow_dir: chars_to_string(&e.1) });
                    }
                },
                None => {
                    proof {
                        assert(cfg_entry(lviews[i as int]) is None);
                    }
                },
            }
        }
        proof {
            assert(lviews.subrange(0, 0) =~= Seq::<Seq<char>>::empty());
        }
        Err(
            Error::InvalidConfiguration(
                Some("the configuration does not set workflow_dir".to_owned()),
            ),
        )
    }
}

} // verus!
