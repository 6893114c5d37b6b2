use vstd::prelude::*;
use crate::text::{chars_eq, chars_to_string, ends_with_chars, is_suffix, str_to_chars};

verus! {

/// The document extension a file name carries.
#[derive(Debug, PartialEq, Eq, Structural)]
pub enum FileExtension {
    Yaml,
    Yml,
    Absent,
}

/// Which extension a name carries: the name must end in `.yml` or `.yaml`
/// to count; an extension-like part anywhere else does not.
pub open spec fn ext_of(s: Seq<char>) -> FileExtension {
    if is_suffix(s, ".yml"@) {
        FileExtension::Yml
    } else if is_suffix(s, ".yaml"@) {
        FileExtension::Yaml
    } else {
        FileExtension::Absent
    }
}

/// A name normalized to a document reference: unchanged when it already
/// carries an extension, with `.yaml` appended otherwise.
pub open spec fn format_spec(s: Seq<char>) -> Seq<char> {
    if ext_of(s) is Absent {
        s + ".yaml"@
    } else {
        s
    }
}

/// Normalization is idempotent: a normalized name already ends in a
/// recognized extension, so normalizing it again changes nothing.
pub proof fn lemma_format_idempotent(s: Seq<char>)
    ensures
        format_spec(format_spec(s)) == format_spec(s),
{
    if ext_of(s) is Absent {
        reveal_strlit(".yaml");
        let f = s + ".yaml"@;
        assert(".yaml"@.len() == 5);
        assert(f.subrange(f.len() - 5, f.len() as int) =~= ".yaml"@);
        assert(is_suffix(f, ".yaml"@));
        assert(!(ext_of(f) is Absent));
    }
}

/// First-occurrence deduplication.
pub open spec fn dedup_seq(s: Seq<Seq<char>>) -> Seq<Seq<char>>
    decreases s.len(),
{
    if s.len() == 0 {
        Seq::empty()
    } else {
        let rest = dedup_seq(s.drop_last());
        if s.drop_last().contains(s.last()) {
            rest
        } else {
            rest.push(s.last())
        }
    }
}

impl FileExtension {
    /// Classify a file name by the extension it ends in.
    pub fn from(value: &str) -> (r: FileExtension)
        ensures
            r == ext_of(value@),
    {
        let cs = str_to_chars(value);
        if ends_with_chars(&cs, &str_to_chars(".yml")) {
            FileExtension::Yml
        } else if ends_with_chars(&cs, &str_to_chars(".yaml")) {
            FileExtension::Yaml
        } else {
            FileExtension::Absent
        }
    }

    /// Normalize one name to a document reference.
    pub fn format(name: &str) -> (r: String)
        ensures
            r@ == format_spec(name@),
    {
        let cs = str_to_chars(name);
        let has_ext = ends_with_chars(&cs, &str_to_chars(".yml")) || ends_with_chars(
            &cs,
            &str_to_chars(".yaml"),
        );
        if has_ext {
            name.to_owned()
        } else {
            let mut out = str_to_chars(name);
            let suffix = str_to_chars(".yaml");
            let ghost base = out@;
            let mut i: usize = 0;
            while i < suffix.len()
                invariant
                    suffix@ == ".yaml"@,
                    i <= suffix@.len(),
                    out@ == base + suffix@.subrange(0, i as int),
                decreases suffix@.len() - i,
            {
                out.push(suffix[i]);
                i += 1;
                proof {
                    assert(out@ =~= base + suffix@.subrange(0, i as int));
                }
            }
            proof {
                assert(out@ =~= base + ".yaml"@);
            }
            chars_to_string(&out)
        }
    }

    /// Normalize a list of names, dropping repeated results; the first
    /// occurrence keeps its place.
    pub fn format_all(names: Vec<String>) -> (r: Vec<String>)
        ensures
            r@.map_values(|s: String| s@) == dedup_seq(
                names@.map_values(|s: String| format_spec(s@)),
            ),
    {
        let ghost fmts = names@.map_values(|s: String| format_spec(s@));
        let mut out: Vec<String> = Vec::new();
        let mut i: usize = 0;
        proof {
            assert(fmts.subrange(0, 0) =~= Seq::<Seq<char>>::empty());
            assert(out@.map_values(|s: String| s@) =~= dedup_seq(fmts.subrange(0, 0)));
        }
        while i < names.len()
            invariant
                names@.len() == fmts.len(),
                fmts == names@.map_values(|s: String| format_spec(s@)),
                i <= names@.len(),
                out@.map_values(|s: String| s@) == dedup_seq(fmts.subrange(0, i as int)),
            decreases names@.len() - i,
        {
            let f = Self::format(names[i].as_str());
            let fc = str_to_chars(f.as_str());
            // Is this result already present?
            let mut seen: bool = false;
            let mut j: usize = 0;
            let ghost prefix = fmts.subrange(0, i as int);
            while j < i && !seen
                invariant
                    i <= names@.len(),
                    names@.len() == fmts.len(),
                    fmts == names@.map_values(|s: String| format_spec(s@)),
                    prefix == fmts.subrange(0, i as int),
                    fc@ == format_spec(names@[i as int]@),
                    j <= i,
                    !seen ==> forall|b: int| 0 <= b < j ==> #[trigger] fmts[b] != fc@,
                    seen ==> prefix.contains(fc@),
                decreases i - j + (if seen { 0int } else { 1int }),
            {
                if chars_eq(&str_to_chars(Self::format(names[j].as_str()).as_str()), &fc) {
                    proof {
                        assert(prefix[j as int] == fmts[j as int]);
                    }
                    seen = true;
                } else {
                    j += 1;
                }
            }
            let ghost before = out@.map_values(|s: String| s@);
            if !seen {
                out.push(f);
            }
            i += 1;
            proof {
                let now = fmts.subrange(0, i as int);
                assert(now.last() == fmts[i - 1]);
                assert(now.drop_last() =~= prefix);
                if seen {
                    assert(prefix.contains(fc@));
                } else {
                    assert(!prefix.contains(fc@)) by {
                        if prefix.contains(fc@) {
                            let b = choose|b: int|
                                0 <= b < prefix.len() && prefix[b] == fc@;
                            assert(fmts[b] == fc@);
                        }
                    }
                    assert(out@.map_values(|s: String| s@) =~= before.push(fc@));
                }
            }
        }
        proof {
            assert(fmts.subrange(0, names@.len() as int) =~= fmts);
        }
        out
    }
}

} // verus!
