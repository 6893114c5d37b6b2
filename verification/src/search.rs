use vstd::prelude::*;

verus! {

/// A text query against the search index.
#[derive(Debug)]
pub struct SearchTerm {
    pub term: String,
}

impl View for SearchTerm {
    type V = Seq<char>;

    open spec fn view(&self) -> Seq<char> {
        self.term@
    }
}

impl SearchTerm {
    pub fn from(s: &str) -> (r: Self)
        ensures
            r@ == s@,
    {
        SearchTerm { term: s.to_owned() }
    }

    pub fn inner(&self) -> (r: &str)
        ensures
            r@ == self@,
    {
        self.term.as_str()
    }

    /// The query that matches every document.
    pub fn wildcard() -> (r: Self)
        ensures
            r@ == "*"@,
    {
        SearchTerm { term: "*".to_owned() }
    }
}

/// What to do after the exact phase of a query.
#[derive(Debug)]
pub enum SearchPhase<T> {
    /// The exact hits stand: the fuzzy phase must not run.
    Done(Vec<T>),
    /// The exact phase found nothing: fall back to the fuzzy phase.
    Fuzzy,
}

/// The exact-then-fuzzy fallback: a term with exact hits is answered by
/// them, and the fuzzy phase does not run; the fuzzy phase runs only when
/// the exact phase found nothing at all.
pub fn fuzzy_fallback<T>(exact_hits: Vec<T>) -> (r: SearchPhase<T>)
    ensures
        exact_hits@.len() > 0 ==> (match r {
            SearchPhase::Done(hits) => hits@ == exact_hits@,
            SearchPhase::Fuzzy => false,
        }),
        exact_hits@.len() == 0 ==> r is Fuzzy,
{
    if exact_hits.len() > 0 {
        SearchPhase::Done(exact_hits)
    } else {
        SearchPhase::Fuzzy
    }
}

} // verus!
