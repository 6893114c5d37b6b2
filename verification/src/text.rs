use vstd::prelude::*;

verus! {

// ---------------------------------------------------------------------------
// Bridging between `String` / `&str` and `Vec<char>`.
// ---------------------------------------------------------------------------

/// Relies on `String::push`: appends one character at the end of the string.
pub assume_specification[ String::push ](s: &mut String, c: char)
    ensures
        final(s)@ == old(s)@.push(c),
;

/// Collect the characters of a string slice into a vector.
pub fn str_to_chars(s: &str) -> (r: Vec<char>)
    ensures
        r@ == s@,
{
    let n: usize = s.unicode_len();
    let mut r: Vec<char> = Vec::new();
    let mut i: usize = 0;
    while i < n
        invariant
            n == s@.len(),
            i <= n,
            r@ == s@.subrange(0, i as int),
        decreases n - i,
    {
        r.push(s.get_char(i));
        i += 1;
        proof {
            assert(r@ =~= s@.subrange(0, i as int));
        }
    }
    proof {
        assert(r@ =~= s@);
    }
    r
}

/// Build a string from a vector of characters.
pub fn chars_to_string(v: &Vec<char>) -> (r: String)
    ensures
        r@ == v@,
{
    let mut r: String = String::new();
    let mut i: usize = 0;
    while i < v.len()
        invariant
            i <= v@.len(),
            r@ == v@.subrange(0, i as int),
        decreases v@.len() - i,
    {
        r.push(v[i]);
        i += 1;
        proof {
            assert(r@ =~= v@.subrange(0, i as int));
        }
    }
    proof {
        assert(r@ =~= v@);
    }
    r
}

// ---------------------------------------------------------------------------
// Character classes and normalization.
// ---------------------------------------------------------------------------

/// The whitespace characters that trimming removes.
pub open spec fn is_ws(c: char) -> bool {
    c == ' ' || c == '\t' || c == '\r' || c == '\n'
}

/// Whitespace test, usable from executable code.
pub fn is_ws_char(c: char) -> (r: bool)
    ensures
        r == is_ws(c),
{
    c == ' ' || c == '\t' || c == '\r' || c == '\n'
}

/// Lowering of a single character: ASCII letters are mapped to lower case,
/// every other character is left as it is.
pub open spec fn lower_char(c: char) -> char {
    match c {
        'A' => 'a',
        'B' => 'b',
        'C' => 'c',
        'D' => 'd',
        'E' => 'e',
        'F' => 'f',
        'G' => 'g',
        'H' => 'h',
        'I' => 'i',
        'J' => 'j',
        'K' => 'k',
        'L' => 'l',
        'M' => 'm',
        'N' => 'n',
        'O' => 'o',
        'P' => 'p',
        'Q' => 'q',
        'R' => 'r',
        'S' => 's',
        'T' => 't',
        'U' => 'u',
        'V' => 'v',
        'W' => 'w',
        'X' => 'x',
        'Y' => 'y',
        'Z' => 'z',
        _ => c,
    }
}

/// Executable lowering of one character.
pub fn lower_char_exec(c: char) -> (r: char)
    ensures
        r == lower_char(c),
{
    match c {
        'A' => 'a',
        'B' => 'b',
        'C' => 'c',
        'D' => 'd',
        'E' => 'e',
        'F' => 'f',
        'G' => 'g',
        'H' => 'h',
        'I' => 'i',
        'J' => 'j',
        'K' => 'k',
        'L' => 'l',
        'M' => 'm',
        'N' => 'n',
        'O' => 'o',
        'P' => 'p',
        'Q' => 'q',
        'R' => 'r',
        'S' => 's',
        'T' => 't',
        'U' => 'u',
        'V' => 'v',
        'W' => 'w',
        'X' => 'x',
        'Y' => 'y',
        'Z' => 'z',
        _ => c,
    }
}

/// Lowering of a whole character sequence.
pub open spec fn lower_seq(s: Seq<char>) -> Seq<char> {
    s.map_values(|c: char| lower_char(c))
}

/// Lower every character of a vector.
pub fn lower_chars(v: &Vec<char>) -> (r: Vec<char>)
    ensures
        r@ == lower_seq(v@),
{
    let mut r: Vec<char> = Vec::new();
    let mut i: usize = 0;
    while i < v.len()
        invariant
            i <= v@.len(),
            r@ == lower_seq(v@.subrange(0, i as int)),
        decreases v@.len() - i,
    {
        r.push(lower_char_exec(v[i]));
        i += 1;
        proof {
            assert(r@ =~= lower_seq(v@.subrange(0, i as int)));
        }
    }
    proof {
        assert(v@.subrange(0, v@.len() as int) =~= v@);
    }
    r
}

// ---------------------------------------------------------------------------
// Trimming.
// ---------------------------------------------------------------------------

/// Drop the leading whitespace of a sequence.
pub open spec fn trim_left(s: Seq<char>) -> Seq<char>
    decreases s.len(),
{
    if s.len() > 0 && is_ws(s[0]) {
        trim_left(s.drop_first())
    } else {
        s
    }
}

/// Drop the trailing whitespace of a sequence.
pub open spec fn trim_right(s: Seq<char>) -> Seq<char>
    decreases s.len(),
{
    if s.len() > 0 && is_ws(s[s.len() - 1]) {
        trim_right(s.drop_last())
    } else {
        s
    }
}

/// Drop the leading and trailing whitespace of a sequence.
pub open spec fn trim_seq(s: Seq<char>) -> Seq<char> {
    trim_right(trim_left(s))
}

/// `trim_left` is a subrange starting at the first non-whitespace index.
pub proof fn lemma_trim_left_subrange(s: Seq<char>, i: int)
    requires
        0 <= i <= s.len(),
        forall|j: int| 0 <= j < i ==> is_ws(s[j]),
        i < s.len() ==> !is_ws(s[i]),
    ensures
        trim_left(s) == s.subrange(i, s.len() as int),
    decreases s.len(),
{
    if s.len() > 0 && is_ws(s[0]) {
        assert(i >= 1);
        lemma_trim_left_subrange(s.drop_first(), i - 1);
        assert(s.drop_first().subrange(i - 1, s.drop_first().len() as int) =~= s.subrange(
            i,
            s.len() as int,
        ));
    } else {
        assert(i == 0);
        assert(s.subrange(0, s.len() as int) =~= s);
    }
}

/// `trim_right` is a subrange ending after the last non-whitespace index.
pub proof fn lemma_trim_right_subrange(s: Seq<char>, i: int)
    requires
        0 <= i <= s.len(),
        forall|j: int| i <= j < s.len() ==> is_ws(s[j]),
        i > 0 ==> !is_ws(s[i - 1]),
    ensures
        trim_right(s) == s.subrange(0, i),
    decreases s.len(),
{
    if s.len() > 0 && is_ws(s[s.len() - 1]) {
        assert(i < s.len());
        lemma_trim_right_subrange(s.drop_last(), i);
        assert(s.drop_last().subrange(0, i) =~= s.subrange(0, i));
    } else {
        assert(i == s.len());
        assert(s.subrange(0, s.len() as int) =~= s);
    }
}

/// A non-empty `trim_left` result starts with a non-whitespace character.
pub proof fn lemma_trim_left_first(s: Seq<char>)
    ensures
        trim_left(s).len() > 0 ==> !is_ws(trim_left(s)[0]),
    decreases s.len(),
{
    if s.len() > 0 && is_ws(s[0]) {
        lemma_trim_left_first(s.drop_first());
    }
}

/// A non-empty `trim_right` result keeps the first character of its input
/// and ends with a non-whitespace character.
pub proof fn lemma_trim_right_first_last(s: Seq<char>)
    ensures
        trim_right(s).len() > 0 ==> trim_right(s)[0] == s[0],
        trim_right(s).len() > 0 ==> !is_ws(trim_right(s)[trim_right(s).len() - 1]),
    decreases s.len(),
{
    if s.len() > 0 && is_ws(s[s.len() - 1]) {
        lemma_trim_right_first_last(s.drop_last());
    }
}

/// A non-empty trimmed sequence neither starts nor ends with whitespace.
pub proof fn lemma_trim_seq_ends(s: Seq<char>)
    ensures
        trim_seq(s).len() > 0 ==> !is_ws(trim_seq(s)[0]),
        trim_seq(s).len() > 0 ==> !is_ws(trim_seq(s)[trim_seq(s).len() - 1]),
{
    lemma_trim_left_first(s);
    lemma_trim_right_first_last(trim_left(s));
}

/// A sequence without whitespace at either end trims to itself.
pub proof fn lemma_trim_of_trimmed(s: Seq<char>)
    requires
        s.len() > 0 ==> !is_ws(s[0]),
        s.len() > 0 ==> !is_ws(s[s.len() - 1]),
    ensures
        trim_seq(s) == s,
{
    assert(trim_left(s) == s);
    assert(trim_right(s) == s);
}

/// Trim the whitespace at both ends of a character vector.
pub fn trim_chars(v: &Vec<char>) -> (r: Vec<char>)
    ensures
        r@ == trim_seq(v@),
{
    let n: usize = v.len();
    let mut start: usize = 0;
    while start < n && is_ws_char(v[start])
        invariant
            n == v@.len(),
            start <= n,
            forall|j: int| 0 <= j < start ==> is_ws(v@[j]),
        decreases n - start,
    {
        start += 1;
    }
    proof {
        lemma_trim_left_subrange(v@, start as int);
    }
    let ghost left: Seq<char> = v@.subrange(start as int, n as int);
    let mut end: usize = n;
    while end > start && is_ws_char(v[end - 1])
        invariant
            n == v@.len(),
            start <= end <= n,
            forall|j: int| end <= j < n ==> is_ws(v@[j]),
        decreases end,
    {
        end -= 1;
    }
    proof {
        assert(forall|j: int| (end - start) <= j < left.len() ==> is_ws(#[trigger] left[j]));
        lemma_trim_right_subrange(left, end - start);
        assert(left.subrange(0, end - start) =~= v@.subrange(start as int, end as int));
    }
    let mut r: Vec<char> = Vec::new();
    let mut i: usize = start;
    while i < end
        invariant
            start <= i <= end <= n,
            n == v@.len(),
            r@ == v@.subrange(start as int, i as int),
        decreases end - i,
    {
        r.push(v[i]);
        i += 1;
        proof {
            assert(r@ =~= v@.subrange(start as int, i as int));
        }
    }
    r
}

// ---------------------------------------------------------------------------
// Substring search.
// ---------------------------------------------------------------------------

/// Does `needle` occur in `hay` starting at position `i`?
pub open spec fn occurs_at(hay: Seq<char>, needle: Seq<char>, i: int) -> bool {
    0 <= i && i + needle.len() <= hay.len() && hay.subrange(i, i + needle.len()) == needle
}

/// Does `needle` occur anywhere in `hay`?
pub open spec fn contains_seq(hay: Seq<char>, needle: Seq<char>) -> bool {
    exists|i: int| occurs_at(hay, needle, i)
}

/// Substring search over character vectors.
pub fn contains_chars(hay: &Vec<char>, needle: &Vec<char>) -> (r: bool)
    ensures
        r == contains_seq(hay@, needle@),
{
    let h: usize = hay.len();
    let n: usize = needle.len();
    if n > h {
        proof {
            assert(forall|i: int| !occurs_at(hay@, needle@, i));
        }
        return false;
    }
    let mut i: usize = 0;
    while i <= h - n
        invariant
            n <= h,
            h == hay@.len(),
            n == needle@.len(),
            i <= h - n + 1,
            forall|k: int| 0 <= k < i ==> !occurs_at(hay@, needle@, k),
        decreases h - i,
    {
        let mut j: usize = 0;
        let mut ok: bool = true;
        while j < n && ok
            invariant
                i + n <= h,
                h == hay@.len(),
                n == needle@.len(),
                j <= n,
                ok ==> forall|k: int| 0 <= k < j ==> hay@[i + k] == needle@[k],
                !ok ==> j < n && hay@[i + j] != needle@[j as int],
            decreases n - j + (if ok { 1int } else { 0int }),
    {
            if hay[i + j] != needle[j] {
                ok = false;
            } else {
                j += 1;
            }
        }
        if ok {
            proof {
                assert(hay@.subrange(i as int, i + n as int) =~= needle@);
                assert(occurs_at(hay@, needle@, i as int));
            }
            return true;
        }
        proof {
            if occurs_at(hay@, needle@, i as int) {
                assert(hay@.subrange(i as int, i + n as int)[j as int] == hay@[i + j]);
                assert(false);
            }
        }
        i += 1;
    }
    proof {
        assert(forall|k: int| occurs_at(hay@, needle@, k) ==> 0 <= k && k + n <= h);
    }
    false
}

// ---------------------------------------------------------------------------
// Lexicographic order on character sequences.
// ---------------------------------------------------------------------------

/// Strict lexicographic order by character code.
pub open spec fn lex_lt(a: Seq<char>, b: Seq<char>) -> bool
    decreases a.len(),
{
    if b.len() == 0 {
        false
    } else if a.len() == 0 {
        true
    } else if (a[0] as int) < (b[0] as int) {
        true
    } else if (a[0] as int) > (b[0] as int) {
        false
    } else {
        lex_lt(a.drop_first(), b.drop_first())
    }
}

/// The order is irreflexive.
pub proof fn lemma_lex_irrefl(a: Seq<char>)
    ensures
        !lex_lt(a, a),
    decreases a.len(),
{
    if a.len() > 0 {
        lemma_lex_irrefl(a.drop_first());
    }
}

/// Exactly one of `a < b`, `a == b`, `b < a` holds.
pub proof fn lemma_lex_trichotomy(a: Seq<char>, b: Seq<char>)
    ensures
        lex_lt(a, b) || lex_lt(b, a) || a == b,
        lex_lt(a, b) ==> !lex_lt(b, a),
    decreases a.len(),
{
    if a.len() == 0 || b.len() == 0 {
        if a.len() == 0 && b.len() == 0 {
            assert(a =~= b);
        }
    } else {
        lemma_lex_trichotomy(a.drop_first(), b.drop_first());
        if !lex_lt(a, b) && !lex_lt(b, a) {
            let x = a[0];
            let y = b[0];
            assert(x as int == y as int);
            assert(x == y);
            assert(a.drop_first() == b.drop_first() ==> a == b) by {
                if a.drop_first() == b.drop_first() {
                    assert(forall|j: int|
                        1 <= j < a.len() ==> #[trigger] a[j] == a.drop_first()[j - 1]);
                    assert(forall|j: int|
                        1 <= j < b.len() ==> #[trigger] b[j] == b.drop_first()[j - 1]);
                    assert(a =~= b);
                }
            }
        }
    }
}

/// The order is transitive.
pub proof fn lemma_lex_trans(a: Seq<char>, b: Seq<char>, c: Seq<char>)
    requires
        lex_lt(a, b),
        lex_lt(b, c),
    ensures
        lex_lt(a, c),
    decreases a.len() + b.len() + c.len(),
{
    if c.len() == 0 {
    } else if a.len() == 0 {
    } else if b.len() == 0 {
    } else {
        if (a[0] as int) < (b[0] as int) {
        } else {
            assert(a[0] as int == b[0] as int);
            if (b[0] as int) < (c[0] as int) {
            } else {
                assert(b[0] as int == c[0] as int);
                lemma_lex_trans(a.drop_first(), b.drop_first(), c.drop_first());
            }
        }
    }
}

/// Compare two character vectors in lexicographic order.
pub fn chars_lt(a: &Vec<char>, b: &Vec<char>) -> (r: bool)
    ensures
        r == lex_lt(a@, b@),
{
    let mut i: usize = 0;
    proof {
        assert(a@.subrange(0, a@.len() as int) =~= a@);
        assert(b@.subrange(0, b@.len() as int) =~= b@);
    }
    loop
        invariant
            i <= a@.len(),
            i <= b@.len(),
            lex_lt(a@, b@) == lex_lt(
                a@.subrange(i as int, a@.len() as int),
                b@.subrange(i as int, b@.len() as int),
            ),
        decreases a@.len() - i,
    {
        let ghost ar = a@.subrange(i as int, a@.len() as int);
        let ghost br = b@.subrange(i as int, b@.len() as int);
        if i >= b.len() {
            proof {
                assert(br.len() == 0);
            }
            return false;
        }
        if i >= a.len() {
            proof {
                assert(ar.len() == 0 && br.len() > 0);
            }
            return true;
        }
        let ca: char = a[i];
        let cb: char = b[i];
        proof {
            assert(ar[0] == ca && br[0] == cb);
        }
        if ca < cb {
            return true;
        }
        if cb < ca {
            return false;
        }
        proof {
            assert(ar.drop_first() =~= a@.subrange(i + 1 as int, a@.len() as int));
            assert(br.drop_first() =~= b@.subrange(i + 1 as int, b@.len() as int));
        }
        i += 1;
    }
}

/// Copy the characters of `v` between `from` and `to`.
pub fn sub_chars(v: &Vec<char>, from: usize, to: usize) -> (r: Vec<char>)
    requires
        from <= to <= v@.len(),
    ensures
        r@ == v@.subrange(from as int, to as int),
{
    let mut r: Vec<char> = Vec::new();
    let mut i: usize = from;
    while i < to
        invariant
            from <= i <= to <= v@.len(),
            r@ == v@.subrange(from as int, i as int),
        decreases to - i,
    {
        r.push(v[i]);
        i += 1;
        proof {
            assert(r@ =~= v@.subrange(from as int, i as int));
        }
    }
    r
}

/// Equality of two character vectors.
pub fn chars_eq(a: &Vec<char>, b: &Vec<char>) -> (r: bool)
    ensures
        r == (a@ == b@),
{
    if a.len() != b.len() {
        proof {
            assert(a@ != b@);
        }
        return false;
    }
    let mut i: usize = 0;
    while i < a.len()
        invariant
            a@.len() == b@.len(),
            i <= a@.len(),
            forall|k: int| 0 <= k < i ==> a@[k] == b@[k],
        decreases a@.len() - i,
    {
        if a[i] != b[i] {
            return false;
        }
        i += 1;
    }
    proof {
        assert(a@ =~= b@);
    }
    true
}

// ---------------------------------------------------------------------------
// Prefix tests.
// ---------------------------------------------------------------------------

/// Is `p` a prefix of `s`?
pub open spec fn is_prefix(s: Seq<char>, p: Seq<char>) -> bool {
    p.len() <= s.len() && s.subrange(0, p.len() as int) == p
}

/// Prefix test over character vectors.
pub fn starts_with_chars(s: &Vec<char>, p: &Vec<char>) -> (r: bool)
    ensures
        r == is_prefix(s@, p@),
{
    if p.len() > s.len() {
        return false;
    }
    let mut j: usize = 0;
    while j < p.len()
        invariant
            p@.len() <= s@.len(),
            j <= p@.len(),
            forall|k: int| 0 <= k < j ==> s@[k] == p@[k],
        decreases p@.len() - j,
    {
        if s[j] != p[j] {
            proof {
                if is_prefix(s@, p@) {
                    assert(s@.subrange(0, p@.len() as int)[j as int] == s@[j as int]);
                }
            }
            return false;
        }
        j += 1;
    }
    proof {
        assert(s@.subrange(0, p@.len() as int) =~= p@);
    }
    true
}

/// Is `p` a suffix of `s`?
pub open spec fn is_suffix(s: Seq<char>, p: Seq<char>) -> bool {
    p.len() <= s.len() && s.subrange(s.len() - p.len(), s.len() as int) == p
}

/// Suffix test over character vectors.
pub fn ends_with_chars(s: &Vec<char>, p: &Vec<char>) -> (r: bool)
    ensures
        r == is_suffix(s@, p@),
{
    if p.len() > s.len() {
        return false;
    }
    let base: usize = s.len() - p.len();
    let mut j: usize = 0;
    while j < p.len()
        invariant
            p@.len() <= s@.len(),
            s@.len() <= usize::MAX,
            base == s@.len() - p@.len(),
            j <= p@.len(),
            forall|k: int| 0 <= k < j ==> s@[base + k] == p@[k],
        decreases p@.len() - j,
    {
        if s[base + j] != p[j] {
            proof {
                if is_suffix(s@, p@) {
                    assert(s@.subrange(base as int, s@.len() as int)[j as int] == s@[base + j]);
                }
            }
            return false;
        }
        j += 1;
    }
    proof {
        assert(s@.subrange(base as int, s@.len() as int) =~= p@);
    }
    true
}

// ---------------------------------------------------------------------------
// Splitting on a separator character, and joining back.
// ---------------------------------------------------------------------------

/// Position of the first occurrence of `sep` in `s`, or `s.len()` if absent.
pub open spec fn first_sep(s: Seq<char>, sep: char) -> int
    decreases s.len(),
{
    if s.len() == 0 {
        0
    } else if s[0] == sep {
        0
    } else {
        1 + first_sep(s.drop_first(), sep)
    }
}

/// The first-occurrence position lies in `[0, s.len()]`, the characters
/// before it differ from `sep`, and the character at it (if any) is `sep`.
pub proof fn lemma_first_sep(s: Seq<char>, sep: char)
    ensures
        0 <= first_sep(s, sep) <= s.len(),
        forall|j: int| 0 <= j < first_sep(s, sep) ==> s[j] != sep,
        first_sep(s, sep) < s.len() ==> s[first_sep(s, sep)] == sep,
    decreases s.len(),
{
    if s.len() > 0 && s[0] != sep {
        lemma_first_sep(s.drop_first(), sep);
        assert(forall|j: int| 1 <= j < s.len() ==> #[trigger] s[j] == s.drop_first()[j - 1]);
    }
}

/// The segments of `s` between occurrences of `sep`.
pub open spec fn split_seq(s: Seq<char>, sep: char) -> Seq<Seq<char>>
    decreases s.len(),
{
    let i = first_sep(s, sep);
    if 0 <= i < s.len() {
        seq![s.subrange(0, i)] + split_seq(s.subrange(i + 1, s.len() as int), sep)
    } else {
        seq![s]
    }
}

/// A sequence without the separator splits into itself alone.
pub proof fn lemma_split_whole(s: Seq<char>, sep: char)
    requires
        forall|j: int| 0 <= j < s.len() ==> s[j] != sep,
    ensures
        split_seq(s, sep) == seq![s],
    decreases s.len(),
{
    lemma_first_sep(s, sep);
    if first_sep(s, sep) < s.len() {
        assert(false);
    }
}

/// Splitting `p + [sep] + rest` when `p` is separator-free yields `p`
/// followed by the split of `rest`.
pub proof fn lemma_split_step(p: Seq<char>, rest: Seq<char>, sep: char)
    requires
        forall|j: int| 0 <= j < p.len() ==> p[j] != sep,
    ensures
        split_seq(p + seq![sep] + rest, sep) == seq![p] + split_seq(rest, sep),
{
    let s = p + seq![sep] + rest;
    assert(s.len() == p.len() + 1 + rest.len());
    assert(forall|j: int| 0 <= j < p.len() ==> s[j] == p[j]);
    assert(s[p.len() as int] == sep);
    lemma_first_sep(s, sep);
    let i = first_sep(s, sep);
    assert(i <= p.len()) by {
        if i > p.len() {
            assert(s[p.len() as int] != sep);
        }
    }
    assert(i >= p.len()) by {
        if i < p.len() {
            lemma_first_sep(s, sep);
            assert(s[i] == sep);
            assert(s[i] == p[i]);
        }
    }
    assert(i == p.len());
    assert(s.subrange(0, i) =~= p);
    assert(s.subrange(i + 1, s.len() as int) =~= rest);
    assert(split_seq(s, sep) =~= seq![p] + split_seq(rest, sep));
}

/// Join a list of segments with `sep` between neighbours.
pub open spec fn join_seq(parts: Seq<Seq<char>>, sep: char) -> Seq<char>
    decreases parts.len(),
{
    if parts.len() == 0 {
        Seq::empty()
    } else if parts.len() == 1 {
        parts[0]
    } else {
        parts[0] + seq![sep] + join_seq(parts.drop_first(), sep)
    }
}

/// Splitting a join restores the joined segments, provided none of them
/// contains the separator.
pub proof fn lemma_split_join(parts: Seq<Seq<char>>, sep: char)
    requires
        parts.len() > 0,
        forall|i: int, j: int|
            0 <= i < parts.len() && 0 <= j < parts[i].len() ==> #[trigger] parts[i][j] != sep,
    ensures
        split_seq(join_seq(parts, sep), sep) == parts,
    decreases parts.len(),
{
    if parts.len() == 1 {
        lemma_split_whole(parts[0], sep);
        assert(seq![parts[0]] =~= parts);
    } else {
        lemma_split_join(parts.drop_first(), sep);
        lemma_split_step(parts[0], join_seq(parts.drop_first(), sep), sep);
        assert(seq![parts[0]] + parts.drop_first() =~= parts);
    }
}

/// Split a character vector on a separator.
pub fn split_chars(s: &Vec<char>, sep: char) -> (r: Vec<Vec<char>>)
    ensures
        r@.map_values(|v: Vec<char>| v@) == split_seq(s@, sep),
        r@.len() >= 1,
{
    let mut acc: Vec<Vec<char>> = Vec::new();
    let mut cur: Vec<char> = Vec::new();
    let mut i: usize = 0;
    let n: usize = s.len();
    proof {
        assert(cur@ + s@.subrange(0, n as int) =~= s@);
        assert(acc@.map_values(|v: Vec<char>| v@) + split_seq(s@, sep) =~= split_seq(s@, sep));
    }
    while i < n
        invariant
            n == s@.len(),
            i <= n,
            forall|j: int| 0 <= j < cur@.len() ==> cur@[j] != sep,
            split_seq(s@, sep) == acc@.map_values(|v: Vec<char>| v@) + split_seq(
                cur@ + s@.subrange(i as int, n as int),
                sep,
            ),
        decreases n - i,
    {
        let c: char = s[i];
        let ghost rest = s@.subrange(i + 1, n as int);
        if c == sep {
            proof {
                assert(cur@ + s@.subrange(i as int, n as int) =~= cur@ + seq![sep] + rest);
                lemma_split_step(cur@, rest, sep);
            }
            acc.push(cur);
            cur = Vec::new();
            proof {
                assert(acc@.map_values(|v: Vec<char>| v@) =~= acc@.drop_last().map_values(
                    |v: Vec<char>| v@,
                ).push(acc@.last()@));
                assert(split_seq(s@, sep) =~= acc@.map_values(|v: Vec<char>| v@) + split_seq(
                    cur@ + rest,
                    sep,
                ));
            }
        } else {
            let ghost old_cur = cur@;
            cur.push(c);
            proof {
                assert(old_cur + s@.subrange(i as int, n as int) =~= cur@ + rest);
            }
        }
        i += 1;
        proof {
            assert(s@.subrange(i as int, n as int) =~= s@.subrange(i as int, n as int));
        }
    }
    proof {
        assert(cur@ + s@.subrange(n as int, n as int) =~= cur@);
        lemma_split_whole(cur@, sep);
    }
    let ghost pre = acc@;
    acc.push(cur);
    proof {
        assert(acc@.map_values(|v: Vec<char>| v@) =~= pre.map_values(|v: Vec<char>| v@).push(
            acc@.last()@,
        ));
        assert(split_seq(s@, sep) =~= acc@.map_values(|v: Vec<char>| v@));
    }
    acc
}

/// Join segments with a separator.
pub fn join_chars(parts: &Vec<Vec<char>>, sep: char) -> (r: Vec<char>)
    ensures
        r@ == join_seq(parts@.map_values(|v: Vec<char>| v@), sep),
{
    let mut r: Vec<char> = Vec::new();
    let mut i: usize = 0;
    let ghost pview = parts@.map_values(|v: Vec<char>| v@);
    if parts.len() == 0 {
        return r;
    }
    while i < parts.len()
        invariant
            parts@.len() > 0,
            pview == parts@.map_values(|v: Vec<char>| v@),
            i <= parts@.len(),
            (i == 0 && r@ == Seq::<char>::empty()) || (0 < i < pview.len() && join_seq(
                pview,
                sep,
            ) == r@ + seq![sep] + join_seq(pview.subrange(i as int, pview.len() as int), sep)) || (
            i == pview.len() && join_seq(pview, sep) == r@),
        decreases parts@.len() - i,
    {
        let ghost tail = pview.subrange(i as int, pview.len() as int);
        if i > 0 {
            r.push(sep);
        }
        let ghost base = r@;
        let part = &parts[i];
        let mut j: usize = 0;
        while j < part.len()
            invariant
                j <= part@.len(),
                r@ == base + part@.subrange(0, j as int),
            decreases part@.len() - j,
        {
            r.push(part[j]);
            j += 1;
            proof {
                assert(r@ =~= base + part@.subrange(0, j as int));
            }
        }
        proof {
            assert(r@ =~= base + pview[i as int]);
        }
        i += 1;
        proof {
            assert(tail.len() > 0);
            assert(tail[0] == pview[i - 1]);
            if i - 1 == 0 {
                if tail.len() == 1 {
                    assert(tail =~= pview);
                    assert(join_seq(pview, sep) == pview[0]);
                    assert(r@ =~= pview[0]);
                } else {
                    assert(tail =~= pview);
                    assert(join_seq(pview, sep) == pview[0] + seq![sep] + join_seq(
                        pview.drop_first(),
                        sep,
                    ));
                    assert(pview.drop_first() =~= pview.subrange(i as int, pview.len() as int));
                    assert(r@ =~= pview[0]);
                }
            } else {
                if tail.len() == 1 {
                    assert(i == pview.len());
                    assert(join_seq(tail, sep) == tail[0]);
                } else {
                    assert(join_seq(tail, sep) == tail[0] + seq![sep] + join_seq(
                        tail.drop_first(),
                        sep,
                    ));
                    assert(tail.drop_first() =~= pview.subrange(i as int, pview.len() as int));
                }
            }
        }
    }
    r
}

} // verus!
