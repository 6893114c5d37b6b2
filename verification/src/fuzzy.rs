use vstd::prelude::*;
use crate::command::Search;
use crate::text::str_to_chars;

verus! {

// ---------------------------------------------------------------------------
// Trigram similarity.
// ---------------------------------------------------------------------------

/// A text padded with boundary markers: two spaces in front, one behind.
pub open spec fn padded(s: Seq<char>) -> Seq<char> {
    seq![' ', ' '] + s + seq![' ']
}

/// All three-character windows of the padded text.
pub open spec fn trigrams_of(s: Seq<char>) -> Seq<(char, char, char)> {
    Seq::new((s.len() + 1) as nat, |i: int| (padded(s)[i], padded(s)[i + 1], padded(s)[i + 2]))
}

/// How many trigrams of `a` (counted with repetition) occur in `b`.
pub open spec fn common_count(a: Seq<(char, char, char)>, b: Seq<(char, char, char)>) -> int
    decreases a.len(),
{
    if a.len() == 0 {
        0
    } else {
        (if b.contains(a[0]) {
            1int
        } else {
            0int
        }) + common_count(a.drop_first(), b)
    }
}

pub proof fn lemma_common_le(a: Seq<(char, char, char)>, b: Seq<(char, char, char)>)
    ensures
        0 <= common_count(a, b) <= a.len(),
    decreases a.len(),
{
    if a.len() > 0 {
        lemma_common_le(a.drop_first(), b);
    }
}

pub proof fn lemma_common_push(a: Seq<(char, char, char)>, x: (char, char, char), b: Seq<
    (char, char, char),
>)
    ensures
        common_count(a.push(x), b) == common_count(a, b) + (if b.contains(x) {
            1int
        } else {
            0int
        }),
    decreases a.len(),
{
    if a.len() == 0 {
        assert(a.push(x)[0] == x);
        assert(a.push(x).drop_first() =~= Seq::<(char, char, char)>::empty());
        assert(common_count(Seq::<(char, char, char)>::empty(), b) == 0);
        assert(common_count(a, b) == 0);
    } else {
        assert(a.push(x)[0] == a[0]);
        assert(a.push(x).drop_first() =~= a.drop_first().push(x));
        lemma_common_push(a.drop_first(), x, b);
    }
}

/// A candidate with its similarity score, an exact fraction.
pub struct ScoredView {
    pub value: Seq<char>,
    pub num: int,
    pub den: int,
}

pub struct Scored {
    pub value: String,
    pub num: usize,
    pub den: usize,
}

impl View for Scored {
    type V = ScoredView;

    open spec fn view(&self) -> ScoredView {
        ScoredView { value: self.value@, num: self.num as int, den: self.den as int }
    }
}

/// Does `x` score at least as high as `y`? Compared exactly, by cross
/// multiplication.
pub open spec fn score_ge(x: ScoredView, y: ScoredView) -> bool {
    x.num * y.den >= y.num * x.den
}

/// Insert one candidate into a descending list, behind equal scores.
pub open spec fn ins_desc(x: ScoredView, s: Seq<ScoredView>) -> Seq<ScoredView>
    decreases s.len(),
{
    if s.len() == 0 {
        seq![x]
    } else if score_ge(x, s[0]) {
        seq![x] + s
    } else {
        seq![s[0]] + ins_desc(x, s.drop_first())
    }
}

/// Stable sort by descending score.
pub open spec fn sort_desc(s: Seq<ScoredView>) -> Seq<ScoredView>
    decreases s.len(),
{
    if s.len() == 0 {
        Seq::empty()
    } else {
        ins_desc(s[0], sort_desc(s.drop_first()))
    }
}

/// The fixed-point scale scores are compared against the mean with.
pub open spec fn fp_scale() -> int {
    0x1_0000_0000
}

/// A score as a fixed-point number.
pub open spec fn fp_score(x: ScoredView) -> int {
    if x.den <= 0 {
        0
    } else {
        (x.num * fp_scale()) / x.den
    }
}

/// A score whose numerator is at most its denominator stays within one unit
/// of the scale.
pub proof fn lemma_fp_score_bounds(x: ScoredView)
    requires
        0 <= x.num,
    ensures
        0 <= fp_score(x),
        x.num <= x.den ==> fp_score(x) <= fp_scale(),
{
    if x.den > 0 {
        vstd::arithmetic::div_mod::lemma_div_pos_is_pos(x.num * fp_scale(), x.den);
        assert(x.num * fp_scale() >= 0) by (nonlinear_arith)
            requires
                x.num >= 0,
        ;
        if x.num <= x.den {
            assert(x.num * fp_scale() <= x.den * fp_scale()) by (nonlinear_arith)
                requires
                    x.num <= x.den,
            ;
            vstd::arithmetic::div_mod::lemma_div_is_ordered(
                x.num * fp_scale(),
                x.den * fp_scale(),
                x.den,
            );
            vstd::arithmetic::div_mod::lemma_div_multiples_vanish(fp_scale(), x.den);
        }
    }
}

pub open spec fn fp_sum(s: Seq<ScoredView>) -> int
    decreases s.len(),
{
    if s.len() == 0 {
        0
    } else {
        fp_score(s[0]) + fp_sum(s.drop_first())
    }
}

/// The mean fixed-point score of a candidate set.
pub open spec fn fp_mean(s: Seq<ScoredView>) -> int {
    if s.len() == 0 {
        0
    } else {
        fp_sum(s) / s.len() as int
    }
}

/// The values of the candidates scoring at or above the mean, in list order.
pub open spec fn keep_above(s: Seq<ScoredView>, m: int) -> Seq<Seq<char>>
    decreases s.len(),
{
    if s.len() == 0 {
        Seq::empty()
    } else {
        (if fp_score(s[0]) >= m {
            seq![s[0].value]
        } else {
            Seq::<Seq<char>>::empty()
        }) + keep_above(s.drop_first(), m)
    }
}

/// The score of one candidate against a query.
pub open spec fn score_of(q: Seq<char>, v: Seq<char>) -> ScoredView {
    ScoredView { value: v, num: common_count(trigrams_of(v), trigrams_of(q)), den: v.len() as int + 1 }
}

/// The whole ranking: score every candidate, sort by descending score, and
/// keep those at or above the mean score of the set.
pub open spec fn search_spec(q: Seq<char>, list: Seq<Seq<char>>) -> Seq<Seq<char>> {
    let scored = list.map_values(|v: Seq<char>| score_of(q, v));
    keep_above(sort_desc(scored), fp_mean(scored))
}

/// The trigrams of a text, computed.
fn trigrams(s: &str) -> (r: Vec<(char, char, char)>)
    ensures
        r@ == trigrams_of(s@),
{
    let cs = str_to_chars(s);
    let mut p: Vec<char> = Vec::new();
    p.push(' ');
    p.push(' ');
    let mut i: usize = 0;
    while i < cs.len()
        invariant
            cs@ == s@,
            i <= cs@.len(),
            p@ == seq![' ', ' '] + cs@.subrange(0, i as int),
        decreases cs@.len() - i,
    {
        p.push(cs[i]);
        i += 1;
        proof {
            assert(p@ =~= seq![' ', ' '] + cs@.subrange(0, i as int));
        }
    }
    p.push(' ');
    proof {
        assert(p@ =~= padded(s@));
    }
    let mut r: Vec<(char, char, char)> = Vec::new();
    let mut k: usize = 0;
    let n: usize = p.len() - 2;
    while k < n
        invariant
            p@ == padded(s@),
            n == p@.len() - 2,
            n == s@.len() + 1,
            k <= n,
            r@.len() == k,
            forall|t: int| 0 <= t < k ==> r@[t] == (p@[t], p@[t + 1], p@[t + 2]),
        decreases n - k,
    {
        r.push((p[k], p[k + 1], p[k + 2]));
        k += 1;
    }
    proof {
        assert(r@ =~= trigrams_of(s@));
    }
    r
}

/// Does a trigram occur in a list?
fn trigram_in(b: &Vec<(char, char, char)>, t: (char, char, char)) -> (r: bool)
    ensures
        r == b@.contains(t),
{
    let mut i: usize = 0;
    while i < b.len()
        invariant
            i <= b@.len(),
            forall|k: int| 0 <= k < i ==> b@[k] != t,
        decreases b@.len() - i,
    {
        let u = b[i];
        if u.0 == t.0 && u.1 == t.1 && u.2 == t.2 {
            proof {
                assert(b@[i as int] == t);
            }
            return true;
        }
        i += 1;
    }
    false
}

/// Count the trigrams of `a` occurring in `b`.
fn common(a: &Vec<(char, char, char)>, b: &Vec<(char, char, char)>) -> (r: usize)
    ensures
        r == common_count(a@, b@),
{
    let mut cnt: usize = 0;
    let mut i: usize = 0;
    proof {
        assert(a@.subrange(0, 0) =~= Seq::<(char, char, char)>::empty());
        lemma_common_le(a@, b@);
    }
    while i < a.len()
        invariant
            i <= a@.len(),
            cnt == common_count(a@.subrange(0, i as int), b@),
            cnt <= i,
        decreases a@.len() - i,
    {
        proof {
            lemma_common_le(a@.subrange(0, i as int), b@);
        }
        if trigram_in(b, a[i]) {
            cnt += 1;
        }
        i += 1;
        proof {
            assert(a@.subrange(0, i as int) =~= a@.subrange(0, i - 1).push(a@[i - 1]));
            lemma_common_push(a@.subrange(0, i - 1), a@[i - 1], b@);
        }
    }
    proof {
        assert(a@.subrange(0, a@.len() as int) =~= a@);
    }
    cnt
}

/// `ins_desc` puts the new candidate at the first position whose score it
/// reaches.
proof fn lemma_ins_at(x: ScoredView, s: Seq<ScoredView>, pos: int)
    requires
        0 <= pos <= s.len(),
        forall|j: int| 0 <= j < pos ==> !score_ge(x, #[trigger] s[j]),
        pos < s.len() ==> score_ge(x, s[pos]),
    ensures
        ins_desc(x, s) == s.subrange(0, pos) + seq![x] + s.subrange(pos, s.len() as int),
    decreases s.len(),
{
    if s.len() == 0 {
        assert(s.subrange(0, 0) =~= Seq::<ScoredView>::empty());
        assert(ins_desc(x, s) =~= s.subrange(0, 0) + seq![x] + s.subrange(0, 0));
    } else if pos == 0 {
        assert(ins_desc(x, s) == seq![x] + s);
        assert(s.subrange(0, 0) =~= Seq::<ScoredView>::empty());
        assert(s.subrange(0, s.len() as int) =~= s);
        assert(seq![x] + s =~= s.subrange(0, 0) + seq![x] + s.subrange(0, s.len() as int));
    } else {
        assert(!score_ge(x, s[0]));
        assert(forall|j: int|
            0 <= j < pos - 1 ==> #[trigger] s.drop_first()[j] == s[j + 1]);
        lemma_ins_at(x, s.drop_first(), pos - 1);
        assert(s.drop_first().subrange(0, pos - 1) =~= s.subrange(1, pos));
        assert(s.drop_first().subrange(pos - 1, s.drop_first().len() as int) =~= s.subrange(
            pos,
            s.len() as int,
        ));
        assert(seq![s[0]] + (s.subrange(1, pos) + seq![x] + s.subrange(pos, s.len() as int))
            =~= s.subrange(0, pos) + seq![x] + s.subrange(pos, s.len() as int));
    }
}

/// Insert one scored candidate into a descending vector.
fn insert_desc(x: Scored, s: &mut Vec<Scored>)
    ensures
        final(s)@.map_values(|e: Scored| e@) == ins_desc(
            x@,
            old(s)@.map_values(|e: Scored| e@),
        ),
{
    let ghost sv = s@.map_values(|e: Scored| e@);
    let n: usize = s.len();
    let mut pos: usize = 0;
    let mut stop: bool = false;
    while pos < n && !stop
        invariant
            n == s@.len(),
            s@.map_values(|e: Scored| e@) == sv,
            pos <= n,
            forall|j: int| 0 <= j < pos ==> !score_ge(x@, #[trigger] sv[j]),
            stop ==> pos < n && score_ge(x@, sv[pos as int]),
        decreases n - pos + (if stop { 0int } else { 1int }),
    {
        let xn: u128 = x.num as u128;
        let xd: u128 = x.den as u128;
        let en: u128 = s[pos].num as u128;
        let ed: u128 = s[pos].den as u128;
        proof {
            assert(xn * ed < 0xFFFF_FFFF_FFFF_FFFF_FFFF_FFFF_FFFF_FFFFu128)
                by (nonlinear_arith)
                requires
                    xn <= 0xFFFF_FFFF_FFFF_FFFFu64,
                    ed <= 0xFFFF_FFFF_FFFF_FFFFu64,
            ;
            assert(en * xd < 0xFFFF_FFFF_FFFF_FFFF_FFFF_FFFF_FFFF_FFFFu128)
                by (nonlinear_arith)
                requires
                    en <= 0xFFFF_FFFF_FFFF_FFFFu64,
                    xd <= 0xFFFF_FFFF_FFFF_FFFFu64,
            ;
        }
        if xn * ed >= en * xd {
            proof {
                assert(sv[pos as int] == s@[pos as int]@);
                assert(score_ge(x@, sv[pos as int]));
            }
            stop = true;
        } else {
            proof {
                assert(sv[pos as int] == s@[pos as int]@);
                assert(!score_ge(x@, sv[pos as int]));
            }
            pos += 1;
        }
    }
    proof {
        lemma_ins_at(x@, sv, pos as int);
    }
    s.insert(pos, x);
    proof {
        assert(final(s)@.map_values(|e: Scored| e@) =~= sv.subrange(0, pos as int) + seq![x@]
            + sv.subrange(pos as int, sv.len() as int));
    }
}

impl Search {
    /// The similarity of a candidate to the query (the stored one where the
    /// search holds one, the given one otherwise): the number of shared
    /// trigrams over the candidate's length plus one, as an exact fraction.
    pub fn compare(&self, to: &str, from: &str) -> (r: (usize, usize))
        ensures
            ({
                let q = match self.query {
                    Some(q) => q@,
                    None => from@,
                };
                r.0 == score_of(q, to@).num && r.1 == score_of(q, to@).den
            }),
    {
        let ta = trigrams(to);
        let tb = match self.query() {
            Some(q) => trigrams(q.as_str()),
            None => trigrams(from),
        };
        let c = common(&ta, &tb);
        proof {
            lemma_common_le(ta@, tb@);
        }
        (c, ta.len())
    }

    /// Rank the candidates by descending trigram similarity to the query and
    /// keep those scoring at or above the mean of the set.
    pub fn search(&self, from: &str, list: &Vec<String>) -> (r: Vec<String>)
        ensures
            ({
                let q = match self.query {
                    Some(q) => q@,
                    None => from@,
                };
                r@.map_values(|s: String| s@) == search_spec(
                    q,
                    list@.map_values(|s: String| s@),
                )
            }),
    {
        let ghost q: Seq<char> = match &self.query {
            Some(q) => q@,
            None => from@,
        };
        let ghost lviews = list@.map_values(|s: String| s@);
        let ghost scored_spec = lviews.map_values(|v: Seq<char>| score_of(q, v));
        let tq = match self.query() {
            Some(qs) => trigrams(qs.as_str()),
            None => trigrams(from),
        };
        // Score every candidate.
        let mut scored: Vec<Scored> = Vec::new();
        let mut i: usize = 0;
        while i < list.len()
            invariant
                tq@ == trigrams_of(q),
                lviews == list@.map_values(|s: String| s@),
                scored_spec == lviews.map_values(|v: Seq<char>| score_of(q, v)),
                i <= list@.len(),
                scored@.len() == i,
                forall|k: int| 0 <= k < i ==> (#[trigger] scored@[k])@ == scored_spec[k],
            decreases list@.len() - i,
        {
            let tv = trigrams(list[i].as_str());
            let c = common(&tv, &tq);
            proof {
                lemma_common_le(tv@, tq@);
            }
            scored.push(Scored { value: list[i].clone(), num: c, den: tv.len() });
            i += 1;
        }
        // The mean of the fixed-point scores.
        let mut total: u128 = 0;
        let mut k: usize = scored.len();
        proof {
            assert(scored_spec.subrange(k as int, k as int) =~= Seq::<ScoredView>::empty());
        }
        while k > 0
            invariant
                lviews == list@.map_values(|s: String| s@),
                scored_spec == lviews.map_values(|v: Seq<char>| score_of(q, v)),
                scored@.len() == scored_spec.len(),
                scored_spec.len() <= 0xFFFF_FFFF_FFFF_FFFFu64,
                forall|t: int|
                    0 <= t < scored@.len() ==> (#[trigger] scored@[t])@ == scored_spec[t],
                k <= scored@.len(),
                total == fp_sum(scored_spec.subrange(k as int, scored_spec.len() as int)),
                total <= (scored_spec.len() - k) * 0x1_0000_0000,
            decreases k,
        {
            k -= 1;
            let e = &scored[k];
            proof {
                assert(e@ == scored_spec[k as int]);
                assert(e@.num <= e@.den) by {
                    assert(scored_spec[k as int] == score_of(q, lviews[k as int]));
                    lemma_common_le(trigrams_of(lviews[k as int]), trigrams_of(q));
                }
                lemma_fp_score_bounds(e@);
            }
            let sc: u128 = if e.den == 0 {
                0
            } else {
                ((e.num as u128) * 0x1_0000_0000u128) / (e.den as u128)
            };
            proof {
                assert(sc as int == fp_score(e@)) by {
                    if e@.den > 0 {
                        assert(e@.num * 0x1_0000_0000 == ((e.num as u128)
                            * 0x1_0000_0000u128) as int);
                    }
                }
                let tail = scored_spec.subrange(k + 1, scored_spec.len() as int);
                let now = scored_spec.subrange(k as int, scored_spec.len() as int);
                assert(now[0] == scored_spec[k as int]);
                assert(now.drop_first() =~= tail);
                assert(total + sc <= (scored_spec.len() - k) * 0x1_0000_0000) by (nonlinear_arith)
                    requires
                        total <= (scored_spec.len() - (k + 1)) * 0x1_0000_0000,
                        0 <= sc as int <= 0x1_0000_0000,
                ;
                assert((scored_spec.len() - k) * 0x1_0000_0000 < 0x1_0000_0000_0000_0000_0000_0000u128)
                    by (nonlinear_arith)
                    requires
                        scored_spec.len() - k <= 0xFFFF_FFFF_FFFF_FFFFu64,
                ;
            }
            total = total + sc;
        }
        proof {
            assert(scored_spec.subrange(0, scored_spec.len() as int) =~= scored_spec);
        }
        let mean: u128 = if scored.len() > 0 {
            let m = total / (scored.len() as u128);
            proof {
                assert(m as int == fp_mean(scored_spec));
            }
            m
        } else {
            0
        };
        // Sort by descending score, stably.
        let mut sorted: Vec<Scored> = Vec::new();
        let ghost mut remaining = scored@.map_values(|e: Scored| e@);
        proof {
            assert(remaining =~= scored_spec);
        }
        let mut scored = scored;
        while scored.len() > 0
            invariant
                scored@.map_values(|e: Scored| e@) == scored_spec.subrange(
                    0,
                    scored@.len() as int,
                ),
                scored@.len() <= scored_spec.len(),
                sorted@.map_values(|e: Scored| e@) == sort_desc(
                    scored_spec.subrange(scored@.len() as int, scored_spec.len() as int),
                ),
            decreases scored@.len(),
        {
            let ghost before = scored@.map_values(|e: Scored| e@);
            let x = match scored.pop() {
                Some(x) => x,
                None => {
                    proof {
                        assert(false);
                    }
                    Scored { value: String::new(), num: 0, den: 1 }
                },
            };
            proof {
                assert(x@ == before.last());
                assert(before.last() == scored_spec[scored@.len() as int]);
                assert(scored@.map_values(|e: Scored| e@) =~= before.drop_last());
                assert(before.drop_last() =~= scored_spec.subrange(0, scored@.len() as int));
            }
            insert_desc(x, &mut sorted);
            proof {
                let lo = scored@.len() as int;
                let suffix = scored_spec.subrange(lo, scored_spec.len() as int);
                assert(suffix[0] == scored_spec[lo]);
                assert(suffix.drop_first() =~= scored_spec.subrange(
                    lo + 1,
                    scored_spec.len() as int,
                ));
            }
        }
        proof {
            assert(scored_spec.subrange(0, scored_spec.len() as int) =~= scored_spec);
            assert(sorted@.map_values(|e: Scored| e@) == sort_desc(scored_spec));
        }
        // Keep the candidates at or above the mean.
        let ghost sorted_spec = sort_desc(scored_spec);
        let mut out: Vec<String> = Vec::new();
        let mut t: usize = 0;
        proof {
            assert(sorted_spec.subrange(0, sorted_spec.len() as int) =~= sorted_spec);
            assert(Seq::<Seq<char>>::empty() + keep_above(sorted_spec, fp_mean(scored_spec))
                =~= keep_above(sorted_spec, fp_mean(scored_spec)));
        }
        while t < sorted.len()
            invariant
                sorted@.map_values(|e: Scored| e@) == sorted_spec,
                mean as int == fp_mean(scored_spec),
                t <= sorted@.len(),
                keep_above(sorted_spec, fp_mean(scored_spec)) == out@.map_values(|s: String| s@)
                    + keep_above(
                    sorted_spec.subrange(t as int, sorted_spec.len() as int),
                    fp_mean(scored_spec),
                ),
            decreases sorted@.len() - t,
        {
            let ghost suffix = sorted_spec.subrange(t as int, sorted_spec.len() as int);
            proof {
                assert(suffix[0] == sorted_spec[t as int]);
                assert(sorted_spec[t as int] == sorted@[t as int]@);
                assert(suffix.drop_first() =~= sorted_spec.subrange(
                    t + 1,
                    sorted_spec.len() as int,
                ));
            }
            let e = &sorted[t];
            let sc: u128 = if e.den == 0 {
                0
            } else {
                ((e.num as u128) * 0x1_0000_0000u128) / (e.den as u128)
            };
            proof {
                assert(sc as int == fp_score(e@)) by {
                    if e@.den > 0 {
                        vstd::arithmetic::div_mod::lemma_div_pos_is_pos(
                            e@.num * 0x1_0000_0000,
                            e@.den,
                        );
                        assert(e@.num * 0x1_0000_0000 >= 0) by (nonlinear_arith)
                            requires
                                e@.num >= 0,
                        ;
                        assert(e@.num * 0x1_0000_0000 == ((e.num as u128)
                            * 0x1_0000_0000u128) as int);
                    }
                }
            }
            let ghost before = out@.map_values(|s: String| s@);
            if sc >= mean {
                out.push(e.value.clone());
                proof {
                    assert(out@.map_values(|s: String| s@) =~= before.push(e@.value));
                    assert(seq![e@.value] + keep_above(
                        suffix.drop_first(),
                        fp_mean(scored_spec),
                    ) == keep_above(suffix, fp_mean(scored_spec)));
                    assert(before + (seq![e@.value] + keep_above(
                        suffix.drop_first(),
                        fp_mean(scored_spec),
                    )) =~= out@.map_values(|s: String| s@) + keep_above(
                        suffix.drop_first(),
                        fp_mean(scored_spec),
                    ));
                }
            } else {
                proof {
                    assert(Seq::<Seq<char>>::empty() + keep_above(
                        suffix.drop_first(),
                        fp_mean(scored_spec),
                    ) =~= keep_above(suffix.drop_first(), fp_mean(scored_spec)));
                }
            }
            t += 1;
        }
        proof {
            assert(sorted_spec.subrange(sorted_spec.len() as int, sorted_spec.len() as int)
                =~= Seq::<ScoredView>::empty());
            assert(out@.map_values(|s: String| s@) + Seq::<Seq<char>>::empty() =~= out@
                .map_values(|s: String| s@));
        }
        out
    }
}

// ---------------------------------------------------------------------------
// Edit distance.
// ---------------------------------------------------------------------------

pub open spec fn min3(x: int, y: int, z: int) -> int {
    if x <= y && x <= z {
        x
    } else if y <= z {
        y
    } else {
        z
    }
}

/// The Levenshtein distance: unit costs for insertion, deletion and
/// substitution.
pub open spec fn lev(a: Seq<char>, b: Seq<char>) -> int
    decreases a.len() + b.len(),
{
    if a.len() == 0 {
        b.len() as int
    } else if b.len() == 0 {
        a.len() as int
    } else if a[0] == b[0] {
        lev(a.drop_first(), b.drop_first())
    } else {
        1 + min3(lev(a.drop_first(), b), lev(a, b.drop_first()), lev(a.drop_first(), b.drop_first()))
    }
}

pub proof fn lemma_lev_bounds(a: Seq<char>, b: Seq<char>)
    ensures
        0 <= lev(a, b) <= a.len() + b.len(),
    decreases a.len() + b.len(),
{
    if a.len() > 0 && b.len() > 0 {
        lemma_lev_bounds(a.drop_first(), b.drop_first());
        lemma_lev_bounds(a.drop_first(), b);
        lemma_lev_bounds(a, b.drop_first());
    }
}

/// Compute the distance by dynamic programming over suffixes.
pub fn levenshtein(a: &Vec<char>, b: &Vec<char>) -> (r: u128)
    ensures
        r as int == lev(a@, b@),
{
    let n: usize = a.len();
    let m: usize = b.len();
    // row[k] holds the distance between the suffix of `a` at `i` and the
    // suffix of `b` at `m - k`.
    let mut row: Vec<u128> = Vec::new();
    row.push(0);
    let mut k: usize = 0;
    proof {
        assert(a@.subrange(a@.len() as int, a@.len() as int) =~= Seq::<char>::empty());
        assert(b@.subrange(b@.len() as int, b@.len() as int) =~= Seq::<char>::empty());
    }
    while k < m
        invariant
            m == b@.len(),
            k <= m,
            row@.len() == k + 1,
            forall|t: int|
                0 <= t <= k ==> (#[trigger] row@[t]) as int == lev(
                    a@.subrange(a@.len() as int, a@.len() as int),
                    b@.subrange(b@.len() - t, b@.len() as int),
                ),
        decreases m - k,
    {
        k += 1;
        proof {
            assert(b@.subrange(b@.len() - k, b@.len() as int).len() == k);
        }
        row.push(k as u128);
    }
    let mut i: usize = n;
    while i > 0
        invariant
            n == a@.len(),
            m == b@.len(),
            i <= n,
            row@.len() == m + 1,
            forall|t: int|
                0 <= t <= m ==> (#[trigger] row@[t]) as int == lev(
                    a@.subrange(i as int, n as int),
                    b@.subrange(m - t, m as int),
                ),
        decreases i,
    {
        i -= 1;
        let mut new_row: Vec<u128> = Vec::new();
        proof {
            assert(a@.subrange(i as int, n as int).len() == n - i);
            assert(b@.subrange(m as int, m as int) =~= Seq::<char>::empty());
        }
        new_row.push((n - i) as u128);
        let mut c2: usize = 0;
        while c2 < m
            invariant
                n == a@.len(),
                m == b@.len(),
                i < n,
                c2 <= m,
                row@.len() == m + 1,
                forall|t: int|
                    0 <= t <= m ==> (#[trigger] row@[t]) as int == lev(
                        a@.subrange(i + 1, n as int),
                        b@.subrange(m - t, m as int),
                    ),
                new_row@.len() == c2 + 1,
                forall|t: int|
                    0 <= t <= c2 ==> (#[trigger] new_row@[t]) as int == lev(
                        a@.subrange(i as int, n as int),
                        b@.subrange(m - t, m as int),
                    ),
            decreases m - c2,
        {
            let kk: usize = c2 + 1;
            let j: usize = m - kk;
            let ghost sa = a@.subrange(i as int, n as int);
            let ghost sb = b@.subrange(j as int, m as int);
            proof {
                assert(sa.len() == n - i > 0);
                assert(sb.len() == kk > 0);
                assert(sa[0] == a@[i as int]);
                assert(sb[0] == b@[j as int]);
                assert(sa.drop_first() =~= a@.subrange(i + 1, n as int));
                assert(sb.drop_first() =~= b@.subrange(j + 1, m as int));
                lemma_lev_bounds(sa.drop_first(), sb);
                lemma_lev_bounds(sa, sb.drop_first());
                lemma_lev_bounds(sa.drop_first(), sb.drop_first());
            }
            let c: u128;
            if a[i] == b[j] {
                c = row[kk - 1];
            } else {
                let d1 = row[kk];
                let d2 = new_row[kk - 1];
                let d3 = row[kk - 1];
                let mn = if d1 <= d2 && d1 <= d3 {
                    d1
                } else if d2 <= d3 {
                    d2
                } else {
                    d3
                };
                c = 1 + mn;
            }
            proof {
                assert(c as int == lev(sa, sb));
            }
            new_row.push(c);
            c2 += 1;
        }
        row = new_row;
    }
    proof {
        assert(a@.subrange(0, n as int) =~= a@);
        assert(b@.subrange(0, m as int) =~= b@);
    }
    row[m]
}

// ---------------------------------------------------------------------------
// Interactive suggestions for a workflow's argument values.
// ---------------------------------------------------------------------------

pub open spec fn max2(x: int, y: int) -> int {
    if x >= y {
        x
    } else {
        y
    }
}

/// The example values of the last argument carrying a name.
pub open spec fn arg_values_of(args: Seq<crate::workflow::ArgumentView>, key: Seq<char>) -> Seq<
    Seq<char>,
>
    decreases args.len(),
{
    if args.len() == 0 {
        Seq::empty()
    } else if args.last().name == key {
        args.last().values
    } else {
        arg_values_of(args.drop_last(), key)
    }
}

/// Does a value fit a (lowered) query? Either the lowered value contains the
/// query, or the edit distance between query and value stays within half of
/// the longer of the two.
pub open spec fn sugg_match(ql: Seq<char>, v: Seq<char>) -> bool {
    crate::text::contains_seq(crate::text::lower_seq(v), ql) || 2 * lev(ql, v) <= max2(
        ql.len() as int,
        v.len() as int,
    )
}

/// The first `budget` matching values, in declaration order.
pub open spec fn take_matches(vs: Seq<Seq<char>>, ql: Seq<char>, budget: int) -> Seq<Seq<char>>
    decreases vs.len(),
{
    if vs.len() == 0 || budget <= 0 {
        Seq::empty()
    } else if sugg_match(ql, vs[0]) {
        seq![vs[0]] + take_matches(vs.drop_first(), ql, budget - 1)
    } else {
        take_matches(vs.drop_first(), ql, budget)
    }
}

/// What `suggestion` offers: up to five example values of the named
/// argument that fit the lowered input.
pub open spec fn suggestion_spec(
    w: crate::workflow::WorkflowView,
    input: Seq<char>,
    key: Seq<char>,
) -> Seq<Seq<char>> {
    take_matches(arg_values_of(w.arguments, key), crate::text::lower_seq(input), 5)
}

impl crate::workflow::Workflow {
    /// Offer up to five of the named argument's example values that fit the
    /// input: the value contains the lowered input, or lies within half its
    /// length in edit distance.
    pub fn suggestion(&self, input: &str, key: &str) -> (r: Result<Vec<String>, crate::error::Error>)
        ensures
            (match r {
                Ok(out) => out@.map_values(|s: String| s@) == suggestion_spec(
                    self@,
                    input@,
                    key@,
                ),
                Err(_) => false,
            }),
    {
        let ghost ql = crate::text::lower_seq(input@);
        let ic = crate::text::lower_chars(&crate::text::str_to_chars(input));
        let kc = crate::text::str_to_chars(key);
        // The values of the last argument with this name.
        let args = self.arguments();
        let ghost avs = args@.map_values(|a: crate::workflow::Argument| a@);
        let mut vals: Option<&Vec<crate::workflow::ArgumentValue>> = None;
        let mut i: usize = args.len();
        proof {
            assert(avs =~= self@.arguments);
            assert(avs.subrange(0, i as int) =~= avs);
        }
        while i > 0 && vals.is_none()
            invariant
                avs == args@.map_values(|a: crate::workflow::Argument| a@),
                avs == self@.arguments,
                kc@ == key@,
                i <= args@.len(),
                vals is None ==> arg_values_of(avs, key@) == arg_values_of(
                    avs.subrange(0, i as int),
                    key@,
                ),
                (match vals {
                    Some(v) => v@.map_values(|x: crate::workflow::ArgumentValue| x@)
                        == arg_values_of(avs, key@),
                    None => true,
                }),
            decreases i,
        {
            i -= 1;
            let ghost pre = avs.subrange(0, i + 1);
            proof {
                assert(pre.last() == avs[i as int]);
                assert(pre.drop_last() =~= avs.subrange(0, i as int));
            }
            let a = &args[i];
            proof {
                assert(a@ == avs[i as int]);
            }
            if crate::text::chars_eq(&crate::text::str_to_chars(a.name().inner()), &kc) {
                vals = Some(a.values());
            }
        }
        let empty_vals: Vec<crate::workflow::ArgumentValue> = Vec::new();
        let vals: &Vec<crate::workflow::ArgumentValue> = match vals {
            Some(v) => v,
            None => {
                proof {
                    assert(avs.subrange(0, 0) =~= Seq::<crate::workflow::ArgumentView>::empty());
                    assert(empty_vals@.map_values(|x: crate::workflow::ArgumentValue| x@)
                        =~= arg_values_of(avs, key@));
                }
                &empty_vals
            },
        };
        let ghost vviews = vals@.map_values(|x: crate::workflow::ArgumentValue| x@);
        // Keep the first five matches.
        let mut out: Vec<String> = Vec::new();
        let mut t: usize = 0;
        proof {
            assert(vviews.subrange(0, vviews.len() as int) =~= vviews);
            assert(Seq::<Seq<char>>::empty() + take_matches(vviews, ql, 5) =~= take_matches(
                vviews,
                ql,
                5,
            ));
        }
        while t < vals.len() && out.len() < 5
            invariant
                ql == crate::text::lower_seq(input@),
                ic@ == ql,
                vviews == vals@.map_values(|x: crate::workflow::ArgumentValue| x@),
                vviews == arg_values_of(self@.arguments, key@),
                t <= vals@.len(),
                out@.len() <= 5,
                take_matches(vviews, ql, 5) == out@.map_values(|s: String| s@) + take_matches(
                    vviews.subrange(t as int, vviews.len() as int),
                    ql,
                    5 - out@.len(),
                ),
            decreases vals@.len() - t,
        {
            let ghost suffix = vviews.subrange(t as int, vviews.len() as int);
            proof {
                assert(suffix[0] == vviews[t as int]);
                assert(suffix.drop_first() =~= vviews.subrange(t + 1, vviews.len() as int));
            }
            let v = &vals[t];
            proof {
                assert(v@ == vviews[t as int]);
            }
            let vc = crate::text::str_to_chars(v.inner());
            let vlow = crate::text::lower_chars(&vc);
            let mut is_match: bool = crate::text::contains_chars(&vlow, &ic);
            if !is_match {
                let d = levenshtein(&ic, &vc);
                let la: u128 = ic.len() as u128;
                let lb: u128 = vc.len() as u128;
                let mx: u128 = if la >= lb {
                    la
                } else {
                    lb
                };
                proof {
                    lemma_lev_bounds(ic@, vc@);
                }
                if 2 * d <= mx {
                    is_match = true;
                }
            }
            proof {
                assert(is_match == sugg_match(ql, vviews[t as int]));
            }
            let ghost before = out@.map_values(|s: String| s@);
            if is_match {
                out.push(v.0.clone());
                proof {
                    assert(out@.map_values(|s: String| s@) =~= before.push(vviews[t as int]));
                    assert(before + (seq![suffix[0]] + take_matches(
                        suffix.drop_first(),
                        ql,
                        5 - before.len() - 1,
                    )) =~= out@.map_values(|s: String| s@) + take_matches(
                        suffix.drop_first(),
                        ql,
                        5 - out@.len(),
                    ));
                }
            } else {
                proof {
                    assert(Seq::<Seq<char>>::empty() + take_matches(
                        suffix.drop_first(),
                        ql,
                        5 - before.len(),
                    ) =~= take_matches(suffix.drop_first(), ql, 5 - before.len()));
                }
            }
            t += 1;
        }
        proof {
            if t == vals@.len() {
                assert(vviews.subrange(t as int, vviews.len() as int)
                    =~= Seq::<Seq<char>>::empty());
            }
            assert(take_matches(vviews.subrange(t as int, vviews.len() as int), ql, 5 - out@.len())
                == Seq::<Seq<char>>::empty() ==> take_matches(vviews, ql, 5) == out@.map_values(
                |s: String| s@,
            ) + Seq::<Seq<char>>::empty());
            assert(out@.map_values(|s: String| s@) + Seq::<Seq<char>>::empty() =~= out@.map_values(
                |s: String| s@,
            ));
        }
        Ok(out)
    }
}

// ---------------------------------------------------------------------------
// Ranking catalog names against a typed query.
// ---------------------------------------------------------------------------

/// A sequence backwards.
pub open spec fn rev_seq(s: Seq<ScoredView>) -> Seq<ScoredView> {
    Seq::new(s.len(), |i: int| s[s.len() - 1 - i])
}

/// The names within half their length of the query, in list order.
pub open spec fn keep_close(s: Seq<ScoredView>) -> Seq<Seq<char>>
    decreases s.len(),
{
    if s.len() == 0 {
        Seq::empty()
    } else {
        (if 2 * s[0].num <= s[0].den {
            seq![s[0].value]
        } else {
            Seq::<Seq<char>>::empty()
        }) + keep_close(s.drop_first())
    }
}

/// The distance of a name to the query, as the fraction of the longer
/// length it spans.
pub open spec fn distance_of(q: Seq<char>, v: Seq<char>) -> ScoredView {
    ScoredView { value: v, num: lev(q, v), den: max2(q.len() as int, v.len() as int) }
}

/// The ranking the interactive search offers: ascending by normalized
/// distance to the query, keeping only the names whose distance stays
/// within half the longer length.
pub open spec fn rank_spec(q: Seq<char>, names: Seq<Seq<char>>) -> Seq<Seq<char>> {
    keep_close(rev_seq(sort_desc(names.map_values(|v: Seq<char>| distance_of(q, v)))))
}

/// The distance never exceeds the longer of the two lengths.
pub proof fn lemma_lev_le_max(a: Seq<char>, b: Seq<char>)
    ensures
        lev(a, b) <= max2(a.len() as int, b.len() as int),
    decreases a.len() + b.len(),
{
    if a.len() > 0 && b.len() > 0 {
        lemma_lev_le_max(a.drop_first(), b.drop_first());
        lemma_lev_bounds(a.drop_first(), b);
        lemma_lev_bounds(a, b.drop_first());
        lemma_lev_bounds(a.drop_first(), b.drop_first());
    }
}

/// Rank the catalog's names against a typed query, as `rank_spec` says.
pub fn rank_names(query: &str, names: &Vec<String>) -> (r: Vec<String>)
    ensures
        r@.map_values(|s: String| s@) == rank_spec(query@, names@.map_values(|s: String| s@)),
{
    let ghost nviews = names@.map_values(|s: String| s@);
    let ghost scored_spec = nviews.map_values(|v: Seq<char>| distance_of(query@, v));
    let qc = str_to_chars(query);
    // Score every name.
    let mut scored: Vec<Scored> = Vec::new();
    let mut i: usize = 0;
    while i < names.len()
        invariant
            qc@ == query@,
            nviews == names@.map_values(|s: String| s@),
            scored_spec == nviews.map_values(|v: Seq<char>| distance_of(query@, v)),
            i <= names@.len(),
            scored@.len() == i,
            forall|k: int| 0 <= k < i ==> (#[trigger] scored@[k])@ == scored_spec[k],
        decreases names@.len() - i,
    {
        let nc = str_to_chars(names[i].as_str());
        let d = levenshtein(&qc, &nc);
        let mx: usize = if qc.len() >= nc.len() {
            qc.len()
        } else {
            nc.len()
        };
        proof {
            lemma_lev_le_max(qc@, nc@);
            lemma_lev_bounds(qc@, nc@);
        }
        scored.push(Scored { value: names[i].clone(), num: d as usize, den: mx });
        i += 1;
    }
    // Sort by descending distance, stably.
    let mut sorted: Vec<Scored> = Vec::new();
    let mut scored = scored;
    while scored.len() > 0
        invariant
            scored@.map_values(|e: Scored| e@) == scored_spec.subrange(0, scored@.len() as int),
            scored@.len() <= scored_spec.len(),
            sorted@.map_values(|e: Scored| e@) == sort_desc(
                scored_spec.subrange(scored@.len() as int, scored_spec.len() as int),
            ),
        decreases scored@.len(),
    {
        let ghost before = scored@.map_values(|e: Scored| e@);
        proof {
            assert(scored_spec.subrange(scored@.len() as int, scored_spec.len() as int)
                =~= scored_spec.subrange(scored@.len() as int, scored_spec.len() as int));
        }
        let x = match scored.pop() {
            Some(x) => x,
            None => {
                proof {
                    assert(false);
                }
                Scored { value: String::new(), num: 0, den: 1 }
            },
        };
        proof {
            assert(x@ == before.last());
            assert(before.last() == scored_spec[scored@.len() as int]);
            assert(scored@.map_values(|e: Scored| e@) =~= before.drop_last());
            assert(before.drop_last() =~= scored_spec.subrange(0, scored@.len() as int));
        }
        insert_desc(x, &mut sorted);
        proof {
            let lo = scored@.len() as int;
            let suffix = scored_spec.subrange(lo, scored_spec.len() as int);
            assert(suffix[0] == scored_spec[lo]);
            assert(suffix.drop_first() =~= scored_spec.subrange(
                lo + 1,
                scored_spec.len() as int,
            ));
        }
    }
    proof {
        assert(scored_spec.subrange(0, scored_spec.len() as int) =~= scored_spec);
    }
    let ghost sorted_spec = sort_desc(scored_spec);
    // Walk backwards for ascending distance, keeping the close names.
    let ghost target = rev_seq(sorted_spec);
    let mut out: Vec<String> = Vec::new();
    let mut t: usize = sorted.len();
    proof {
        assert(target.subrange(0, 0) =~= Seq::<ScoredView>::empty());
        assert(Seq::<Seq<char>>::empty() + keep_close(target) =~= keep_close(target));
        assert(target.subrange((sorted_spec.len() - t) as int, target.len() as int) =~= target);
    }
    while t > 0
        invariant
            sorted@.map_values(|e: Scored| e@) == sorted_spec,
            target == rev_seq(sorted_spec),
            t <= sorted@.len(),
            keep_close(target) == out@.map_values(|s: String| s@) + keep_close(
                target.subrange(sorted_spec.len() - t, target.len() as int),
            ),
        decreases t,
    {
        t -= 1;
        let ghost pos = sorted_spec.len() - t - 1;
        let ghost suffix = target.subrange(pos, target.len() as int);
        proof {
            assert(suffix[0] == target[pos]);
            assert(target[pos] == sorted_spec[sorted_spec.len() - 1 - pos]);
            assert(sorted_spec.len() - 1 - pos == t);
            assert(sorted_spec[t as int] == sorted@[t as int]@);
            assert(suffix.drop_first() =~= target.subrange(pos + 1, target.len() as int));
        }
        let e = &sorted[t];
        let two_d: u128 = 2 * (e.num as u128);
        let ghost before = out@.map_values(|s: String| s@);
        if two_d <= e.den as u128 {
            out.push(e.value.clone());
            proof {
                assert(out@.map_values(|s: String| s@) =~= before.push(e@.value));
                assert(before + (seq![e@.value] + keep_close(suffix.drop_first()))
                    =~= out@.map_values(|s: String| s@) + keep_close(suffix.drop_first()));
            }
        } else {
            proof {
                assert(Seq::<Seq<char>>::empty() + keep_close(suffix.drop_first())
                    =~= keep_close(suffix.drop_first()));
            }
        }
    }
    proof {
        assert(target.subrange(sorted_spec.len() as int, target.len() as int)
            =~= Seq::<ScoredView>::empty());
        assert(out@.map_values(|s: String| s@) + Seq::<Seq<char>>::empty() =~= out@.map_values(
            |s: String| s@,
        ));
    }
    out
}

} // verus!
