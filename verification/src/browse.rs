//! Fuzzy filtering of the folder list: every name is scored against the
//! query and the matches are handed back in descending score order, equal
//! scores keeping their original order. The score itself comes from the
//! `fuzzy_matcher` crate; everything around the call is verified.

use vstd::prelude::*;
use crate::text::str_chars;

verus! {

/// The ranking score a freshly constructed, default-configured
/// `SkimMatcherV2` assigns to a candidate for a pattern; a function of the
/// two texts alone.
pub uninterp spec fn fuzzy_score_of(choice: Seq<char>, pattern: Seq<char>) -> Option<i64>;

/// Relies on `SkimMatcherV2::default` and `FuzzyMatcher::fuzzy_match`: the
/// matcher is built fresh for this one call, so its score buffers start
/// empty and the score it computes reads nothing but the candidate and the
/// pattern. (A reused matcher would not do: its buffers carry values from
/// earlier calls into later scores.)
#[verifier::external_body]
fn fuzzy_score(choice: &str, pattern: &str) -> (r: Option<i64>)
    ensures
        r == fuzzy_score_of(choice@, pattern@),
{
    let matcher = fuzzy_matcher::skim::SkimMatcherV2::default();
    fuzzy_matcher::FuzzyMatcher::fuzzy_match(&matcher, choice, pattern)
}

/// The names that match the pattern, paired with their scores, in original
/// order.
pub open spec fn scored(names: Seq<String>, pattern: Seq<char>) -> Seq<(i64, String)>
    decreases names.len(),
{
    if names.len() == 0 {
        Seq::empty()
    } else {
        scored(names.drop_last(), pattern) + (match fuzzy_score_of(names.last()@, pattern) {
            Some(sc) => seq![(sc, names.last())],
            None => Seq::empty(),
        })
    }
}

/// Stable insertion into a descending-by-score list: the new pair goes
/// after every pair whose score is at least its own.
pub open spec fn rank_insert(x: (i64, String), s: Seq<(i64, String)>) -> Seq<(i64, String)>
    decreases s.len(),
{
    if s.len() == 0 {
        seq![x]
    } else if s[0].0 >= x.0 {
        seq![s[0]] + rank_insert(x, s.drop_first())
    } else {
        seq![x] + s
    }
}

/// Stable sort by descending score: pairs are inserted in original order,
/// so equal scores keep it.
pub open spec fn rank_sort(s: Seq<(i64, String)>) -> Seq<(i64, String)>
    decreases s.len(),
{
    if s.len() == 0 {
        Seq::empty()
    } else {
        rank_insert(s.last(), rank_sort(s.drop_last()))
    }
}

/// The filtered view of the folder list for a non-empty query.
pub open spec fn ranked(names: Seq<String>, pattern: Seq<char>) -> Seq<String> {
    rank_sort(scored(names, pattern)).map_values(|p: (i64, String)| p.1)
}

/// Inserting before the first strictly smaller score is what `rank_insert`
/// does.
proof fn lemma_rank_insert_at(x: (i64, String), s: Seq<(i64, String)>, idx: int)
    requires
        0 <= idx <= s.len(),
        forall|t: int| 0 <= t < idx ==> (#[trigger] s[t]).0 >= x.0,
        idx < s.len() ==> s[idx].0 < x.0,
    ensures
        rank_insert(x, s) == s.insert(idx, x),
    decreases idx,
{
    if idx == 0 {
        if s.len() == 0 {
            assert(rank_insert(x, s) =~= s.insert(0, x));
        } else {
            assert(s[0].0 < x.0);
            assert(seq![x] + s =~= s.insert(0, x));
        }
    } else {
        assert(s[0].0 >= x.0);
        let dl = s.drop_first();
        assert forall|t: int| 0 <= t < idx - 1 implies (#[trigger] dl[t]).0 >= x.0 by {
            assert(s[t + 1].0 >= x.0);
        }
        lemma_rank_insert_at(x, dl, idx - 1);
        assert(seq![s[0]] + dl.insert(idx - 1, x) =~= s.insert(idx, x));
    }
}

/// Scores strictly fall or stay level along the ranked list.
pub open spec fn sorted_desc(s: Seq<(i64, String)>) -> bool {
    forall|a: int, b: int|
        #![trigger s[a], s[b]]
        0 <= a < b < s.len() ==> s[a].0 >= s[b].0
}

proof fn lemma_rank_insert_sorted(x: (i64, String), s: Seq<(i64, String)>)
    requires
        sorted_desc(s),
    ensures
        sorted_desc(rank_insert(x, s)),
        rank_insert(x, s).len() == s.len() + 1,
        rank_insert(x, s)[0].0 == (if s.len() > 0 && s[0].0 >= x.0 {
            s[0].0
        } else {
            x.0
        }),
    decreases s.len(),
{
    if s.len() == 0 {
    } else if s[0].0 >= x.0 {
        let dl = s.drop_first();
        assert forall|a: int, b: int|
            #![trigger dl[a], dl[b]]
            0 <= a < b < dl.len() implies dl[a].0 >= dl[b].0 by {
            assert(s[a + 1].0 >= s[b + 1].0);
        }
        lemma_rank_insert_sorted(x, dl);
        let rest = rank_insert(x, dl);
        let r = seq![s[0]] + rest;
        assert forall|a: int, b: int|
            #![trigger r[a], r[b]]
            0 <= a < b < r.len() implies r[a].0 >= r[b].0 by {
            if a == 0 {
                assert(r[b] == rest[b - 1]);
                if b - 1 > 0 {
                    assert(rest[0].0 >= rest[b - 1].0);
                }
                if dl.len() > 0 {
                    assert(s[1].0 == dl[0].0);
                }
            } else {
                assert(r[a] == rest[a - 1]);
                assert(r[b] == rest[b - 1]);
                assert(rest[a - 1].0 >= rest[b - 1].0);
            }
        }
    } else {
        let r = seq![x] + s;
        assert forall|a: int, b: int|
            #![trigger r[a], r[b]]
            0 <= a < b < r.len() implies r[a].0 >= r[b].0 by {
            if a == 0 {
                if b - 1 > 0 {
                    assert(s[0].0 >= s[b - 1].0);
                }
            } else {
                assert(s[a - 1].0 >= s[b - 1].0);
            }
        }
    }
}

/// What the ranking sort promises of its shape: the scores never rise along
/// the list.
pub proof fn lemma_rank_sort_sorted(s: Seq<(i64, String)>)
    ensures
        sorted_desc(rank_sort(s)),
        rank_sort(s).len() == s.len(),
    decreases s.len(),
{
    if s.len() > 0 {
        lemma_rank_sort_sorted(s.drop_last());
        lemma_rank_insert_sorted(s.last(), rank_sort(s.drop_last()));
    }
}

/// Scores every name against the query and returns the matching names in
/// descending score order, equal scores in original order. An empty query
/// keeps the whole list as it stands.
#[verifier::loop_isolation(false)]
pub fn filter_folders(names: &Vec<String>, query: &str) -> (r: Vec<String>)
    ensures
        query@.len() == 0 ==> r@ == names@,
        query@.len() > 0 ==> r@ == ranked(names@, query@),
{
    if query.is_empty() {
        let mut all: Vec<String> = Vec::new();
        let mut i: usize = 0;
        proof {
            assert(names@.take(0) =~= Seq::<String>::empty());
        }
        while i < names.len()
            invariant
                i <= names@.len(),
                all@ == names@.take(i as int),
            decreases names@.len() - i,
        {
            all.push(names[i].clone());
            proof {
                assert(names@.take(i as int + 1) =~= names@.take(i as int).push(names@[i as int]));
            }
            i += 1;
        }
        proof {
            assert(names@.take(names@.len() as int) =~= names@);
        }
        return all;
    }
    let mut scored_v: Vec<(i64, String)> = Vec::new();
    let mut i: usize = 0;
    proof {
        assert(names@.take(0) =~= Seq::<String>::empty());
    }
    while i < names.len()
        invariant
            i <= names@.len(),
            scored_v@ == scored(names@.take(i as int), query@),
        decreases names@.len() - i,
    {
        let sc = fuzzy_score(names[i].as_str(), query);
        proof {
            assert(names@.take(i as int + 1).drop_last() =~= names@.take(i as int));
            assert(names@.take(i as int + 1).last() == names@[i as int]);
        }
        if let Some(s) = sc {
            scored_v.push((s, names[i].clone()));
            proof {
                assert(scored_v@ =~= scored(names@.take(i as int + 1), query@));
            }
        } else {
            proof {
                assert(scored_v@ =~= scored(names@.take(i as int + 1), query@));
            }
        }
        i += 1;
    }
    proof {
        assert(names@.take(names@.len() as int) =~= names@);
    }
    let ghost sc_all = scored(names@, query@);
    let mut sorted: Vec<(i64, String)> = Vec::new();
    proof {
        assert(sc_all.take(0) =~= Seq::<(i64, String)>::empty());
    }
    while scored_v.len() > 0
        invariant
            scored_v@.len() <= sc_all.len(),
            scored_v@ == sc_all.skip(sc_all.len() - scored_v@.len()),
            sorted@ == rank_sort(sc_all.take(sc_all.len() - scored_v@.len())),
        decreases scored_v@.len(),
    {
        let ghost done = sc_all.len() - scored_v@.len();
        let x = scored_v.remove(0);
        proof {
            assert(sc_all.skip(done)[0] == sc_all[done]);
            assert(sc_all.skip(done).remove(0) =~= sc_all.skip(done + 1));
        }
        let x_score = x.0;
        let mut k: usize = 0;
        while k < sorted.len() && sorted[k].0 >= x_score
            invariant
                k <= sorted@.len(),
                forall|t: int| 0 <= t < k ==> (#[trigger] sorted@[t]).0 >= x_score,
            decreases sorted@.len() - k,
        {
            k += 1;
        }
        proof {
            lemma_rank_insert_at(x, sorted@, k as int);
            assert(sc_all.take(done + 1).drop_last() =~= sc_all.take(done));
            assert(sc_all.take(done + 1).last() == sc_all[done]);
        }
        sorted.insert(k, x);
    }
    proof {
        assert(sc_all.take(sc_all.len() as int) =~= sc_all);
    }
    let mut out: Vec<String> = Vec::new();
    let mut j: usize = 0;
    while j < sorted.len()
        invariant
            j <= sorted@.len(),
            out@.len() == j,
            forall|t: int| 0 <= t < j ==> out@[t] == (#[trigger] sorted@[t]).1,
        decreases sorted@.len() - j,
    {
        out.push(sorted[j].1.clone());
        j += 1;
    }
    proof {
        assert(out@ =~= ranked(names@, query@));
    }
    out
}

/// What `str::to_lowercase` returns: a function of the characters alone.
pub uninterp spec fn lower_of(s: Seq<char>) -> Seq<char>;

/// Relies on `str::to_lowercase`: the lowercase form depends on the
/// characters alone.
#[verifier::external_body]
fn lowercase(s: &str) -> (r: String)
    ensures
        r@ == lower_of(s@),
{
    s.to_lowercase()
}

/// Code-point order on character sequences: `a` at or before `b`.
pub open spec fn lex_leq(a: Seq<char>, b: Seq<char>) -> bool
    decreases a.len(),
{
    if a.len() == 0 {
        true
    } else if b.len() == 0 {
        false
    } else if (a[0] as u32) == (b[0] as u32) {
        lex_leq(a.drop_first(), b.drop_first())
    } else {
        (a[0] as u32) < (b[0] as u32)
    }
}

#[verifier::loop_isolation(false)]
fn lex_leq_exec(a: &Vec<char>, b: &Vec<char>) -> (r: bool)
    ensures
        r == lex_leq(a@, b@),
{
    proof {
        assert(a@.skip(0) =~= a@);
        assert(b@.skip(0) =~= b@);
    }
    let mut i: usize = 0;
    loop
        invariant
            i <= a@.len(),
            i <= b@.len(),
            lex_leq(a@, b@) == lex_leq(a@.skip(i as int), b@.skip(i as int)),
        decreases a@.len() - i,
    {
        if i == a.len() {
            return true;
        }
        if i == b.len() {
            return false;
        }
        if (a[i] as u32) == (b[i] as u32) {
            proof {
                assert(a@.skip(i as int)[0] == a@[i as int]);
                assert(b@.skip(i as int)[0] == b@[i as int]);
                assert(a@.skip(i as int).drop_first() =~= a@.skip(i as int + 1));
                assert(b@.skip(i as int).drop_first() =~= b@.skip(i as int + 1));
            }
            i += 1;
        } else {
            proof {
                assert(a@.skip(i as int)[0] == a@[i as int]);
                assert(b@.skip(i as int)[0] == b@[i as int]);
            }
            return (a[i] as u32) < (b[i] as u32);
        }
    }
}

/// Any two character sequences are ordered one way or the other.
pub proof fn lemma_lex_total(a: Seq<char>, b: Seq<char>)
    ensures
        lex_leq(a, b) || lex_leq(b, a),
    decreases a.len(),
{
    if a.len() > 0 && b.len() > 0 && (a[0] as u32) == (b[0] as u32) {
        lemma_lex_total(a.drop_first(), b.drop_first());
    }
}

/// The lexicographic order is transitive.
pub proof fn lemma_lex_trans(a: Seq<char>, b: Seq<char>, c: Seq<char>)
    requires
        lex_leq(a, b),
        lex_leq(b, c),
    ensures
        lex_leq(a, c),
    decreases a.len(),
{
    if a.len() > 0 {
        if (a[0] as u32) == (b[0] as u32) {
            if (b[0] as u32) == (c[0] as u32) {
                lemma_lex_trans(a.drop_first(), b.drop_first(), c.drop_first());
            }
        }
    }
}

/// Stable insertion into a list sorted by lowercase form: the new name goes
/// after every name whose lowercase key is at or before its own.
pub open spec fn ci_insert(x: String, s: Seq<String>) -> Seq<String>
    decreases s.len(),
{
    if s.len() == 0 {
        seq![x]
    } else if lex_leq(lower_of(s[0]@), lower_of(x@)) {
        seq![s[0]] + ci_insert(x, s.drop_first())
    } else {
        seq![x] + s
    }
}

/// Stable sort of folder names by their lowercase form, as the browser
/// displays a directory listing.
pub open spec fn ci_sort(s: Seq<String>) -> Seq<String>
    decreases s.len(),
{
    if s.len() == 0 {
        Seq::empty()
    } else {
        ci_insert(s.last(), ci_sort(s.drop_last()))
    }
}

/// Inserting before the first strictly larger lowercase key is what
/// `ci_insert` does.
proof fn lemma_ci_insert_at(x: String, s: Seq<String>, idx: int)
    requires
        0 <= idx <= s.len(),
        forall|t: int| 0 <= t < idx ==> lex_leq(lower_of((#[trigger] s[t])@), lower_of(x@)),
        idx < s.len() ==> !lex_leq(lower_of(s[idx]@), lower_of(x@)),
    ensures
        ci_insert(x, s) == s.insert(idx, x),
    decreases idx,
{
    if idx == 0 {
        if s.len() == 0 {
            assert(ci_insert(x, s) =~= s.insert(0, x));
        } else {
            assert(seq![x] + s =~= s.insert(0, x));
        }
    } else {
        assert(lex_leq(lower_of(s[0]@), lower_of(x@)));
        let dl = s.drop_first();
        assert forall|t: int| 0 <= t < idx - 1 implies lex_leq(
            lower_of((#[trigger] dl[t])@),
            lower_of(x@),
        ) by {
            assert(lex_leq(lower_of(s[t + 1]@), lower_of(x@)));
        }
        lemma_ci_insert_at(x, dl, idx - 1);
        assert(seq![s[0]] + dl.insert(idx - 1, x) =~= s.insert(idx, x));
    }
}

/// Names ordered by their lowercase keys along the whole list.
pub open spec fn sorted_ci(s: Seq<String>) -> bool {
    forall|a: int, b: int|
        #![trigger s[a], s[b]]
        0 <= a < b < s.len() ==> lex_leq(lower_of(s[a]@), lower_of(s[b]@))
}

proof fn lemma_ci_insert_sorted(x: String, s: Seq<String>)
    requires
        sorted_ci(s),
    ensures
        sorted_ci(ci_insert(x, s)),
        ci_insert(x, s).len() == s.len() + 1,
        ci_insert(x, s)[0] == x || (s.len() > 0 && ci_insert(x, s)[0] == s[0]),
    decreases s.len(),
{
    if s.len() == 0 {
    } else if lex_leq(lower_of(s[0]@), lower_of(x@)) {
        let dl = s.drop_first();
        assert forall|a: int, b: int|
            #![trigger dl[a], dl[b]]
            0 <= a < b < dl.len() implies lex_leq(lower_of(dl[a]@), lower_of(dl[b]@)) by {
            assert(lex_leq(lower_of(s[a + 1]@), lower_of(s[b + 1]@)));
        }
        lemma_ci_insert_sorted(x, dl);
        let rest = ci_insert(x, dl);
        let r = seq![s[0]] + rest;
        assert(lex_leq(lower_of(s[0]@), lower_of(rest[0]@))) by {
            if rest[0] == x {
            } else {
                assert(lex_leq(lower_of(s[0]@), lower_of(s[1]@)));
            }
        }
        assert forall|a: int, b: int|
            #![trigger r[a], r[b]]
            0 <= a < b < r.len() implies lex_leq(lower_of(r[a]@), lower_of(r[b]@)) by {
            if a == 0 {
                assert(r[b] == rest[b - 1]);
                if b - 1 > 0 {
                    assert(lex_leq(lower_of(rest[0]@), lower_of(rest[b - 1]@)));
                    lemma_lex_trans(lower_of(s[0]@), lower_of(rest[0]@), lower_of(rest[b - 1]@));
                }
            } else {
                assert(r[a] == rest[a - 1]);
                assert(r[b] == rest[b - 1]);
                assert(lex_leq(lower_of(rest[a - 1]@), lower_of(rest[b - 1]@)));
            }
        }
    } else {
        let r = seq![x] + s;
        lemma_lex_total(lower_of(s[0]@), lower_of(x@));
        assert(lex_leq(lower_of(x@), lower_of(s[0]@)));
        assert forall|a: int, b: int|
            #![trigger r[a], r[b]]
            0 <= a < b < r.len() implies lex_leq(lower_of(r[a]@), lower_of(r[b]@)) by {
            if a == 0 {
                if b - 1 > 0 {
                    assert(lex_leq(lower_of(s[0]@), lower_of(s[b - 1]@)));
                    lemma_lex_trans(lower_of(x@), lower_of(s[0]@), lower_of(s[b - 1]@));
                }
            } else {
                assert(lex_leq(lower_of(s[a - 1]@), lower_of(s[b - 1]@)));
            }
        }
    }
}

/// What the folder sort promises of its shape: the lowercase keys never
/// fall back along the list.
pub proof fn lemma_ci_sort_sorted(s: Seq<String>)
    ensures
        sorted_ci(ci_sort(s)),
        ci_sort(s).len() == s.len(),
    decreases s.len(),
{
    if s.len() > 0 {
        lemma_ci_sort_sorted(s.drop_last());
        lemma_ci_insert_sorted(s.last(), ci_sort(s.drop_last()));
    }
}

/// Where `x` is inserted: past every name whose lowercase key is at or
/// before the lowercase key of `x`.
#[verifier::loop_isolation(false)]
fn ci_position(sorted: &Vec<String>, x: &String) -> (k: usize)
    ensures
        k <= sorted@.len(),
        forall|t: int| 0 <= t < k ==> lex_leq(lower_of((#[trigger] sorted@[t])@), lower_of(x@)),
        k < sorted@.len() ==> !lex_leq(lower_of(sorted@[k as int]@), lower_of(x@)),
{
    let low_x = lowercase(x.as_str());
    let lx = str_chars(low_x.as_str());
    let mut k: usize = 0;
    while k < sorted.len()
        invariant
            k <= sorted@.len(),
            forall|t: int| 0 <= t < k ==> lex_leq(lower_of((#[trigger] sorted@[t])@), lower_of(x@)),
        decreases sorted@.len() - k,
    {
        let low_k = lowercase(sorted[k].as_str());
        let lk = str_chars(low_k.as_str());
        if !lex_leq_exec(&lk, &lx) {
            return k;
        }
        k += 1;
    }
    k
}

/// Sorts folder names by their lowercase form; names with equal lowercase
/// forms keep their original order.
#[verifier::loop_isolation(false)]
pub fn sort_folders(names: &Vec<String>) -> (r: Vec<String>)
    ensures
        r@ == ci_sort(names@),
{
    let mut sorted: Vec<String> = Vec::new();
    let mut i: usize = 0;
    proof {
        assert(names@.take(0) =~= Seq::<String>::empty());
    }
    while i < names.len()
        invariant
            i <= names@.len(),
            sorted@ == ci_sort(names@.take(i as int)),
        decreases names@.len() - i,
    {
        let x = names[i].clone();
        let k = ci_position(&sorted, &x);
        proof {
            lemma_ci_insert_at(x, sorted@, k as int);
            assert(names@.take(i as int + 1).drop_last() =~= names@.take(i as int));
            assert(names@.take(i as int + 1).last() == names@[i as int]);
        }
        sorted.insert(k, x);
        i += 1;
    }
    proof {
        assert(names@.take(names@.len() as int) =~= names@);
    }
    sorted
}

} // verus!
