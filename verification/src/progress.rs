//! The progress parser: turns one line of the mirror process's textual output
//! into a structured progress snapshot, tracking the file name currently in
//! transfer across lines.
//!
//! A trimmed line containing both a `%` token and a token with `/s` is a
//! progress line: the last token ending in `%` gives the percentage (clamped
//! to 100, falling back to the previous value on a malformed number), the
//! last token containing `/s` gives the speed text. Any other non-empty line
//! that does not look like one of the mirror tool's status phrases names the
//! file currently transferring; its final path segment becomes the new
//! cursor value.

use vstd::prelude::*;
use crate::text::{is_space, trimmed, contains_char, contains_at, contains_seq, starts_with,
    str_chars, is_space_c, subvec, vec_contains_char, vec_starts_with, vec_contains_seq, trim_vec,
    chars_to_string};

verus! {

/// Length of the leading run of non-whitespace characters.
pub open spec fn run_len(s: Seq<char>) -> nat
    decreases s.len(),
{
    if s.len() > 0 && !is_space(s[0]) {
        (1 + run_len(s.drop_first())) as nat
    } else {
        0
    }
}

pub proof fn lemma_run_len_props(s: Seq<char>)
    ensures
        run_len(s) <= s.len(),
        forall|t: int| 0 <= t < run_len(s) ==> !is_space(s[t]),
        run_len(s) < s.len() ==> is_space(s[run_len(s) as int]),
    decreases s.len(),
{
    if s.len() > 0 && !is_space(s[0]) {
        lemma_run_len_props(s.drop_first());
        assert forall|t: int| 0 <= t < run_len(s) implies !is_space(s[t]) by {
            if t > 0 {
                assert(!is_space(s.drop_first()[t - 1]));
            }
        }
        if run_len(s) < s.len() {
            assert(is_space(s.drop_first()[run_len(s) as int - 1]));
        }
    }
}

/// The whitespace-separated tokens of `s`, in order.
pub open spec fn tokens(s: Seq<char>) -> Seq<Seq<char>>
    decreases s.len(),
    via tokens_decreases
{
    if s.len() == 0 {
        Seq::empty()
    } else if is_space(s[0]) {
        tokens(s.drop_first())
    } else {
        seq![s.take(run_len(s) as int)] + tokens(s.skip(run_len(s) as int))
    }
}

#[via_fn]
proof fn tokens_decreases(s: Seq<char>) {
    if s.len() > 0 && !is_space(s[0]) {
        lemma_run_len_props(s);
    }
}

/// `run_len` on a suffix, characterized by the run's end position.
pub proof fn lemma_run_range(s: Seq<char>, p: int, q: int)
    requires
        0 <= p <= q <= s.len(),
        forall|t: int| p <= t < q ==> !is_space(s[t]),
        q == s.len() || is_space(s[q]),
    ensures
        run_len(s.skip(p)) == q - p,
    decreases q - p,
{
    if p == q {
        if p < s.len() {
            assert(s.skip(p)[0] == s[p]);
        }
    } else {
        assert(s.skip(p)[0] == s[p]);
        assert(s.skip(p).drop_first() =~= s.skip(p + 1));
        lemma_run_range(s, p + 1, q);
    }
}

pub open spec fn is_digit(c: char) -> bool {
    48 <= (c as u32) && (c as u32) <= 57
}

pub open spec fn digit_val(c: char) -> int {
    (c as u32) - 48
}

pub open spec fn all_digits(s: Seq<char>) -> bool {
    forall|i: int| 0 <= i < s.len() ==> #[trigger] is_digit(s[i])
}

/// The number written by a sequence of decimal digits, most significant first.
pub open spec fn digits_val(s: Seq<char>) -> int
    decreases s.len(),
{
    if s.len() == 0 {
        0
    } else {
        digits_val(s.drop_last()) * 10 + digit_val(s.last())
    }
}

/// `s` with every trailing `%` removed.
pub open spec fn strip_percents(s: Seq<char>) -> Seq<char>
    decreases s.len(),
{
    if s.len() > 0 && s.last() == '%' {
        strip_percents(s.drop_last())
    } else {
        s
    }
}

/// How an unsigned 16-bit number is read from text: an optional leading `+`,
/// then one or more decimal digits whose value fits in 16 bits.
pub open spec fn parse_u16(s: Seq<char>) -> Option<u16> {
    let body = if s.len() > 0 && s[0] == '+' {
        s.drop_first()
    } else {
        s
    };
    if body.len() > 0 && all_digits(body) && digits_val(body) <= 65535 {
        Some(digits_val(body) as u16)
    } else {
        None
    }
}

/// The percentage a single token contributes: a token ending in `%` whose
/// digits parse gives its value clamped to 100; every other token none.
pub open spec fn token_pct(t: Seq<char>) -> Option<u16> {
    if t.len() > 0 && t.last() == '%' {
        match parse_u16(strip_percents(t)) {
            Some(v) => Some(
                if v > 100 {
                    100u16
                } else {
                    v
                },
            ),
            None => None,
        }
    } else {
        None
    }
}

/// Folds `token_pct` over the tokens from the left: the last token that
/// parses wins; `acc` is the value so far.
pub open spec fn pct_fold(ts: Seq<Seq<char>>, acc: u16) -> u16
    decreases ts.len(),
{
    if ts.len() == 0 {
        acc
    } else {
        pct_fold(
            ts.drop_first(),
            match token_pct(ts[0]) {
                Some(v) => v,
                None => acc,
            },
        )
    }
}

pub open spec fn slash_s() -> Seq<char> {
    seq!['/', 's']
}

/// The last token containing `/s` wins; `acc` is the value so far.
pub open spec fn speed_fold(ts: Seq<Seq<char>>, acc: Seq<char>) -> Seq<char>
    decreases ts.len(),
{
    if ts.len() == 0 {
        acc
    } else {
        speed_fold(
            ts.drop_first(),
            if contains_seq(ts[0], slash_s()) {
                ts[0]
            } else {
                acc
            },
        )
    }
}

/// The percentage a whole trimmed progress line reports.
pub open spec fn line_pct(t: Seq<char>) -> u16 {
    pct_fold(tokens(t), 0)
}

/// The speed text a whole trimmed progress line reports.
pub open spec fn line_speed(t: Seq<char>) -> Seq<char> {
    speed_fold(tokens(t), Seq::empty())
}

/// A trimmed line is a progress line when it contains `%` and `/s`.
pub open spec fn is_progress_line(t: Seq<char>) -> bool {
    contains_char(t, '%') && contains_seq(t, slash_s())
}

#[verifier::loop_isolation(false)]
fn token_pct_exec(t: &Vec<char>) -> (r: Option<u16>)
    ensures
        r == token_pct(t@),
{
    let n = t.len();
    if n == 0 || t[n - 1] != '%' {
        return None;
    }
    proof {
        assert(t@.take(n as int) =~= t@);
    }
    let mut e: usize = n;
    while e > 0 && t[e - 1] == '%'
        invariant
            e <= n,
            n == t@.len(),
            strip_percents(t@) == strip_percents(t@.take(e as int)),
        decreases e,
    {
        proof {
            assert(t@.take(e as int).drop_last() =~= t@.take(e as int - 1));
        }
        e -= 1;
    }
    proof {
        assert(strip_percents(t@.take(e as int)) == t@.take(e as int));
    }
    let b: usize = if e > 0 && t[0] == '+' {
        1
    } else {
        0
    };
    let ghost stripped = t@.take(e as int);
    let ghost body = (if stripped.len() > 0 && stripped[0] == '+' {
        stripped.drop_first()
    } else {
        stripped
    });
    proof {
        assert(body =~= t@.subrange(b as int, e as int));
    }
    if e == b {
        return None;
    }
    let mut val: u32 = 0;
    let mut i: usize = b;
    proof {
        assert(t@.subrange(b as int, b as int) =~= Seq::<char>::empty());
    }
    while i < e
        invariant
            b <= i <= e,
            e <= t@.len(),
            body == t@.subrange(b as int, e as int),
            forall|j: int| b <= j < i ==> #[trigger] is_digit(t@[j]),
            val <= 655359,
            0 <= digits_val(t@.subrange(b as int, i as int)),
            digits_val(t@.subrange(b as int, i as int)) <= 65535 ==> val == digits_val(
                t@.subrange(b as int, i as int),
            ),
            digits_val(t@.subrange(b as int, i as int)) > 65535 ==> val > 65535,
        decreases e - i,
    {
        let c = t[i];
        let u = c as u32;
        if u < 48 || u > 57 {
            proof {
                let sub = t@.subrange(b as int, e as int);
                assert(sub[i as int - b as int] == t@[i as int]);
                assert(!is_digit(sub[i as int - b as int]));
                assert(!all_digits(sub));
                assert(body == sub);
            }
            return None;
        }
        proof {
            assert(t@.subrange(b as int, i as int + 1).drop_last() =~= t@.subrange(
                b as int,
                i as int,
            ));
            assert(t@.subrange(b as int, i as int + 1).last() == t@[i as int]);
        }
        if val <= 65535 {
            val = val * 10 + (u - 48);
        }
        i += 1;
    }
    proof {
        assert forall|k: int| 0 <= k < body.len() implies #[trigger] is_digit(body[k]) by {
            assert(body[k] == t@[b + k]);
        }
    }
    if val > 65535 {
        return None;
    }
    let v16: u16 = val as u16;
    if v16 > 100 {
        Some(100)
    } else {
        Some(v16)
    }
}

/// One pass over a trimmed line's characters, computing the percentage and
/// speed of the whole token sequence.
fn scan_tokens(v: &Vec<char>) -> (r: (u16, Vec<char>))
    ensures
        r.0 == line_pct(v@),
        r.1@ == line_speed(v@),
{
    let mut slash: Vec<char> = Vec::new();
    slash.push('/');
    slash.push('s');
    proof {
        assert(slash@ =~= slash_s());
    }
    let mut pct: u16 = 0;
    let mut speed: Vec<char> = Vec::new();
    let mut p: usize = 0;
    proof {
        assert(v@.skip(0) =~= v@);
        assert(speed@ =~= Seq::<char>::empty());
    }
    while p < v.len()
        invariant
            p <= v@.len(),
            slash@ == slash_s(),
            pct_fold(tokens(v@), 0) == pct_fold(tokens(v@.skip(p as int)), pct),
            speed_fold(tokens(v@), Seq::empty()) == speed_fold(tokens(v@.skip(p as int)), speed@),
        decreases v@.len() - p,
    {
        if is_space_c(v[p]) {
            proof {
                assert(v@.skip(p as int)[0] == v@[p as int]);
                assert(v@.skip(p as int).drop_first() =~= v@.skip(p as int + 1));
            }
            p += 1;
        } else {
            let start = p;
            let mut q = p;
            while q < v.len() && !is_space_c(v[q])
                invariant
                    p <= q <= v@.len(),
                    forall|t: int| p <= t < q ==> !is_space(v@[t]),
                decreases v@.len() - q,
            {
                q += 1;
            }
            proof {
                lemma_run_range(v@, p as int, q as int);
                assert(v@.skip(p as int)[0] == v@[p as int]);
                assert(v@.skip(p as int).take(run_len(v@.skip(p as int)) as int) =~= v@.subrange(
                    p as int,
                    q as int,
                ));
                assert(v@.skip(p as int).skip((q - p) as int) =~= v@.skip(q as int));
            }
            let tok = subvec(v, start, q);
            let ghost toks = tokens(v@.skip(p as int));
            proof {
                assert(toks == seq![tok@] + tokens(v@.skip(q as int)));
                assert(toks.drop_first() =~= tokens(v@.skip(q as int)));
                assert(toks[0] == tok@);
            }
            let tp = token_pct_exec(&tok);
            if let Some(x) = tp {
                pct = x;
            }
            if vec_contains_seq(&tok, &slash) {
                speed = tok;
            }
            p = q;
        }
    }
    proof {
        assert(v@.skip(v@.len() as int) =~= Seq::<char>::empty());
    }
    (pct, speed)
}

/// Folding a non-empty accumulator through the speed scan keeps it non-empty.
proof fn lemma_speed_fold_keeps(ts: Seq<Seq<char>>, acc: Seq<char>)
    requires
        acc.len() > 0,
    ensures
        speed_fold(ts, acc).len() > 0,
    decreases ts.len(),
{
    if ts.len() > 0 {
        if contains_seq(ts[0], slash_s()) {
            let i = choose|i: int| contains_at(ts[0], slash_s(), i);
            lemma_speed_fold_keeps(ts.drop_first(), ts[0]);
        } else {
            lemma_speed_fold_keeps(ts.drop_first(), acc);
        }
    }
}

/// A line that contains `/s` always yields a non-empty speed token: the two
/// characters are not whitespace, so they lie inside some token.
pub proof fn lemma_progress_has_speed(s: Seq<char>, acc: Seq<char>)
    requires
        contains_seq(s, slash_s()),
    ensures
        speed_fold(tokens(s), acc).len() > 0,
    decreases s.len(),
{
    let i = choose|i: int| contains_at(s, slash_s(), i);
    assert(s.subrange(i, i + 2)[0] == s[i]);
    assert(s.subrange(i, i + 2)[1] == s[i + 1]);
    assert(s[i] == '/' && s[i + 1] == 's');
    if is_space(s[0]) {
        assert(s.drop_first().subrange(i - 1, i + 1) =~= s.subrange(i, i + 2));
        assert(contains_at(s.drop_first(), slash_s(), i - 1));
        lemma_progress_has_speed(s.drop_first(), acc);
    } else {
        let k = run_len(s) as int;
        lemma_run_len_props(s);
        assert((seq![s.take(k)] + tokens(s.skip(k))).drop_first() =~= tokens(s.skip(k)));
        assert((seq![s.take(k)] + tokens(s.skip(k)))[0] == s.take(k));
        if i + 2 <= k {
            assert(s.take(k).subrange(i, i + 2) =~= s.subrange(i, i + 2));
            assert(contains_at(s.take(k), slash_s(), i));
            lemma_speed_fold_keeps(tokens(s.skip(k)), s.take(k));
        } else {
            assert(i >= k) by {
                if i < k {
                    assert(!is_space(s[i + 1]));
                }
            }
            assert(s.skip(k).subrange(i - k, i + 2 - k) =~= s.subrange(i, i + 2));
            assert(contains_at(s.skip(k), slash_s(), i - k));
            if contains_seq(s.take(k), slash_s()) {
                lemma_speed_fold_keeps(tokens(s.skip(k)), s.take(k));
            } else {
                lemma_progress_has_speed(s.skip(k), acc);
            }
        }
    }
}

/// The percentage scan never leaves the range a clamped value can take.
pub proof fn lemma_pct_fold_le(ts: Seq<Seq<char>>, acc: u16)
    requires
        acc <= 100,
    ensures
        pct_fold(ts, acc) <= 100,
    decreases ts.len(),
{
    if ts.len() > 0 {
        match token_pct(ts[0]) {
            Some(v) => {
                lemma_pct_fold_le(ts.drop_first(), v);
            },
            None => {
                lemma_pct_fold_le(ts.drop_first(), acc);
            },
        }
    }
}

pub proof fn lemma_digits_val_nonneg(d: Seq<char>)
    requires
        all_digits(d),
    ensures
        digits_val(d) >= 0,
    decreases d.len(),
{
    if d.len() > 0 {
        assert(is_digit(d.last()));
        assert forall|i: int| 0 <= i < d.drop_last().len() implies #[trigger] is_digit(
            d.drop_last()[i],
        ) by {
            assert(is_digit(d[i]));
        }
        lemma_digits_val_nonneg(d.drop_last());
    }
}

/// A token of plain digits followed by `%`, with value at most 100, parses
/// to exactly that value.
pub proof fn lemma_pct_token_exact(d: Seq<char>)
    requires
        d.len() > 0,
        all_digits(d),
        digits_val(d) <= 100,
    ensures
        token_pct(d.push('%')) == Some(digits_val(d) as u16),
{
    let t = d.push('%');
    assert(t.last() == '%');
    assert(t.drop_last() =~= d);
    assert(is_digit(d[d.len() - 1]));
    assert(d.last() != '%');
    assert(strip_percents(d) == d);
    assert(strip_percents(t) == strip_percents(t.drop_last()));
    assert(strip_percents(t) == d);
    assert(is_digit(d[0]));
    assert(d[0] != '+');
    lemma_digits_val_nonneg(d);
}

/// A token of plain digits followed by `%` whose value exceeds 100 is
/// clamped to 100.
pub proof fn lemma_pct_token_clamped(d: Seq<char>)
    requires
        d.len() > 0,
        all_digits(d),
        100 < digits_val(d) <= 65535,
    ensures
        token_pct(d.push('%')) == Some(100u16),
{
    let t = d.push('%');
    assert(t.last() == '%');
    assert(t.drop_last() =~= d);
    assert(is_digit(d[d.len() - 1]));
    assert(d.last() != '%');
    assert(strip_percents(d) == d);
    assert(strip_percents(t) == strip_percents(t.drop_last()));
    assert(strip_percents(t) == d);
    assert(is_digit(d[0]));
    assert(d[0] != '+');
    lemma_digits_val_nonneg(d);
}

/// Folding over tokens none of which carries a percentage leaves the
/// accumulator alone.
pub proof fn lemma_pct_fold_none(ts: Seq<Seq<char>>, acc: u16)
    requires
        forall|j: int| 0 <= j < ts.len() ==> #[trigger] token_pct(ts[j]) is None,
    ensures
        pct_fold(ts, acc) == acc,
    decreases ts.len(),
{
    if ts.len() > 0 {
        assert forall|j: int| 0 <= j < ts.drop_first().len() implies #[trigger] token_pct(
            ts.drop_first()[j],
        ) is None by {
            assert(token_pct(ts[j + 1]) is None);
        }
        lemma_pct_fold_none(ts.drop_first(), acc);
    }
}

/// If the only token of the line that ends in `%` is `d + "%"` with digits
/// of value at most 100, the line reports exactly that value.
pub proof fn lemma_line_pct_exact(ts: Seq<Seq<char>>, i: int, d: Seq<char>)
    requires
        0 <= i < ts.len(),
        ts[i] == d.push('%'),
        d.len() > 0,
        all_digits(d),
        digits_val(d) <= 100,
        forall|j: int| 0 <= j < ts.len() && j != i ==> #[trigger] token_pct(ts[j]) is None,
    ensures
        pct_fold(ts, 0) == digits_val(d),
    decreases i,
{
    lemma_pct_token_exact(d);
    lemma_digits_val_nonneg(d);
    if i == 0 {
        assert forall|j: int| 0 <= j < ts.drop_first().len() implies #[trigger] token_pct(
            ts.drop_first()[j],
        ) is None by {
            assert(token_pct(ts[j + 1]) is None);
        }
        lemma_pct_fold_none(ts.drop_first(), digits_val(d) as u16);
    } else {
        assert(token_pct(ts[0]) is None);
        assert forall|j: int|
            0 <= j < ts.drop_first().len() && j != i - 1 implies #[trigger] token_pct(
            ts.drop_first()[j],
        ) is None by {
            assert(token_pct(ts[j + 1]) is None);
        }
        lemma_line_pct_exact(ts.drop_first(), i - 1, d);
    }
}

/// A line none of whose `%` tokens parses reports 0.
pub proof fn lemma_line_pct_malformed(ts: Seq<Seq<char>>)
    requires
        forall|j: int| 0 <= j < ts.len() ==> #[trigger] token_pct(ts[j]) is None,
    ensures
        pct_fold(ts, 0) == 0,
{
    lemma_pct_fold_none(ts, 0);
}

/// The mirror tool's status phrases: lines that are reports, not file names.
pub open spec fn is_status_phrase(t: Seq<char>) -> bool {
    ||| starts_with(t, "receiving"@)
    ||| starts_with(t, "sending"@)
    ||| starts_with(t, "sent"@)
    ||| starts_with(t, "total"@)
    ||| starts_with(t, "building"@)
    ||| contains_seq(t, "speedup"@)
    ||| contains_seq(t, "bytes/sec"@)
    ||| contains_seq(t, "to-check"@)
    ||| contains_seq(t, "to-chk"@)
}

/// A trimmed line that names the file currently transferring: non-empty, not
/// indented, not a status phrase, and of plausible length.
pub open spec fn is_filename_line(t: Seq<char>) -> bool {
    t.len() > 0 && !is_space(t[0]) && !is_status_phrase(t) && t.len() < 200
}

fn is_status_phrase_exec(t: &Vec<char>) -> (r: bool)
    ensures
        r == is_status_phrase(t@),
{
    let receiving = str_chars("receiving");
    let sending = str_chars("sending");
    let sent = str_chars("sent");
    let total = str_chars("total");
    let building = str_chars("building");
    let speedup = str_chars("speedup");
    let bytes_sec = str_chars("bytes/sec");
    let to_check = str_chars("to-check");
    let to_chk = str_chars("to-chk");
    vec_starts_with(t, &receiving) || vec_starts_with(t, &sending) || vec_starts_with(t, &sent)
        || vec_starts_with(t, &total) || vec_starts_with(t, &building) || vec_contains_seq(
        t,
        &speedup,
    ) || vec_contains_seq(t, &bytes_sec) || vec_contains_seq(t, &to_check) || vec_contains_seq(
        t,
        &to_chk,
    )
}

/// Length of the trailing run of characters other than `/`.
pub open spec fn tail_run(s: Seq<char>) -> nat
    decreases s.len(),
{
    if s.len() > 0 && s.last() != '/' {
        (1 + tail_run(s.drop_last())) as nat
    } else {
        0
    }
}

pub proof fn lemma_tail_run_props(s: Seq<char>)
    ensures
        tail_run(s) <= s.len(),
        forall|t: int| s.len() - tail_run(s) <= t < s.len() ==> s[t] != '/',
        tail_run(s) < s.len() ==> s[s.len() - tail_run(s) - 1] == '/',
    decreases s.len(),
{
    if s.len() > 0 && s.last() != '/' {
        lemma_tail_run_props(s.drop_last());
        assert forall|t: int| s.len() - tail_run(s) <= t < s.len() implies s[t] != '/' by {
            if t < s.len() - 1 {
                assert(s.drop_last()[t] != '/');
            }
        }
        if tail_run(s) < s.len() {
            assert(s.drop_last()[s.len() - 1 - tail_run(s.drop_last()) - 1] == '/');
        }
    }
}

/// `tail_run` of a prefix, characterized by the final segment's bounds.
pub proof fn lemma_tail_run_range(s: Seq<char>, i: int, j: int)
    requires
        0 <= i <= j <= s.len(),
        forall|t: int| i <= t < j ==> s[t] != '/',
        i == 0 || s[i - 1] == '/',
    ensures
        tail_run(s.take(j)) == j - i,
    decreases j - i,
{
    if i == j {
        if j > 0 {
            assert(s.take(j).last() == s[j - 1]);
        }
    } else {
        assert(s.take(j).last() == s[j - 1]);
        assert(s.take(j).drop_last() =~= s.take(j - 1));
        lemma_tail_run_range(s, i, j - 1);
    }
}

/// The final path segment of a file-name line, following the usual path
/// rules: trailing separators are ignored, `.` segments are skipped, and a
/// path ending in `..` (or consisting only of separators and `.`) has no
/// final segment.
pub open spec fn basename(s: Seq<char>) -> Option<Seq<char>>
    decreases s.len(),
    via basename_decreases
{
    if s.len() == 0 {
        None
    } else if s.last() == '/' {
        basename(s.drop_last())
    } else {
        let k = s.len() - tail_run(s);
        let seg = s.skip(k as int);
        if seg == seq!['.'] {
            basename(s.take(k as int))
        } else if seg == seq!['.', '.'] {
            None
        } else {
            Some(seg)
        }
    }
}

#[via_fn]
proof fn basename_decreases(s: Seq<char>) {
    if s.len() > 0 && s.last() != '/' {
        lemma_tail_run_props(s);
    }
}

#[verifier::loop_isolation(false)]
pub fn basename_exec(v: &Vec<char>) -> (r: Option<Vec<char>>)
    ensures
        (match r {
            Some(b) => basename(v@) == Some(b@),
            None => basename(v@) is None,
        }),
{
    proof {
        assert(v@.take(v@.len() as int) =~= v@);
    }
    let mut j: usize = v.len();
    loop
        invariant
            j <= v@.len(),
            basename(v@) == basename(v@.take(j as int)),
        decreases j,
    {
        let ghost j0 = j;
        while j > 0 && v[j - 1] == '/'
            invariant
                j <= j0,
                j <= v@.len(),
                basename(v@) == basename(v@.take(j as int)),
            decreases j,
        {
            proof {
                assert(v@.take(j as int).last() == v@[j as int - 1]);
                assert(v@.take(j as int).drop_last() =~= v@.take(j as int - 1));
            }
            j -= 1;
        }
        if j == 0 {
            return None;
        }
        let mut i: usize = j;
        while i > 0 && v[i - 1] != '/'
            invariant
                i <= j,
                forall|t: int| i <= t < j ==> v@[t] != '/',
            decreases i,
        {
            i -= 1;
        }
        let ghost u = v@.take(j as int);
        proof {
            lemma_tail_run_range(v@, i as int, j as int);
            assert(u.last() == v@[j as int - 1]);
            assert(u.skip(i as int) =~= v@.subrange(i as int, j as int));
            assert(u.take(i as int) =~= v@.take(i as int));
        }
        let ghost seg = v@.subrange(i as int, j as int);
        proof {
            assert(seg.len() == j - i);
            assert forall|t: int| 0 <= t < seg.len() implies seg[t] == v@[i as int + t] by {}
        }
        if j - i == 1 && v[i] == '.' {
            proof {
                assert(seg =~= seq!['.']);
            }
            j = i;
        } else if j - i == 2 && v[i] == '.' && v[i + 1] == '.' {
            proof {
                assert(seg =~= seq!['.', '.']);
            }
            return None;
        } else {
            proof {
                assert(seg != seq!['.']) by {
                    if seg == seq!['.'] {
                        assert(seg.len() == 1);
                        assert(seg[0] == '.');
                    }
                }
                assert(seg != seq!['.', '.']) by {
                    if seg == seq!['.', '.'] {
                        assert(seg.len() == 2);
                        assert(seg[0] == '.');
                        assert(seg[1] == '.');
                    }
                }
            }
            let out = subvec(v, i, j);
            return Some(out);
        }
    }
}

/// What the current-file cursor holds before any file name has been seen.
pub open spec fn sentinel() -> Seq<char> {
    "Syncing..."@
}

/// The progress snapshot the display layer polls: the file currently
/// transferring, the percentage done, and the transfer speed text.
#[derive(Clone, Debug)]
pub struct DownloadProgress {
    pub file_name: String,
    pub percentage: u16,
    pub speed: String,
}

/// How a trimmed line is classified, in order: the progress check wins over
/// the file-name shape.
pub enum LineClass {
    Progress,
    FileName,
    Other,
}

pub open spec fn classify(t: Seq<char>) -> LineClass {
    if is_progress_line(t) {
        LineClass::Progress
    } else if is_filename_line(t) {
        LineClass::FileName
    } else {
        LineClass::Other
    }
}

/// Rule order: a line that has both the progress shape and the file-name
/// shape is classified as a progress line.
pub proof fn lemma_progress_wins(t: Seq<char>)
    requires
        is_progress_line(t),
        is_filename_line(t),
    ensures
        classify(t) is Progress,
{
}

/// Parses one line of the mirror process's output against the cursor holding
/// the file name seen most recently on this stream.
///
/// A progress line yields a snapshot built from the line's last percentage
/// and speed tokens and the cursor (or the sentinel if the cursor is still
/// empty), and leaves the cursor alone. A file-name line stores the line's
/// final path segment in the cursor and yields nothing. Every other line
/// changes nothing.
pub fn parse_rsync_line(line: &str, current_file: &mut String) -> (r: Option<DownloadProgress>)
    ensures
        (classify(trimmed(line@)) is Progress ==> (r matches Some(p)
            && p.percentage == line_pct(trimmed(line@)) && p.percentage <= 100 && p.speed@
            == line_speed(trimmed(line@)) && p.file_name@ == (if old(current_file)@.len() > 0 {
            old(current_file)@
        } else {
            sentinel()
        }) && final(current_file)@ == old(current_file)@)),
        (classify(trimmed(line@)) is FileName ==> (r is None && final(current_file)@ == (
        match basename(trimmed(line@)) {
            Some(b) => b,
            None => old(current_file)@,
        }))),
        (classify(trimmed(line@)) is Other ==> (r is None && final(current_file)@ == old(
            current_file,
        )@)),
{
    let chars = str_chars(line);
    let t = trim_vec(&chars);
    let mut slash: Vec<char> = Vec::new();
    slash.push('/');
    slash.push('s');
    proof {
        assert(slash@ =~= slash_s());
    }
    if vec_contains_char(&t, '%') && vec_contains_seq(&t, &slash) {
        let (pct, speed_chars) = scan_tokens(&t);
        proof {
            lemma_progress_has_speed(t@, Seq::<char>::empty());
            lemma_pct_fold_le(tokens(t@), 0);
        }
        if speed_chars.len() > 0 {
            let file_name = if !current_file.as_str().is_empty() {
                current_file.clone()
            } else {
                "Syncing...".to_owned()
            };
            let speed = chars_to_string(&speed_chars);
            Some(DownloadProgress { file_name, percentage: pct, speed })
        } else {
            None
        }
    } else {
        if t.len() > 0 && !is_space_c(t[0]) && t.len() < 200 && !is_status_phrase_exec(&t) {
            match basename_exec(&t) {
                Some(b) => {
                    *current_file = chars_to_string(&b);
                },
                None => {},
            }
            None
        } else {
            None
        }
    }
}

} // verus!
