use vstd::prelude::*;

verus! {

/// Token ids are `u32`, so a vocabulary holds at most this many tokens.
pub open spec fn vocab_limit() -> int {
    u32::MAX as int + 1
}

/// One hypothesis of the beam: a token sequence, its cumulative
/// log-probability in millionths of a nat, and whether it has ended.
pub struct Hypothesis {
    pub tokens: Vec<u32>,
    pub score: i64,
    pub finished: bool,
}

/// A candidate for the next beam. `origin` is the index of the hypothesis it
/// comes from; `token` is the appended token id, or `-1` when the hypothesis
/// is carried over unchanged (it had ended, or no token had a finite score).
#[derive(Clone, Copy, PartialEq, Eq, Structural, Debug)]
pub struct Entry {
    pub origin: usize,
    pub token: i64,
    pub score: i64,
}

/// Ranking of candidates: higher score first, then lower token id, then the
/// earlier originating hypothesis.
pub open spec fn ranks_before(a: Entry, b: Entry) -> bool {
    a.score > b.score || (a.score == b.score && (a.token < b.token || (a.token == b.token
        && a.origin < b.origin)))
}

pub open spec fn same_key(a: Entry, b: Entry) -> bool {
    a.origin == b.origin && a.token == b.token
}

/// `a + b`, held within the range of `i64`.
pub open spec fn clamp_add(a: int, b: int) -> int {
    if a + b < i64::MIN {
        i64::MIN as int
    } else if a + b > i64::MAX {
        i64::MAX as int
    } else {
        a + b
    }
}

pub open spec fn has_finite(lp: Seq<Option<i64>>) -> bool {
    exists|t: int| 0 <= t < lp.len() && #[trigger] lp[t] is Some
}

/// Whether hypothesis `o` passes into the pool unchanged.
pub open spec fn is_carried(beam: Seq<Hypothesis>, lps: Seq<Vec<Option<i64>>>, o: int) -> bool {
    beam[o].finished || !has_finite(lps[o]@)
}

/// Whether `e` is one of the candidates that one step draws from `beam`,
/// given for each hypothesis the log-probabilities of the next token
/// (`None` where the model's score was not finite).
pub open spec fn in_pool(beam: Seq<Hypothesis>, lps: Seq<Vec<Option<i64>>>, e: Entry) -> bool {
    &&& 0 <= e.origin < beam.len()
    &&& if is_carried(beam, lps, e.origin as int) {
        e.token == -1 && e.score == beam[e.origin as int].score
    } else {
        &&& 0 <= e.token < lps[e.origin as int]@.len()
        &&& lps[e.origin as int]@[e.token as int] is Some
        &&& e.score == clamp_add(
            beam[e.origin as int].score as int,
            lps[e.origin as int]@[e.token as int]->Some_0 as int,
        )
    }
}

/// Strictly ordered by `ranks_before`, pairwise.
pub open spec fn ranked(s: Seq<Entry>) -> bool {
    forall|i: int, j: int| 0 <= i < j < s.len() ==> ranks_before(#[trigger] s[i], #[trigger] s[j])
}

/// `sel` is the best `k` candidates of the pool, best first: every pool
/// candidate left out ranks after all of `sel`, and only a full `sel` leaves
/// any out.
pub open spec fn is_top_k(
    beam: Seq<Hypothesis>,
    lps: Seq<Vec<Option<i64>>>,
    sel: Seq<Entry>,
    k: int,
) -> bool {
    &&& sel.len() <= k
    &&& ranked(sel)
    &&& forall|j: int| 0 <= j < sel.len() ==> in_pool(beam, lps, #[trigger] sel[j])
    &&& forall|e: Entry|
        #![trigger in_pool(beam, lps, e)]
        in_pool(beam, lps, e) && !sel.contains(e) ==> sel.len() == k && ranks_before(
            sel.last(),
            e,
        )
}

/// The hypothesis that candidate `e` stands for, with `eos` ending it.
pub open spec fn extends_to(h: Hypothesis, e: Entry, eos: u32, n: Hypothesis) -> bool {
    &&& n.score == e.score
    &&& if e.token < 0 {
        n.tokens@ == h.tokens@ && n.finished
    } else {
        n.tokens@ == h.tokens@.push(e.token as u32) && n.finished == (e.token == eos as int)
    }
}

/// `next` is the beam built from the selected candidates `sel`, in order.
pub open spec fn built_from(beam: Seq<Hypothesis>, sel: Seq<Entry>, eos: u32, next: Seq<Hypothesis>) -> bool {
    &&& next.len() == sel.len()
    &&& forall|j: int|
        0 <= j < sel.len() ==> extends_to(beam[#[trigger] sel[j].origin as int], sel[j], eos, next[j])
}

/// `next` is the beam that one search step makes from `beam`.
pub open spec fn is_next_beam(
    beam: Seq<Hypothesis>,
    lps: Seq<Vec<Option<i64>>>,
    k: int,
    eos: u32,
    next: Seq<Hypothesis>,
) -> bool {
    exists|sel: Seq<Entry>| is_top_k(beam, lps, sel, k) && built_from(beam, sel, eos, next)
}

/// Scores never increase along the beam.
pub open spec fn scores_descending(beam: Seq<Hypothesis>) -> bool {
    forall|i: int, j: int| 0 <= i < j < beam.len() ==> #[trigger] beam[i].score >= #[trigger] beam[j].score
}

pub proof fn lemma_ranks_before_transitive(a: Entry, b: Entry, c: Entry)
    requires
        ranks_before(a, b),
        ranks_before(b, c),
    ensures
        ranks_before(a, c),
{
}

pub proof fn lemma_ranks_before_total(a: Entry, b: Entry)
    ensures
        ranks_before(a, b) || ranks_before(b, a) || same_key(a, b),
        !(ranks_before(a, b) && ranks_before(b, a)),
        !ranks_before(a, a),
{
}

/// Whether `a` ranks before `b`.
pub fn ranks_ahead(a: &Entry, b: &Entry) -> (r: bool)
    ensures
        r == ranks_before(*a, *b),
{
    a.score > b.score || (a.score == b.score && (a.token < b.token || (a.token == b.token
        && a.origin < b.origin)))
}

/// `a + b`, held within the range of `i64`.
pub fn add_clamped(a: i64, b: i64) -> (r: i64)
    ensures
        r == clamp_add(a as int, b as int),
{
    if b < 0 {
        if a < i64::MIN - b {
            i64::MIN
        } else {
            a + b
        }
    } else {
        if a > i64::MAX - b {
            i64::MAX
        } else {
            a + b
        }
    }
}

/// Whether some token has a finite log-probability.
pub fn any_finite(lp: &Vec<Option<i64>>) -> (r: bool)
    ensures
        r == has_finite(lp@),
{
    let mut i: usize = 0;
    while i < lp.len()
        invariant
            i <= lp@.len(),
            forall|t: int| 0 <= t < i ==> lp@[t] is None,
        decreases lp@.len() - i,
    {
        if lp[i].is_some() {
            return true;
        }
        i = i + 1;
    }
    false
}

/// Puts `e` into the ranked list `best`, keeping at most `k` entries.
pub fn offer(best: &mut Vec<Entry>, e: Entry, k: usize)
    requires
        k >= 1,
        old(best)@.len() <= k,
        ranked(old(best)@),
        forall|j: int| 0 <= j < old(best)@.len() ==> !same_key(#[trigger] old(best)@[j], e),
    ensures
        final(best)@.len() <= k,
        ranked(final(best)@),
        forall|x: Entry| #[trigger] final(best)@.contains(x) ==> old(best)@.contains(x) || x == e,
        forall|x: Entry|
            (old(best)@.contains(x) || x == e) && !#[trigger] final(best)@.contains(x) ==> (
            final(best)@.len() == k && ranks_before(final(best)@.last(), x)),
        old(best)@.len() == k ==> final(best)@.len() == k && (final(best)@.last() == old(
            best,
        )@.last() || ranks_before(final(best)@.last(), old(best)@.last())),
        old(best)@.len() < k ==> final(best)@.len() == old(best)@.len() + 1,
{
    let ghost s = best@;
    let mut p: usize = 0;
    while p < best.len() && !ranks_ahead(&e, &best[p])
        invariant
            best@ == s,
            p <= s.len(),
            forall|j: int| 0 <= j < p ==> ranks_before(#[trigger] s[j], e),
            forall|j: int| 0 <= j < s.len() ==> !same_key(#[trigger] s[j], e),
        decreases s.len() - p,
    {
        proof {
            lemma_ranks_before_total(e, s[p as int]);
        }
        p = p + 1;
    }
    if p >= k {
        assert(p == s.len() && s.len() == k);
        assert forall|x: Entry| (s.contains(x) || x == e) && !s.contains(x) implies (s.len() == k
            && ranks_before(s.last(), x)) by {
            assert(x == e);
            assert(ranks_before(s[s.len() - 1], e));
        }
        return;
    }
    assert(p < s.len() ==> ranks_before(e, s[p as int]));
    best.insert(p, e);
    let ghost t = best@;
    assert(t == s.insert(p as int, e));
    assert forall|i: int, j: int| 0 <= i < j < t.len() implies ranks_before(
        #[trigger] t[i],
        #[trigger] t[j],
    ) by {
        if j < p {
        } else if j == p {
        } else if i < p {
            assert(t[j] == s[j - 1]);
            lemma_ranks_before_transitive(s[i], e, s[p as int]);
            if j - 1 > p {
                lemma_ranks_before_transitive(s[i], s[p as int], s[j - 1]);
            }
        } else if i == p {
            assert(t[j] == s[j - 1]);
            if j - 1 > p {
                lemma_ranks_before_transitive(e, s[p as int], s[j - 1]);
            }
        } else {
            assert(t[i] == s[i - 1] && t[j] == s[j - 1]);
        }
    }
    assert forall|x: Entry| t.contains(x) implies s.contains(x) || x == e by {
        let i = choose|i: int| 0 <= i < t.len() && t[i] == x;
        if i < p {
            assert(s[i] == x);
        } else if i > p {
            assert(s[i - 1] == x);
        }
    }
    assert forall|x: Entry| s.contains(x) || x == e implies t.contains(x) by {
        if x == e {
            assert(t[p as int] == e);
        } else {
            let i = choose|i: int| 0 <= i < s.len() && s[i] == x;
            if i < p {
                assert(t[i] == x);
            } else {
                assert(t[i + 1] == x);
            }
        }
    }
    if best.len() > k {
        let ghost dropped = t.last();
        best.pop();
        let ghost u = best@;
        assert(u == t.subrange(0, t.len() - 1));
        assert(dropped == s.last());
        assert(ranks_before(u.last(), dropped)) by {
            assert(u.last() == t[t.len() - 2]);
        }
        assert forall|i: int, j: int| 0 <= i < j < u.len() implies ranks_before(
            #[trigger] u[i],
            #[trigger] u[j],
        ) by {
            assert(u[i] == t[i] && u[j] == t[j]);
        }
        assert forall|x: Entry| #[trigger] u.contains(x) implies s.contains(x) || x == e by {
            let i = choose|i: int| 0 <= i < u.len() && u[i] == x;
            assert(t[i] == x);
        }
        assert forall|x: Entry| (s.contains(x) || x == e) && !u.contains(x) implies (u.len() == k
            && ranks_before(u.last(), x)) by {
            assert(t.contains(x));
            let i = choose|i: int| 0 <= i < t.len() && t[i] == x;
            if i < t.len() - 1 {
                assert(u[i] == x);
            }
            assert(x == dropped);
        }
        assert(u.last() == s.last() || ranks_before(u.last(), s.last())) by {
            if p == s.len() - 1 {
                assert(u.last() == e);
            } else {
                assert(u.last() == s[s.len() - 2]);
            }
        }
    } else {
        assert forall|x: Entry| (s.contains(x) || x == e) && !t.contains(x) implies (t.len() == k
            && ranks_before(t.last(), x)) by {
        }
    }
}

/// Whether `e` comes before position (`o`, `t`) of the walk over the pool:
/// an earlier hypothesis, or a lower token of hypothesis `o`.
pub open spec fn seen(e: Entry, o: int, t: int) -> bool {
    e.origin < o || (e.origin == o && e.token < t)
}

/// `best` is the best `k` of the pool candidates walked so far.
pub open spec fn top_so_far(
    beam: Seq<Hypothesis>,
    lps: Seq<Vec<Option<i64>>>,
    best: Seq<Entry>,
    k: int,
    o: int,
    t: int,
) -> bool {
    &&& best.len() <= k
    &&& ranked(best)
    &&& forall|j: int|
        0 <= j < best.len() ==> in_pool(beam, lps, #[trigger] best[j]) && seen(best[j], o, t)
    &&& forall|e: Entry|
        #![trigger in_pool(beam, lps, e)]
        in_pool(beam, lps, e) && seen(e, o, t) && !best.contains(e) ==> best.len() == k
            && ranks_before(best.last(), e)
}

proof fn lemma_offered(
    beam: Seq<Hypothesis>,
    lps: Seq<Vec<Option<i64>>>,
    s: Seq<Entry>,
    u: Seq<Entry>,
    e: Entry,
    k: int,
    o: int,
    t: int,
    t2: int,
)
    requires
        top_so_far(beam, lps, s, k, o, t),
        in_pool(beam, lps, e),
        e.origin == o,
        t <= e.token < t2,
        forall|x: Entry| in_pool(beam, lps, x) && x.origin == o && t <= x.token < t2 ==> x == e,
        u.len() <= k,
        ranked(u),
        forall|x: Entry| #[trigger] u.contains(x) ==> s.contains(x) || x == e,
        forall|x: Entry|
            (s.contains(x) || x == e) && !#[trigger] u.contains(x) ==> (u.len() == k
                && ranks_before(u.last(), x)),
        s.len() == k ==> u.len() == k && (u.last() == s.last() || ranks_before(u.last(), s.last())),
    ensures
        top_so_far(beam, lps, u, k, o, t2),
{
    assert forall|j: int| 0 <= j < u.len() implies in_pool(beam, lps, #[trigger] u[j]) && seen(
        u[j],
        o,
        t2,
    ) by {
        assert(u.contains(u[j]));
        if u[j] != e {
            let i = choose|i: int| 0 <= i < s.len() && s[i] == u[j];
            assert(in_pool(beam, lps, s[i]) && seen(s[i], o, t));
        }
    }
    assert forall|x: Entry|
        #![trigger in_pool(beam, lps, x)]
        in_pool(beam, lps, x) && seen(x, o, t2) && !u.contains(x) implies u.len() == k
            && ranks_before(u.last(), x) by {
        if x == e || s.contains(x) {
        } else {
            assert(seen(x, o, t));
            assert(s.len() == k && ranks_before(s.last(), x));
            if u.last() != s.last() {
                lemma_ranks_before_transitive(u.last(), s.last(), x);
            }
        }
    }
}

/// The best `k` candidates of the pool that one search step draws from
/// `beam`, best first.
pub fn select_next(beam: &Vec<Hypothesis>, lps: &Vec<Vec<Option<i64>>>, k: usize) -> (r: Vec<Entry>)
    requires
        k >= 1,
        lps@.len() == beam@.len(),
        forall|i: int| 0 <= i < lps@.len() ==> #[trigger] lps@[i]@.len() <= vocab_limit(),
    ensures
        is_top_k(beam@, lps@, r@, k as int),
{
    let mut best: Vec<Entry> = Vec::new();
    let mut o: usize = 0;
    while o < beam.len()
        invariant
            k >= 1,
            lps@.len() == beam@.len(),
            o <= beam@.len(),
            forall|i: int| 0 <= i < lps@.len() ==> #[trigger] lps@[i]@.len() <= vocab_limit(),
            top_so_far(beam@, lps@, best@, k as int, o as int, -1),
        decreases beam@.len() - o,
    {
        let h = &beam[o];
        let lp = &lps[o];
        if h.finished || !any_finite(lp) {
            let e = Entry { origin: o, token: -1, score: h.score };
            let ghost s = best@;
            offer(&mut best, e, k);
            proof {
                lemma_offered(beam@, lps@, s, best@, e, k as int, o as int, -1, 0);
                assert forall|x: Entry|
                    #![trigger in_pool(beam@, lps@, x)]
                    in_pool(beam@, lps@, x) && seen(x, o as int + 1, -1) implies seen(x, o as int, 0) by {
                }
            }
        } else {
            let mut t: usize = 0;
            while t < lp.len()
                invariant
                    k >= 1,
                    lps@.len() == beam@.len(),
                    o < beam@.len(),
                    h == beam@[o as int],
                    lp == lps@[o as int],
                    !is_carried(beam@, lps@, o as int),
                    t <= lp@.len(),
                    lp@.len() <= vocab_limit(),
                    top_so_far(beam@, lps@, best@, k as int, o as int, t as int),
                decreases lp@.len() - t,
            {
                let ghost s = best@;
                match lp[t] {
                    Some(v) => {
                        let e = Entry { origin: o, token: t as i64, score: add_clamped(h.score, v) };
                        offer(&mut best, e, k);
                        proof {
                            lemma_offered(beam@, lps@, s, best@, e, k as int, o as int, t as int, t as int + 1);
                        }
                    },
                    None => {
                        assert forall|x: Entry|
                            #![trigger in_pool(beam@, lps@, x)]
                            in_pool(beam@, lps@, x) && seen(x, o as int, t as int + 1) implies seen(x, o as int, t as int) by {
                        }
                    },
                }
                t = t + 1;
            }
            proof {
                assert forall|x: Entry|
                    #![trigger in_pool(beam@, lps@, x)]
                    in_pool(beam@, lps@, x) && seen(x, o as int + 1, -1) implies seen(x, o as int, t as int) by {
                }
            }
        }
        o = o + 1;
    }
    proof {
        assert forall|x: Entry|
            #![trigger in_pool(beam@, lps@, x)]
            in_pool(beam@, lps@, x) implies seen(x, o as int, -1) by {
        }
    }
    best
}

/// The last `w` tokens of `s`, or all of `s` when it is no longer.
pub open spec fn clip_spec(s: Seq<u32>, w: int) -> Seq<u32> {
    if s.len() > w {
        s.subrange(s.len() - w, s.len() as int)
    } else {
        s
    }
}

/// A copy of `v[from..]`.
pub fn copy_from(v: &Vec<u32>, from: usize) -> (r: Vec<u32>)
    requires
        from <= v@.len(),
    ensures
        r@ == v@.subrange(from as int, v@.len() as int),
{
    let mut r: Vec<u32> = Vec::new();
    let mut i: usize = from;
    while i < v.len()
        invariant
            from <= i <= v@.len(),
            r@ == v@.subrange(from as int, i as int),
        decreases v@.len() - i,
    {
        r.push(v[i]);
        i = i + 1;
        assert(r@ =~= v@.subrange(from as int, i as int));
    }
    r
}

/// The context the model sees: the last `w` tokens of `tokens`.
pub fn clip_context(tokens: &Vec<u32>, w: usize) -> (r: Vec<u32>)
    ensures
        r@ == clip_spec(tokens@, w as int),
{
    if tokens.len() > w {
        copy_from(tokens, tokens.len() - w)
    } else {
        let r = copy_from(tokens, 0);
        assert(tokens@.subrange(0, tokens@.len() as int) =~= tokens@);
        r
    }
}

/// The beam made of the selected candidates `sel`, in order.
pub fn build_next(beam: &Vec<Hypothesis>, sel: &Vec<Entry>, eos: u32) -> (r: Vec<Hypothesis>)
    requires
        forall|j: int| 0 <= j < sel@.len() ==> (#[trigger] sel@[j]).origin < beam@.len(),
        forall|j: int| 0 <= j < sel@.len() ==> (#[trigger] sel@[j]).token < vocab_limit(),
    ensures
        built_from(beam@, sel@, eos, r@),
{
    let mut r: Vec<Hypothesis> = Vec::new();
    let mut j: usize = 0;
    while j < sel.len()
        invariant
            j <= sel@.len(),
            forall|i: int| 0 <= i < sel@.len() ==> (#[trigger] sel@[i]).origin < beam@.len(),
            forall|i: int| 0 <= i < sel@.len() ==> (#[trigger] sel@[i]).token < vocab_limit(),
            r@.len() == j,
            forall|i: int|
                0 <= i < j ==> extends_to(beam@[#[trigger] sel@[i].origin as int], sel@[i], eos, r@[i]),
        decreases sel@.len() - j,
    {
        let e = sel[j];
        let h = &beam[e.origin];
        let mut tokens = copy_from(&h.tokens, 0);
        assert(h.tokens@.subrange(0, h.tokens@.len() as int) =~= h.tokens@);
        let n = if e.token < 0 {
            Hypothesis { tokens, score: e.score, finished: true }
        } else {
            let tok = e.token as u32;
            tokens.push(tok);
            Hypothesis { tokens, score: e.score, finished: tok == eos }
        };
        r.push(n);
        j = j + 1;
    }
    r
}

/// One step of the search: the hypotheses that extend `beam` best, by the
/// log-probabilities `lps` of each hypothesis's next token, at most `k` of
/// them, best first. A hypothesis extended by `eos` has ended; an ended
/// hypothesis, or one whose scores are all non-finite, is carried over as
/// it is.
pub fn step(beam: &Vec<Hypothesis>, lps: &Vec<Vec<Option<i64>>>, k: usize, eos: u32) -> (r: Vec<
    Hypothesis,
>)
    requires
        k >= 1,
        lps@.len() == beam@.len(),
        forall|i: int| 0 <= i < lps@.len() ==> #[trigger] lps@[i]@.len() <= vocab_limit(),
    ensures
        is_next_beam(beam@, lps@, k as int, eos, r@),
        r@.len() <= k,
        beam@.len() > 0 ==> r@.len() > 0,
        scores_descending(r@),
{
    let sel = select_next(beam, lps, k);
    proof {
        assert forall|j: int| 0 <= j < sel@.len() implies (#[trigger] sel@[j]).origin < beam@.len()
            && sel@[j].token < vocab_limit() by {
            assert(in_pool(beam@, lps@, sel@[j]));
        }
    }
    let r = build_next(beam, &sel, eos);
    proof {
        if beam@.len() > 0 {
            lemma_pool_nonempty(beam@, lps@, sel@, k as int);
        }
        assert forall|i: int, j: int| 0 <= i < j < r@.len() implies #[trigger] r@[i].score
            >= #[trigger] r@[j].score by {
            assert(ranks_before(sel@[i], sel@[j]));
        }
    }
    r
}

proof fn lemma_pool_nonempty(beam: Seq<Hypothesis>, lps: Seq<Vec<Option<i64>>>, sel: Seq<Entry>, k: int)
    requires
        k >= 1,
        beam.len() > 0,
        lps.len() == beam.len(),
        lps[0]@.len() <= vocab_limit(),
        is_top_k(beam, lps, sel, k),
    ensures
        sel.len() > 0,
{
    if sel.len() == 0 {
        if is_carried(beam, lps, 0) {
            let e = Entry { origin: 0, token: -1i64, score: beam[0].score };
            assert(in_pool(beam, lps, e));
            assert(!sel.contains(e));
        } else {
            let t = choose|t: int| 0 <= t < lps[0]@.len() && #[trigger] lps[0]@[t] is Some;
            let e = Entry {
                origin: 0,
                token: t as i64,
                score: clamp_add(beam[0].score as int, lps[0]@[t]->Some_0 as int) as i64,
            };
            assert(in_pool(beam, lps, e));
            assert(!sel.contains(e));
        }
    }
}

proof fn lemma_pool_key_unique(beam: Seq<Hypothesis>, lps: Seq<Vec<Option<i64>>>, a: Entry, b: Entry)
    requires
        in_pool(beam, lps, a),
        in_pool(beam, lps, b),
        same_key(a, b),
    ensures
        a == b,
{
}

/// With the first `j` entries of two top-`k` selections equal, an entry
/// of the first that ranks before the second's entry `j` is in neither
/// place: no such entry exists.
proof fn lemma_no_better_at(
    beam: Seq<Hypothesis>,
    lps: Seq<Vec<Option<i64>>>,
    s1: Seq<Entry>,
    s2: Seq<Entry>,
    k: int,
    j: int,
)
    requires
        is_top_k(beam, lps, s1, k),
        is_top_k(beam, lps, s2, k),
        0 <= j < s1.len(),
        0 <= j < s2.len(),
        forall|i: int| 0 <= i < j ==> s1[i] == s2[i],
    ensures
        !ranks_before(s1[j], s2[j]),
{
    let a = s1[j];
    let b = s2[j];
    if ranks_before(a, b) {
        assert(in_pool(beam, lps, a));
        if s2.contains(a) {
            let m = choose|m: int| 0 <= m < s2.len() && s2[m] == a;
            if m < j {
                assert(ranks_before(s1[m], s1[j]));
                lemma_ranks_before_total(a, a);
            } else if m == j {
                lemma_ranks_before_total(a, a);
            } else {
                assert(ranks_before(s2[j], s2[m]));
                lemma_ranks_before_total(a, b);
            }
        } else {
            let l = s2.len() - 1;
            assert(ranks_before(s2[l], a));
            if l > j {
                assert(ranks_before(s2[j], s2[l]));
                lemma_ranks_before_transitive(b, s2[l], a);
            }
            lemma_ranks_before_total(a, b);
        }
    }
}

proof fn lemma_agree_upto(
    beam: Seq<Hypothesis>,
    lps: Seq<Vec<Option<i64>>>,
    s1: Seq<Entry>,
    s2: Seq<Entry>,
    k: int,
    n: int,
)
    requires
        is_top_k(beam, lps, s1, k),
        is_top_k(beam, lps, s2, k),
        0 <= n <= s1.len(),
        n <= s2.len(),
    ensures
        forall|i: int| 0 <= i < n ==> s1[i] == s2[i],
    decreases n,
{
    if n > 0 {
        lemma_agree_upto(beam, lps, s1, s2, k, n - 1);
        let j = n - 1;
        lemma_no_better_at(beam, lps, s1, s2, k, j);
        lemma_no_better_at(beam, lps, s2, s1, k, j);
        lemma_ranks_before_total(s1[j], s2[j]);
        assert(in_pool(beam, lps, s1[j]) && in_pool(beam, lps, s2[j]));
        lemma_pool_key_unique(beam, lps, s1[j], s2[j]);
    }
}

proof fn lemma_not_longer(
    beam: Seq<Hypothesis>,
    lps: Seq<Vec<Option<i64>>>,
    s1: Seq<Entry>,
    s2: Seq<Entry>,
    k: int,
)
    requires
        is_top_k(beam, lps, s1, k),
        is_top_k(beam, lps, s2, k),
        forall|i: int| 0 <= i < s2.len() && i < s1.len() ==> s1[i] == s2[i],
    ensures
        s1.len() <= s2.len(),
{
    if s1.len() > s2.len() {
        let n = s2.len() as int;
        let a = s1[n];
        assert(in_pool(beam, lps, a));
        if s2.contains(a) {
            let m = choose|m: int| 0 <= m < s2.len() && s2[m] == a;
            assert(ranks_before(s1[m], s1[n]));
            lemma_ranks_before_total(a, a);
        }
    }
}

/// The best `k` candidates of a pool are one sequence: two selections that
/// both meet `is_top_k` are equal.
pub proof fn lemma_top_k_unique(
    beam: Seq<Hypothesis>,
    lps: Seq<Vec<Option<i64>>>,
    s1: Seq<Entry>,
    s2: Seq<Entry>,
    k: int,
)
    requires
        is_top_k(beam, lps, s1, k),
        is_top_k(beam, lps, s2, k),
    ensures
        s1 == s2,
{
    let n = if s1.len() <= s2.len() { s1.len() } else { s2.len() };
    lemma_agree_upto(beam, lps, s1, s2, k, n as int);
    lemma_not_longer(beam, lps, s1, s2, k);
    lemma_not_longer(beam, lps, s2, s1, k);
    assert(s1 =~= s2);
}

/// Two hypothesis sequences that agree in tokens, score and ending.
pub open spec fn same_beam(a: Seq<Hypothesis>, b: Seq<Hypothesis>) -> bool {
    &&& a.len() == b.len()
    &&& forall|j: int|
        0 <= j < a.len() ==> (#[trigger] a[j]).tokens@ == b[j].tokens@ && a[j].score == b[j].score
            && a[j].finished == b[j].finished
}

/// A search step is deterministic: from the same beam, log-probabilities,
/// width and end token, any two results agree hypothesis by hypothesis.
pub proof fn lemma_step_deterministic(
    beam: Seq<Hypothesis>,
    lps: Seq<Vec<Option<i64>>>,
    k: int,
    eos: u32,
    r1: Seq<Hypothesis>,
    r2: Seq<Hypothesis>,
)
    requires
        is_next_beam(beam, lps, k, eos, r1),
        is_next_beam(beam, lps, k, eos, r2),
    ensures
        same_beam(r1, r2),
{
    let s1 = choose|s: Seq<Entry>| is_top_k(beam, lps, s, k) && built_from(beam, s, eos, r1);
    let s2 = choose|s: Seq<Entry>| is_top_k(beam, lps, s, k) && built_from(beam, s, eos, r2);
    lemma_top_k_unique(beam, lps, s1, s2, k);
    assert forall|j: int| 0 <= j < r1.len() implies (#[trigger] r1[j]).tokens@ == r2[j].tokens@
        && r1[j].score == r2[j].score && r1[j].finished == r2[j].finished by {
        assert(extends_to(beam[s1[j].origin as int], s1[j], eos, r1[j]));
        assert(extends_to(beam[s2[j].origin as int], s2[j], eos, r2[j]));
    }
}

/// `t` is the greedy choice of `lp`: the token of highest finite
/// log-probability, the lowest id among equals.
pub open spec fn is_argmax(lp: Seq<Option<i64>>, t: int) -> bool {
    &&& 0 <= t < lp.len()
    &&& lp[t] is Some
    &&& forall|u: int|
        0 <= u < lp.len() && #[trigger] lp[u] is Some ==> lp[u]->Some_0 < lp[t]->Some_0 || (
        lp[u]->Some_0 == lp[t]->Some_0 && t <= u)
}

/// With width one the search is greedy: a step from a single unfinished
/// hypothesis appends the argmax token of its log-probabilities (when the
/// cumulative score stays within range).
pub proof fn lemma_greedy_step(h: Hypothesis, lps: Seq<Vec<Option<i64>>>, eos: u32, r: Seq<Hypothesis>)
    requires
        !h.finished,
        lps.len() == 1,
        lps[0]@.len() <= vocab_limit(),
        has_finite(lps[0]@),
        forall|u: int|
            0 <= u < lps[0]@.len() && #[trigger] lps[0]@[u] is Some ==> i64::MIN <= h.score
                + lps[0]@[u]->Some_0 <= i64::MAX,
        is_next_beam(seq![h], lps, 1, eos, r),
    ensures
        r.len() == 1,
        r[0].tokens@.len() == h.tokens@.len() + 1,
        r[0].tokens@ == h.tokens@.push(r[0].tokens@.last()),
        is_argmax(lps[0]@, r[0].tokens@.last() as int),
{
    let beam = seq![h];
    let sel = choose|s: Seq<Entry>| is_top_k(beam, lps, s, 1) && built_from(beam, s, eos, r);
    lemma_pool_nonempty(beam, lps, sel, 1);
    let e = sel[0];
    assert(in_pool(beam, lps, e));
    assert(!is_carried(beam, lps, 0));
    let t = e.token as int;
    assert(extends_to(beam[0], e, eos, r[0]));
    assert(r[0].tokens@.last() == t as u32);
    assert forall|u: int|
        0 <= u < lps[0]@.len() && #[trigger] lps[0]@[u] is Some implies lps[0]@[u]->Some_0
        < lps[0]@[t]->Some_0 || (lps[0]@[u]->Some_0 == lps[0]@[t]->Some_0 && t <= u) by {
        if u != t {
            let x = Entry {
                origin: 0,
                token: u as i64,
                score: (h.score + lps[0]@[u]->Some_0) as i64,
            };
            assert(in_pool(beam, lps, x));
            if sel.contains(x) {
                let m = choose|m: int| 0 <= m < sel.len() && sel[m] == x;
                assert(m == 0);
            }
            assert(ranks_before(e, x));
        }
    }
}

/// One ranked completion: its tokens and cumulative log-probability in
/// millionths of a nat.
pub struct Candidate {
    pub tokens: Vec<u32>,
    pub logprob: i64,
}

/// Whether every hypothesis of `beam` has ended.
pub open spec fn all_finished(beam: Seq<Hypothesis>) -> bool {
    forall|i: int| 0 <= i < beam.len() ==> (#[trigger] beam[i]).finished
}

/// A beam search in progress. The caller asks for the contexts to score,
/// scores them with the model, and hands the log-probabilities back until
/// the search is done.
pub struct Decoder {
    beam: Vec<Hypothesis>,
    width: usize,
    eos: u32,
    window: usize,
    steps_left: usize,
}

impl Decoder {
    pub closed spec fn beam_view(&self) -> Seq<Hypothesis> {
        self.beam@
    }

    pub closed spec fn width_view(&self) -> nat {
        self.width as nat
    }

    pub closed spec fn eos_view(&self) -> u32 {
        self.eos
    }

    pub closed spec fn window_view(&self) -> nat {
        self.window as nat
    }

    pub closed spec fn steps_left_view(&self) -> nat {
        self.steps_left as nat
    }

    /// At most `width` hypotheses, at least one, best first.
    pub closed spec fn wf(&self) -> bool {
        &&& self.width >= 1
        &&& self.window >= 1
        &&& 1 <= self.beam@.len() <= self.width
        &&& scores_descending(self.beam@)
    }

    pub open spec fn done_spec(&self) -> bool {
        self.steps_left_view() == 0 || all_finished(self.beam_view())
    }

    /// A well-formed search holds between one and `width` hypotheses, their
    /// scores never increasing: what `candidates` hands out obeys the same.
    pub proof fn lemma_beam_bounded(&self)
        requires
            self.wf(),
        ensures
            1 <= self.beam_view().len() <= self.width_view(),
            scores_descending(self.beam_view()),
    {
    }

    /// Starts a search from the last `window` tokens of `prefix`, keeping
    /// `width` hypotheses for at most `max_new` steps, with `eos` ending a
    /// hypothesis.
    pub fn new(prefix: &Vec<u32>, width: usize, max_new: usize, window: usize, eos: u32) -> (r:
        Decoder)
        requires
            width >= 1,
            window >= 1,
        ensures
            r.wf(),
            r.beam_view().len() == 1,
            r.beam_view()[0].tokens@ == clip_spec(prefix@, window as int),
            r.beam_view()[0].score == 0,
            !r.beam_view()[0].finished,
            r.width_view() == width,
            r.window_view() == window,
            r.eos_view() == eos,
            r.steps_left_view() == max_new,
    {
        let tokens = clip_context(prefix, window);
        let mut beam: Vec<Hypothesis> = Vec::new();
        beam.push(Hypothesis { tokens, score: 0, finished: false });
        Decoder { beam, width, eos, window, steps_left: max_new }
    }

    /// Whether the search has ended: no steps are left, or every
    /// hypothesis has ended.
    pub fn is_done(&self) -> (r: bool)
        ensures
            r == self.done_spec(),
    {
        if self.steps_left == 0 {
            return true;
        }
        let mut i: usize = 0;
        while i < self.beam.len()
            invariant
                self.steps_left > 0,
                i <= self.beam@.len(),
                forall|j: int| 0 <= j < i ==> (#[trigger] self.beam@[j]).finished,
            decreases self.beam@.len() - i,
        {
            if !self.beam[i].finished {
                return false;
            }
            i = i + 1;
        }
        true
    }

    /// For each hypothesis, the context the model must score next: its last
    /// `window` tokens, or `None` for one that has ended.
    pub fn contexts(&self) -> (r: Vec<Option<Vec<u32>>>)
        ensures
            r@.len() == self.beam_view().len(),
            forall|i: int|
                0 <= i < r@.len() ==> (#[trigger] r@[i] is None) == self.beam_view()[i].finished,
            forall|i: int|
                0 <= i < r@.len() && #[trigger] r@[i] is Some ==> r@[i]->Some_0@ == clip_spec(
                    self.beam_view()[i].tokens@,
                    self.window_view() as int,
                ),
    {
        let mut r: Vec<Option<Vec<u32>>> = Vec::new();
        let mut i: usize = 0;
        while i < self.beam.len()
            invariant
                i <= self.beam@.len(),
                r@.len() == i,
                forall|j: int| 0 <= j < i ==> (#[trigger] r@[j] is None) == self.beam@[j].finished,
                forall|j: int|
                    0 <= j < i && #[trigger] r@[j] is Some ==> r@[j]->Some_0@ == clip_spec(
                        self.beam@[j].tokens@,
                        self.window as int,
                    ),
            decreases self.beam@.len() - i,
        {
            let h = &self.beam[i];
            if h.finished {
                r.push(None);
            } else {
                r.push(Some(clip_context(&h.tokens, self.window)));
            }
            i = i + 1;
        }
        r
    }

    /// Takes one search step with the log-probabilities of each
    /// hypothesis's next token (`None` where not finite; anything for one
    /// that has ended).
    pub fn advance(&mut self, lps: &Vec<Vec<Option<i64>>>)
        requires
            old(self).wf(),
            !old(self).done_spec(),
            lps@.len() == old(self).beam_view().len(),
            forall|i: int| 0 <= i < lps@.len() ==> #[trigger] lps@[i]@.len() <= vocab_limit(),
        ensures
            final(self).wf(),
            is_next_beam(
                old(self).beam_view(),
                lps@,
                old(self).width_view() as int,
                old(self).eos_view(),
                final(self).beam_view(),
            ),
            final(self).steps_left_view() == old(self).steps_left_view() - 1,
            final(self).width_view() == old(self).width_view(),
            final(self).window_view() == old(self).window_view(),
            final(self).eos_view() == old(self).eos_view(),
    {
        let next = step(&self.beam, lps, self.width, self.eos);
        self.beam = next;
        self.steps_left = self.steps_left - 1;
    }

    /// The hypotheses of the beam as ranked candidates, best first.
    pub fn candidates(&self) -> (r: Vec<Candidate>)
        ensures
            r@.len() == self.beam_view().len(),
            forall|i: int|
                0 <= i < r@.len() ==> (#[trigger] r@[i]).tokens@ == self.beam_view()[i].tokens@
                    && r@[i].logprob == self.beam_view()[i].score,
    {
        let mut r: Vec<Candidate> = Vec::new();
        let mut i: usize = 0;
        while i < self.beam.len()
            invariant
                i <= self.beam@.len(),
                r@.len() == i,
                forall|j: int|
                    0 <= j < i ==> (#[trigger] r@[j]).tokens@ == self.beam@[j].tokens@ && r@[j].logprob
                        == self.beam@[j].score,
            decreases self.beam@.len() - i,
        {
            let h = &self.beam[i];
            let tokens = copy_from(&h.tokens, 0);
            assert(h.tokens@.subrange(0, h.tokens@.len() as int) =~= h.tokens@);
            r.push(Candidate { tokens, logprob: h.score });
            i = i + 1;
        }
        r
    }
}

} // verus!
