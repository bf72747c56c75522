//! Reciprocal Rank Fusion of several ranked id lists.
//!
//! Each list gives an id the score `1 / (k + rank)`, with `rank` its 1-based position in
//! that list; an id's fused score is the sum over the lists that hold it. Scores are kept
//! as exact fractions, so equal sums tie exactly and ties go to the smaller id.

use vstd::prelude::*;

verus! {

/// The usual RRF constant.
pub const RRF_K: u64 = 60;

/// Most prefetch lists that one fusion takes.
pub const MAX_PREFETCHES: usize = 4;

/// Bound on `k` plus the length of any one list, so that exact scores fit in 128 bits.
pub const MAX_RANK_SPAN: u64 = 32768;

/// The lists as sequences of ids.
pub open spec fn lists_view(lists: Seq<Vec<u64>>) -> Seq<Seq<u64>> {
    lists.map_values(|l: Vec<u64>| l@)
}

/// The 1-based position of the first occurrence of `id` in `l`, or 0 when `l` lacks it.
pub open spec fn rank_in(l: Seq<u64>, id: u64) -> nat
    decreases l.len(),
{
    if l.len() == 0 {
        0
    } else if l[0] == id {
        1
    } else if rank_in(l.drop_first(), id) == 0 {
        0
    } else {
        rank_in(l.drop_first(), id) + 1
    }
}

/// The fused score of `id`, as a fraction (numerator, denominator): the sum of
/// `1 / (k + rank)` over the lists that hold it.
pub open spec fn rrf_score(lists: Seq<Seq<u64>>, k: nat, id: u64) -> (int, int)
    decreases lists.len(),
{
    if lists.len() == 0 {
        (0, 1)
    } else {
        let prev = rrf_score(lists.drop_last(), k, id);
        let r = rank_in(lists.last(), id);
        if r == 0 {
            prev
        } else {
            (prev.0 * (k + r) + prev.1, prev.1 * (k + r))
        }
    }
}

/// `a` comes before `b` in fused order: a higher score, or an equal score and a smaller id.
pub open spec fn fused_before(lists: Seq<Seq<u64>>, k: nat, a: u64, b: u64) -> bool {
    let sa = rrf_score(lists, k, a);
    let sb = rrf_score(lists, k, b);
    sa.0 * sb.1 > sb.0 * sa.1 || (sa.0 * sb.1 == sb.0 * sa.1 && a < b)
}

/// `id` occurs in at least one of the lists.
pub open spec fn is_candidate(lists: Seq<Seq<u64>>, id: u64) -> bool {
    exists|i: int| 0 <= i < lists.len() && #[trigger] lists[i].contains(id)
}

/// `r` is the fusion of `lists`: the best `limit` candidates, best first.
pub open spec fn is_rrf_fusion(lists: Seq<Seq<u64>>, k: nat, limit: nat, r: Seq<u64>) -> bool {
    &&& r.len() <= limit
    &&& r.no_duplicates()
    &&& forall|i: int| 0 <= i < r.len() ==> is_candidate(lists, #[trigger] r[i])
    &&& forall|i: int, j: int|
        0 <= i < j < r.len() ==> fused_before(lists, k, #[trigger] r[i], #[trigger] r[j])
    &&& forall|id: u64|
        #[trigger] is_candidate(lists, id) && !r.contains(id) ==> {
            &&& r.len() == limit
            &&& forall|i: int| 0 <= i < r.len() ==> fused_before(lists, k, #[trigger] r[i], id)
        }
}

/// `32768` to the power `n`.
pub open spec fn span_pow(n: nat) -> int
    decreases n,
{
    if n == 0 {
        1
    } else {
        MAX_RANK_SPAN * span_pow((n - 1) as nat)
    }
}

proof fn lemma_span_pow_bound(n: nat)
    requires
        n <= 4,
    ensures
        1 <= span_pow(n) <= 0x1000_0000_0000_0000,
{
    assert(span_pow(0) == 1);
    assert(span_pow(1) == 0x8000);
    assert(span_pow(2) == 0x4000_0000);
    assert(span_pow(3) == 0x2000_0000_0000);
    assert(span_pow(4) == 0x1000_0000_0000_0000);
}

proof fn lemma_rank_first(l: Seq<u64>, id: u64, j: int)
    requires
        0 <= j < l.len(),
        l[j] == id,
        forall|q: int| 0 <= q < j ==> l[q] != id,
    ensures
        rank_in(l, id) == j + 1,
    decreases j,
{
    if j > 0 {
        let t = l.drop_first();
        assert forall|q: int| 0 <= q < j - 1 implies t[q] != id by {
            assert(t[q] == l[q + 1]);
        }
        lemma_rank_first(t, id, j - 1);
    }
}

proof fn lemma_rank_absent(l: Seq<u64>, id: u64)
    requires
        !l.contains(id),
    ensures
        rank_in(l, id) == 0,
    decreases l.len(),
{
    if l.len() > 0 {
        let t = l.drop_first();
        assert(!t.contains(id)) by {
            if t.contains(id) {
                let q = choose|q: int| 0 <= q < t.len() && t[q] == id;
                assert(l[q + 1] == id);
            }
        }
        assert(l[0] != id);
        lemma_rank_absent(t, id);
    }
}

/// The numerator of a score is non-negative and its denominator positive.
pub proof fn lemma_score_positive(lists: Seq<Seq<u64>>, k: nat, id: u64)
    ensures
        rrf_score(lists, k, id).0 >= 0,
        rrf_score(lists, k, id).1 >= 1,
    decreases lists.len(),
{
    if lists.len() > 0 {
        lemma_score_positive(lists.drop_last(), k, id);
        let prev = rrf_score(lists.drop_last(), k, id);
        let m: int = (k + rank_in(lists.last(), id)) as int;
        if rank_in(lists.last(), id) != 0 {
            assert(prev.0 * m + prev.1 >= 0 && prev.1 * m >= 1) by (nonlinear_arith)
                requires
                    prev.0 >= 0,
                    prev.1 >= 1,
                    m >= 1,
            ;
        }
    }
}

/// The rank of `id` in `l`, as `rank_in` gives it.
fn rank_of(l: &Vec<u64>, id: u64) -> (r: usize)
    ensures
        r as nat == rank_in(l@, id),
        r <= l.len(),
{
    let mut j: usize = 0;
    while j < l.len()
        invariant
            j <= l.len(),
            forall|q: int| 0 <= q < j ==> l@[q] != id,
        decreases l.len() - j,
    {
        if l[j] == id {
            proof {
                lemma_rank_first(l@, id, j as int);
            }
            return j + 1;
        }
        j += 1;
    }
    proof {
        lemma_rank_absent(l@, id);
    }
    0
}

/// The exact fused score of `id`.
fn score_of(lists: &Vec<Vec<u64>>, k: u64, id: u64) -> (s: (u128, u128))
    requires
        lists.len() <= MAX_PREFETCHES,
        forall|i: int| 0 <= i < lists.len() ==> k + (#[trigger] lists@[i]).len() <= MAX_RANK_SPAN,
    ensures
        s.0 as int == rrf_score(lists_view(lists@), k as nat, id).0,
        s.1 as int == rrf_score(lists_view(lists@), k as nat, id).1,
        s.0 <= 0x4000_0000_0000_0000,
        1 <= s.1 <= 0x1000_0000_0000_0000,
{
    let ghost lv = lists_view(lists@);
    let mut num: u128 = 0;
    let mut den: u128 = 1;
    let mut i: usize = 0;
    while i < lists.len()
        invariant
            i <= lists.len(),
            lists.len() <= MAX_PREFETCHES,
            forall|q: int| 0 <= q < lists.len() ==> k + (#[trigger] lists@[q]).len() <= MAX_RANK_SPAN,
            lv == lists_view(lists@),
            num as int == rrf_score(lv.subrange(0, i as int), k as nat, id).0,
            den as int == rrf_score(lv.subrange(0, i as int), k as nat, id).1,
            1 <= den <= span_pow(i as nat),
            num <= i * den,
        decreases lists.len() - i,
    {
        let r = rank_of(&lists[i], id);
        let ghost pre = lv.subrange(0, i as int);
        let ghost next = lv.subrange(0, i + 1);
        assert(next.drop_last() =~= pre);
        assert(next.last() == lists@[i as int]@);
        proof {
            lemma_span_pow_bound(i as nat);
            lemma_span_pow_bound((i + 1) as nat);
        }
        if r > 0 {
            let m: u128 = k as u128 + r as u128;
            assert(m <= MAX_RANK_SPAN);
            let ghost p: int = span_pow(i as nat);
            assert(den * m <= p * MAX_RANK_SPAN) by (nonlinear_arith)
                requires
                    1 <= den <= p,
                    1 <= m <= MAX_RANK_SPAN,
            ;
            assert(num * m + den <= (i + 1) * (den * m)) by (nonlinear_arith)
                requires
                    num <= i * den,
                    1 <= den,
                    1 <= m,
                    i >= 0,
            ;
            assert(1 <= den * m) by (nonlinear_arith)
                requires
                    1 <= den,
                    1 <= m,
            ;
            let ghost dm: int = den * m;
            assert((i + 1) * dm <= 4 * 0x1000_0000_0000_0000) by (nonlinear_arith)
                requires
                    i + 1 <= 4,
                    0 <= dm <= 0x1000_0000_0000_0000,
            ;
            num = num * m + den;
            den = den * m;
        } else {
            assert(span_pow(i as nat) <= span_pow((i + 1) as nat));
            assert(num <= (i + 1) * den) by (nonlinear_arith)
                requires
                    num <= i * den,
                    den >= 1,
            ;
        }
        i += 1;
    }
    assert(lv.subrange(0, lists.len() as int) =~= lv);
    proof {
        lemma_span_pow_bound(i as nat);
    }
    assert(num <= 4 * den) by (nonlinear_arith)
        requires
            num <= i * den,
            i <= 4,
            den >= 1,
    ;
    (num, den)
}


proof fn lemma_frac_trans(na: int, da: int, nb: int, db: int, nc: int, dc: int)
    requires
        da >= 1,
        db >= 1,
        dc >= 1,
        na * db >= nb * da,
        nb * dc >= nc * db,
    ensures
        na * dc >= nc * da,
        na * db > nb * da || nb * dc > nc * db ==> na * dc > nc * da,
{
    assert(na * db * dc >= nb * da * dc) by (nonlinear_arith)
        requires
            na * db >= nb * da,
            dc >= 1,
    ;
    assert(nb * dc * da >= nc * db * da) by (nonlinear_arith)
        requires
            nb * dc >= nc * db,
            da >= 1,
    ;
    assert(na * dc >= nc * da) by (nonlinear_arith)
        requires
            na * db * dc >= nb * da * dc,
            nb * dc * da >= nc * db * da,
            db >= 1,
    ;
    if na * db > nb * da {
        assert(na * db * dc > nb * da * dc) by (nonlinear_arith)
            requires
                na * db > nb * da,
                dc >= 1,
        ;
        assert(na * dc > nc * da) by (nonlinear_arith)
            requires
                na * db * dc > nb * da * dc,
                nb * dc * da >= nc * db * da,
                db >= 1,
        ;
    }
    if nb * dc > nc * db {
        assert(nb * dc * da > nc * db * da) by (nonlinear_arith)
            requires
                nb * dc > nc * db,
                da >= 1,
        ;
        assert(na * dc > nc * da) by (nonlinear_arith)
            requires
                na * db * dc >= nb * da * dc,
                nb * dc * da > nc * db * da,
                db >= 1,
        ;
    }
}

/// Fused order is transitive.
pub proof fn lemma_before_transitive(lists: Seq<Seq<u64>>, k: nat, a: u64, b: u64, c: u64)
    requires
        fused_before(lists, k, a, b),
        fused_before(lists, k, b, c),
    ensures
        fused_before(lists, k, a, c),
{
    lemma_score_positive(lists, k, a);
    lemma_score_positive(lists, k, b);
    lemma_score_positive(lists, k, c);
    let sa = rrf_score(lists, k, a);
    let sb = rrf_score(lists, k, b);
    let sc = rrf_score(lists, k, c);
    lemma_frac_trans(sa.0, sa.1, sb.0, sb.1, sc.0, sc.1);
    if sa.0 * sb.1 == sb.0 * sa.1 && sb.0 * sc.1 == sc.0 * sb.1 {
        lemma_frac_trans(sc.0, sc.1, sb.0, sb.1, sa.0, sa.1);
    }
}

/// Fused order is asymmetric, hence irreflexive.
pub proof fn lemma_before_asymmetric(lists: Seq<Seq<u64>>, k: nat, a: u64, b: u64)
    ensures
        !(fused_before(lists, k, a, b) && fused_before(lists, k, b, a)),
        !fused_before(lists, k, a, a),
{
}

/// Of two distinct ids one comes before the other.
pub proof fn lemma_before_total(lists: Seq<Seq<u64>>, k: nat, a: u64, b: u64)
    requires
        a != b,
    ensures
        fused_before(lists, k, a, b) || fused_before(lists, k, b, a),
{
}

/// An id with its exact score.
pub type ScoredId = (u64, u128, u128);

/// `e` holds the score of its id, within the bounds that `score_of` gives.
pub open spec fn entry_ok(lists: Seq<Seq<u64>>, k: nat, e: ScoredId) -> bool {
    &&& e.1 as int == rrf_score(lists, k, e.0).0
    &&& e.2 as int == rrf_score(lists, k, e.0).1
    &&& e.1 <= 0x4000_0000_0000_0000
    &&& 1 <= e.2 <= 0x1000_0000_0000_0000
}

/// The ids of scored entries.
pub open spec fn ids_of(s: Seq<ScoredId>) -> Seq<u64> {
    s.map_values(|e: ScoredId| e.0)
}

fn entry_before(a: ScoredId, b: ScoredId) -> (r: bool)
    requires
        a.1 <= 0x4000_0000_0000_0000,
        a.2 <= 0x1000_0000_0000_0000,
        b.1 <= 0x4000_0000_0000_0000,
        b.2 <= 0x1000_0000_0000_0000,
    ensures
        r == (a.1 * b.2 > b.1 * a.2 || (a.1 * b.2 == b.1 * a.2 && a.0 < b.0)),
{
    assert(a.1 * b.2 <= 0x4000_0000_0000_0000 * 0x1000_0000_0000_0000) by (nonlinear_arith)
        requires
            a.1 <= 0x4000_0000_0000_0000,
            b.2 <= 0x1000_0000_0000_0000,
    ;
    assert(b.1 * a.2 <= 0x4000_0000_0000_0000 * 0x1000_0000_0000_0000) by (nonlinear_arith)
        requires
            b.1 <= 0x4000_0000_0000_0000,
            a.2 <= 0x1000_0000_0000_0000,
    ;
    let x = a.1 * b.2;
    let y = b.1 * a.2;
    x > y || (x == y && a.0 < b.0)
}

fn contains_id(v: &Vec<u64>, x: u64) -> (r: bool)
    ensures
        r == v@.contains(x),
{
    let mut i: usize = 0;
    while i < v.len()
        invariant
            i <= v.len(),
            forall|q: int| 0 <= q < i ==> v@[q] != x,
        decreases v.len() - i,
    {
        if v[i] == x {
            return true;
        }
        i += 1;
    }
    false
}

/// `id` occurs in one of the first `n` lists.
pub open spec fn in_first_lists(lists: Seq<Seq<u64>>, n: int, id: u64) -> bool {
    exists|p: int| 0 <= p < n && #[trigger] lists[p].contains(id)
}

/// Every id that occurs in the lists, once each, in order of first occurrence.
fn collect_candidates(lists: &Vec<Vec<u64>>) -> (c: Vec<u64>)
    ensures
        c@.no_duplicates(),
        forall|id: u64| c@.contains(id) <==> is_candidate(lists_view(lists@), id),
{
    let ghost lv = lists_view(lists@);
    let mut c: Vec<u64> = Vec::new();
    let mut i: usize = 0;
    while i < lists.len()
        invariant
            i <= lists.len(),
            lv == lists_view(lists@),
            c@.no_duplicates(),
            forall|id: u64| c@.contains(id) <==> in_first_lists(lv, i as int, id),
        decreases lists.len() - i,
    {
        let l = &lists[i];
        assert(lv[i as int] == l@);
        let mut j: usize = 0;
        while j < l.len()
            invariant
                j <= l.len(),
                i < lists.len(),
                lv == lists_view(lists@),
                lv[i as int] == l@,
                c@.no_duplicates(),
                forall|id: u64|
                    c@.contains(id) <==> (in_first_lists(lv, i as int, id) || l@.subrange(
                        0,
                        j as int,
                    ).contains(id)),
            decreases l.len() - j,
        {
            let x = l[j];
            let ghost before = c@;
            if !contains_id(&c, x) {
                c.push(x);
                assert(c@ == before.push(x));
                assert forall|q1: int, q2: int|
                    0 <= q1 < c@.len() && 0 <= q2 < c@.len() && q1 != q2 implies c@[q1]
                    != c@[q2] by {
                    if q1 < before.len() && q2 < before.len() {
                    } else if q1 == before.len() {
                        assert(before[q2] == c@[q2]);
                    } else {
                        assert(before[q1] == c@[q1]);
                    }
                }
            }
            assert forall|id: u64|
                c@.contains(id) <==> (in_first_lists(lv, i as int, id) || l@.subrange(
                    0,
                    j + 1,
                ).contains(id)) by {
                let s0 = l@.subrange(0, j as int);
                let s1 = l@.subrange(0, j + 1);
                assert(s1 =~= s0.push(x));
                if s1.contains(id) && id != x {
                    let q = choose|q: int| 0 <= q < s1.len() && s1[q] == id;
                    assert(s0[q] == id);
                }
                if s0.contains(id) {
                    let q = choose|q: int| 0 <= q < s0.len() && s0[q] == id;
                    assert(s1[q] == id);
                }
                assert(s1[j as int] == x);
                if c@.contains(id) && !before.contains(id) {
                    assert(id == x);
                }
                if before.contains(id) {
                    let q = choose|q: int| 0 <= q < before.len() && before[q] == id;
                    assert(c@[q] == id);
                }
                if id == x {
                    if !before.contains(x) {
                        assert(c@[before.len() as int] == x);
                    }
                }
            }
            j += 1;
        }
        assert(l@.subrange(0, l.len() as int) =~= l@);
        assert forall|id: u64|
            c@.contains(id) <==> in_first_lists(lv, i + 1, id) by {
            if in_first_lists(lv, i + 1, id) {
                let p = choose|p: int| 0 <= p < i + 1 && #[trigger] lv[p].contains(id);
                if p < i {
                    assert(in_first_lists(lv, i as int, id));
                }
            }
            if in_first_lists(lv, i as int, id) {
                let p = choose|p: int| 0 <= p < i && #[trigger] lv[p].contains(id);
                assert(0 <= p < i + 1 && lv[p].contains(id));
            }
            if l@.contains(id) {
                assert(lv[i as int].contains(id));
            }
        }
        i += 1;
    }
    assert forall|id: u64| in_first_lists(lv, i as int, id) <==> is_candidate(lv, id) by {
        assert(lv.len() == lists.len());
        if is_candidate(lv, id) {
            let p = choose|p: int| 0 <= p < lv.len() && #[trigger] lv[p].contains(id);
            assert(0 <= p < i && lv[p].contains(id));
        }
    }
    c
}


/// Fuses ranked id lists by Reciprocal Rank Fusion with constant `k` and keeps the best
/// `limit` ids, best first; equal fused scores go to the smaller id.
pub fn rrf_fuse(lists: &Vec<Vec<u64>>, k: u64, limit: usize) -> (r: Vec<u64>)
    requires
        lists.len() <= MAX_PREFETCHES,
        forall|i: int| 0 <= i < lists.len() ==> k + (#[trigger] lists@[i]).len() <= MAX_RANK_SPAN,
    ensures
        is_rrf_fusion(lists_view(lists@), k as nat, limit as nat, r@),
{
    let ghost lv = lists_view(lists@);
    let cands = collect_candidates(lists);
    let mut sorted: Vec<ScoredId> = Vec::new();
    let mut t: usize = 0;
    while t < cands.len()
        invariant
            t <= cands.len(),
            cands@.no_duplicates(),
            lists.len() <= MAX_PREFETCHES,
            forall|i: int| 0 <= i < lists.len() ==> k + (#[trigger] lists@[i]).len() <= MAX_RANK_SPAN,
            lv == lists_view(lists@),
            forall|q: int| 0 <= q < sorted.len() ==> entry_ok(lv, k as nat, #[trigger] sorted@[q]),
            forall|q1: int, q2: int|
                0 <= q1 < q2 < sorted.len() ==> fused_before(
                    lv,
                    k as nat,
                    #[trigger] sorted@[q1].0,
                    #[trigger] sorted@[q2].0,
                ),
            forall|id: u64| ids_of(sorted@).contains(id) <==> cands@.subrange(0, t as int).contains(id),
        decreases cands.len() - t,
    {
        let c = cands[t];
        let sc = score_of(lists, k, c);
        let e: ScoredId = (c, sc.0, sc.1);
        assert(!ids_of(sorted@).contains(c)) by {
            if cands@.subrange(0, t as int).contains(c) {
                let q = choose|q: int| 0 <= q < t && cands@.subrange(0, t as int)[q] == c;
                assert(cands@[q] == cands@[t as int]);
            }
        }
        let mut p: usize = 0;
        while p < sorted.len() && !entry_before(e, sorted[p])
            invariant
                p <= sorted.len(),
                entry_ok(lv, k as nat, e),
                e.0 == c,
                !ids_of(sorted@).contains(c),
                forall|q: int| 0 <= q < sorted.len() ==> entry_ok(lv, k as nat, #[trigger] sorted@[q]),
                forall|q: int| 0 <= q < p ==> fused_before(lv, k as nat, #[trigger] sorted@[q].0, c),
            decreases sorted.len() - p,
        {
            assert(ids_of(sorted@)[p as int] == sorted@[p as int].0);
            proof {
                lemma_before_total(lv, k as nat, c, sorted@[p as int].0);
            }
            p += 1;
        }
        let ghost old_s = sorted@;
        assert(forall|id: u64| ids_of(old_s).contains(id) <==> cands@.subrange(0, t as int).contains(id));
        sorted.insert(p, e);
        assert(sorted@ == old_s.insert(p as int, e));
        assert forall|q1: int, q2: int| 0 <= q1 < q2 < sorted.len() implies fused_before(
            lv,
            k as nat,
            #[trigger] sorted@[q1].0,
            #[trigger] sorted@[q2].0,
        ) by {
            if q2 < p {
                assert(sorted@[q1] == old_s[q1] && sorted@[q2] == old_s[q2]);
            } else if q2 == p {
                assert(sorted@[q1] == old_s[q1]);
            } else if q1 < p {
                assert(sorted@[q1] == old_s[q1] && sorted@[q2] == old_s[q2 - 1]);
            } else if q1 == p {
                assert(sorted@[q2] == old_s[q2 - 1]);
                if q2 - 1 > p {
                    lemma_before_transitive(lv, k as nat, c, old_s[p as int].0, old_s[q2 - 1].0);
                }
            } else {
                assert(sorted@[q1] == old_s[q1 - 1] && sorted@[q2] == old_s[q2 - 1]);
            }
        }
        assert forall|q: int| 0 <= q < sorted.len() implies entry_ok(lv, k as nat, #[trigger] sorted@[q]) by {
            if q < p {
                assert(sorted@[q] == old_s[q]);
            } else if q > p {
                assert(sorted@[q] == old_s[q - 1]);
            }
        }
        assert forall|id: u64|
            ids_of(sorted@).contains(id) <==> cands@.subrange(0, t + 1).contains(id) by {
            let a0 = ids_of(old_s);
            let a1 = ids_of(sorted@);
            let c0 = cands@.subrange(0, t as int);
            let c1 = cands@.subrange(0, t + 1);
            assert(c1 =~= c0.push(c));
            assert(c1[t as int] == c);
            if a1.contains(id) {
                let q = choose|q: int| 0 <= q < a1.len() && a1[q] == id;
                if q < p {
                    assert(a0[q] == id);
                } else if q > p {
                    assert(a0[q - 1] == id);
                }
                if id != c {
                    assert(a0.contains(id));
                    assert(c0.contains(id));
                    let w = choose|w: int| 0 <= w < c0.len() && c0[w] == id;
                    assert(c1[w] == id);
                }
            }
            if c1.contains(id) {
                let w = choose|w: int| 0 <= w < c1.len() && c1[w] == id;
                if w < t {
                    assert(c0[w] == id);
                    assert(c0.contains(id));
                    assert(a0.contains(id));
                    let q = choose|q: int| 0 <= q < a0.len() && a0[q] == id;
                    if q < p {
                        assert(a1[q] == id);
                    } else {
                        assert(a1[q + 1] == id);
                    }
                } else {
                    assert(a1[p as int] == id);
                }
            }
        }
        t += 1;
    }
    assert(cands@.subrange(0, cands.len() as int) =~= cands@);
    let n: usize = if limit < sorted.len() {
        limit
    } else {
        sorted.len()
    };
    let mut r: Vec<u64> = Vec::new();
    let mut q: usize = 0;
    while q < n
        invariant
            q <= n,
            n <= sorted.len(),
            r@ =~= ids_of(sorted@).subrange(0, q as int),
        decreases n - q,
    {
        r.push(sorted[q].0);
        q += 1;
    }
    let ghost all = ids_of(sorted@);
    assert forall|i: int, j: int| 0 <= i < j < r.len() implies fused_before(
        lv,
        k as nat,
        #[trigger] r@[i],
        #[trigger] r@[j],
    ) by {
        assert(r@[i] == sorted@[i].0 && r@[j] == sorted@[j].0);
    }
    assert forall|i: int, j: int| 0 <= i < r.len() && 0 <= j < r.len() && i != j implies r@[i]
        != r@[j] by {
        if i < j {
            assert(fused_before(lv, k as nat, r@[i], r@[j]));
        } else {
            assert(fused_before(lv, k as nat, r@[j], r@[i]));
        }
        lemma_before_asymmetric(lv, k as nat, r@[i], r@[j]);
    }
    assert forall|i: int| 0 <= i < r.len() implies is_candidate(lv, #[trigger] r@[i]) by {
        assert(all[i] == r@[i]);
        assert(all.contains(r@[i]));
    }
    assert forall|id: u64| #[trigger] is_candidate(lv, id) && !r@.contains(id) implies {
        &&& r@.len() == limit
        &&& forall|i: int| 0 <= i < r@.len() ==> fused_before(lv, k as nat, #[trigger] r@[i], id)
    } by {
        assert(all.contains(id));
        let w = choose|w: int| 0 <= w < all.len() && all[w] == id;
        if w < n {
            assert(r@[w] == id);
        }
        assert forall|i: int| 0 <= i < r@.len() implies fused_before(lv, k as nat, #[trigger] r@[i], id) by {
            assert(r@[i] == sorted@[i].0);
        }
    }
    r
}


proof fn lemma_fusion_members(lists: Seq<Seq<u64>>, k: nat, limit: nat, a: Seq<u64>, b: Seq<u64>)
    requires
        is_rrf_fusion(lists, k, limit, a),
        is_rrf_fusion(lists, k, limit, b),
    ensures
        forall|x: u64| a.contains(x) ==> b.contains(x),
{
    broadcast use vstd::seq_lib::seq_to_set_is_finite, vstd::set::group_set_axioms;

    assert forall|x: u64| a.contains(x) implies b.contains(x) by {
        if !b.contains(x) {
            let i = choose|i: int| 0 <= i < a.len() && a[i] == x;
            assert(is_candidate(lists, a[i]));
            assert(b.len() == limit);
            assert forall|y: u64| b.to_set().contains(y) implies a.to_set().remove(x).contains(y) by {
                let j = choose|j: int| 0 <= j < b.len() && b[j] == y;
                assert(is_candidate(lists, b[j]));
                assert(fused_before(lists, k, b[j], x));
                if !a.contains(y) {
                    assert(fused_before(lists, k, a[i], y));
                    lemma_before_asymmetric(lists, k, x, y);
                }
            }
            a.unique_seq_to_set();
            b.unique_seq_to_set();
            vstd::set_lib::lemma_len_subset(b.to_set(), a.to_set().remove(x));
        }
    }
}

proof fn lemma_sorted_unique(lists: Seq<Seq<u64>>, k: nat, a: Seq<u64>, b: Seq<u64>)
    requires
        forall|i: int, j: int| 0 <= i < j < a.len() ==> fused_before(lists, k, #[trigger] a[i], #[trigger] a[j]),
        forall|i: int, j: int| 0 <= i < j < b.len() ==> fused_before(lists, k, #[trigger] b[i], #[trigger] b[j]),
        a.no_duplicates(),
        b.no_duplicates(),
        forall|x: u64| a.contains(x) <==> b.contains(x),
    ensures
        a == b,
    decreases a.len(),
{
    if a.len() == 0 {
        if b.len() > 0 {
            assert(b.contains(b[0]));
        }
        assert(a =~= b);
    } else {
        assert(a.contains(a[0]));
        assert(b.len() > 0);
        assert(b.contains(b[0]));
        let j = choose|j: int| 0 <= j < a.len() && a[j] == b[0];
        let m = choose|m: int| 0 <= m < b.len() && b[m] == a[0];
        if a[0] != b[0] {
            assert(fused_before(lists, k, a[0], a[j]));
            assert(fused_before(lists, k, b[0], b[m]));
            lemma_before_asymmetric(lists, k, a[0], b[0]);
        }
        let ta = a.drop_first();
        let tb = b.drop_first();
        assert forall|x: u64| ta.contains(x) <==> tb.contains(x) by {
            if ta.contains(x) {
                let q = choose|q: int| 0 <= q < ta.len() && ta[q] == x;
                assert(a[q + 1] == x);
                assert(a.contains(x));
                let w = choose|w: int| 0 <= w < b.len() && b[w] == x;
                if w == 0 {
                    assert(a[0] == a[q + 1]);
                }
                assert(tb[w - 1] == x);
            }
            if tb.contains(x) {
                let q = choose|q: int| 0 <= q < tb.len() && tb[q] == x;
                assert(b[q + 1] == x);
                assert(b.contains(x));
                let w = choose|w: int| 0 <= w < a.len() && a[w] == x;
                if w == 0 {
                    assert(b[0] == b[q + 1]);
                }
                assert(ta[w - 1] == x);
            }
        }
        assert forall|i: int, j: int| 0 <= i < j < ta.len() implies fused_before(lists, k, #[trigger] ta[i], #[trigger] ta[j]) by {
            assert(ta[i] == a[i + 1] && ta[j] == a[j + 1]);
        }
        assert forall|i: int, j: int| 0 <= i < j < tb.len() implies fused_before(lists, k, #[trigger] tb[i], #[trigger] tb[j]) by {
            assert(tb[i] == b[i + 1] && tb[j] == b[j + 1]);
        }
        lemma_sorted_unique(lists, k, ta, tb);
        assert(a =~= b) by {
            assert forall|i: int| 0 <= i < a.len() implies a[i] == b[i] by {
                if i > 0 {
                    assert(a[i] == ta[i - 1] && b[i] == tb[i - 1]);
                }
            }
        }
    }
}

/// Fusion is deterministic: for given lists, constant and limit exactly one sequence meets
/// the fusion contract, so equal inputs give the same ids in the same order, ties included.
pub proof fn lemma_fusion_deterministic(
    lists: Seq<Seq<u64>>,
    k: nat,
    limit: nat,
    a: Seq<u64>,
    b: Seq<u64>,
)
    requires
        is_rrf_fusion(lists, k, limit, a),
        is_rrf_fusion(lists, k, limit, b),
    ensures
        a == b,
{
    lemma_fusion_members(lists, k, limit, a, b);
    lemma_fusion_members(lists, k, limit, b, a);
    lemma_sorted_unique(lists, k, a, b);
}

} // verus!
