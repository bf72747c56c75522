//! Composing the page that answers a query, each result tagged with why it was returned.

use crate::model::Meme;
use crate::search::take;
use crate::text::{
    int_in_range, is_digit, lemma_signed_decimal_reads_back, parse_int, signed_decimal, signed_decimal_string,
};
use vstd::string::{StrSliceExecFns, StringExecFns};
use vstd::prelude::*;

verus! {

/// Why a result was returned: the user picked it before, it is popular, or it matched.
#[derive(Clone, Copy, Debug, PartialEq, Eq, Structural)]
pub enum ResultSource {
    Recent,
    Popular,
    Query,
}

/// The one-character provenance tag of a source.
pub open spec fn source_tag(s: ResultSource) -> char {
    match s {
        ResultSource::Recent => 'r',
        ResultSource::Popular => 'p',
        ResultSource::Query => 'q',
    }
}

impl ResultSource {
    /// The provenance tag: `'r'`, `'p'` or `'q'`.
    pub fn tag(&self) -> (r: char)
        ensures
            r == source_tag(*self),
    {
        match self {
            ResultSource::Recent => 'r',
            ResultSource::Popular => 'p',
            ResultSource::Query => 'q',
        }
    }

    /// The source with the given tag, if any.
    pub fn from_tag(c: char) -> (r: Option<ResultSource>)
        ensures
            r matches Some(s) ==> source_tag(s) == c,
            r is None ==> forall|s: ResultSource| source_tag(s) != c,
    {
        if c == 'r' {
            Some(ResultSource::Recent)
        } else if c == 'p' {
            Some(ResultSource::Popular)
        } else if c == 'q' {
            Some(ResultSource::Query)
        } else {
            None
        }
    }
}

/// A document on a result page, with its provenance.
#[derive(Debug)]
pub struct SearchHit {
    pub meme: Meme,
    pub source: ResultSource,
}

/// The documents, each tagged with `src`.
pub open spec fn tagged(ms: Seq<Meme>, src: ResultSource) -> Seq<SearchHit> {
    ms.map_values(|m: Meme| SearchHit { meme: m, source: src })
}

/// Some hit of `s` carries document `id`.
pub open spec fn has_meme(s: Seq<SearchHit>, id: i32) -> bool {
    exists|i: int| 0 <= i < s.len() && (#[trigger] s[i]).meme.id == id
}

/// `s` keeping only the first hit of each document.
pub open spec fn unique_hits(s: Seq<SearchHit>) -> Seq<SearchHit>
    decreases s.len(),
{
    if s.len() == 0 {
        s
    } else {
        let d = unique_hits(s.drop_last());
        if has_meme(d, s.last().meme.id) {
            d
        } else {
            d.push(s.last())
        }
    }
}

/// The page for an empty query: the user's recent picks, then popular documents, each
/// document once (at its first place), at most `page_size` hits.
pub open spec fn fallback_page(recent: Seq<Meme>, popular: Seq<Meme>, page_size: nat) -> Seq<SearchHit> {
    take(
        unique_hits(tagged(recent, ResultSource::Recent) + tagged(popular, ResultSource::Popular)),
        page_size,
    )
}

fn contains_meme(out: &Vec<SearchHit>, id: i32) -> (r: bool)
    ensures
        r == has_meme(out@, id),
{
    let mut j: usize = 0;
    while j < out.len()
        invariant
            j <= out.len(),
            forall|q: int| 0 <= q < j ==> out@[q].meme.id != id,
        decreases out.len() - j,
    {
        if out[j].meme.id == id {
            return true;
        }
        j += 1;
    }
    false
}

fn push_unique(out: &mut Vec<SearchHit>, ms: &Vec<Meme>, src: ResultSource, Ghost(prev): Ghost<Seq<SearchHit>>)
    requires
        old(out)@ == unique_hits(prev),
    ensures
        final(out)@ == unique_hits(prev + tagged(ms@, src)),
{
    let ghost t = tagged(ms@, src);
    let mut j: usize = 0;
    assert(prev + t.subrange(0, 0) =~= prev);
    while j < ms.len()
        invariant
            j <= ms.len(),
            t == tagged(ms@, src),
            out@ == unique_hits(prev + t.subrange(0, j as int)),
        decreases ms.len() - j,
    {
        let ghost s1 = prev + t.subrange(0, j + 1);
        assert(s1.drop_last() =~= prev + t.subrange(0, j as int));
        assert(s1.last() == SearchHit { meme: ms@[j as int], source: src });
        if !contains_meme(out, ms[j].id) {
            out.push(SearchHit { meme: ms[j].copied(), source: src });
        }
        j += 1;
    }
    assert(t.subrange(0, ms.len() as int) =~= t);
}

fn truncate_hits(v: &mut Vec<SearchHit>, n: usize)
    ensures
        final(v)@ == take(old(v)@, n as nat),
{
    if n < v.len() {
        v.truncate(n);
        assert(v@ =~= old(v)@.subrange(0, n as int));
    }
}

/// The page for an empty query, as `fallback_page` states it.
pub fn fallback_results(recent: &Vec<Meme>, popular: &Vec<Meme>, page_size: usize) -> (r: Vec<SearchHit>)
    ensures
        r@ == fallback_page(recent@, popular@, page_size as nat),
{
    let mut out: Vec<SearchHit> = Vec::new();
    let ghost empty = Seq::<SearchHit>::empty();
    assert(out@ =~= unique_hits(empty));
    push_unique(&mut out, recent, ResultSource::Recent, Ghost(empty));
    assert(empty + tagged(recent@, ResultSource::Recent) =~= tagged(recent@, ResultSource::Recent));
    push_unique(&mut out, popular, ResultSource::Popular, Ghost(tagged(recent@, ResultSource::Recent)));
    truncate_hits(&mut out, page_size);
    out
}

/// The page for a non-empty query: the found documents tagged as matches, each once,
/// at most `page_size` hits.
pub fn query_results(found: &Vec<Meme>, page_size: usize) -> (r: Vec<SearchHit>)
    ensures
        r@ == take(unique_hits(tagged(found@, ResultSource::Query)), page_size as nat),
{
    let mut out: Vec<SearchHit> = Vec::new();
    let ghost empty = Seq::<SearchHit>::empty();
    assert(out@ =~= unique_hits(empty));
    push_unique(&mut out, found, ResultSource::Query, Ghost(empty));
    assert(empty + tagged(found@, ResultSource::Query) =~= tagged(found@, ResultSource::Query));
    truncate_hits(&mut out, page_size);
    out
}


/// No popular hit comes before a recent one.
pub open spec fn recents_first(s: Seq<SearchHit>) -> bool {
    forall|i: int, j: int|
        0 <= i < j < s.len() ==> !((#[trigger] s[i]).source == ResultSource::Popular && (#[trigger] s[j]).source
            == ResultSource::Recent)
}

/// `x` occurs in `s` before an occurrence of `y`.
pub open spec fn occurs_before(s: Seq<SearchHit>, x: SearchHit, y: SearchHit) -> bool {
    exists|a: int, b: int| 0 <= a < b < s.len() && #[trigger] s[a] == x && #[trigger] s[b] == y
}

/// The document ids of the hits.
pub open spec fn hit_ids(s: Seq<SearchHit>) -> Seq<i32> {
    s.map_values(|h: SearchHit| h.meme.id)
}

/// How many different documents the hits carry.
pub open spec fn distinct_documents(s: Seq<SearchHit>) -> nat {
    hit_ids(s).to_set().len()
}

proof fn lemma_unique_hits_props(s: Seq<SearchHit>)
    ensures
        unique_hits(s).len() <= s.len(),
        forall|i: int| 0 <= i < unique_hits(s).len() ==> s.contains(#[trigger] unique_hits(s)[i]),
        forall|i: int, j: int|
            0 <= i < j < unique_hits(s).len() ==> (#[trigger] unique_hits(s)[i]).meme.id != (
            #[trigger] unique_hits(s)[j]).meme.id,
        forall|i: int, j: int|
            0 <= i < j < unique_hits(s).len() ==> occurs_before(s, #[trigger] unique_hits(s)[i], #[trigger] unique_hits(s)[j]),
        forall|k: int| 0 <= k < s.len() ==> has_meme(unique_hits(s), (#[trigger] s[k]).meme.id),
        recents_first(s) ==> recents_first(unique_hits(s)),
    decreases s.len(),
{
    if s.len() > 0 {
        let p = s.drop_last();
        lemma_unique_hits_props(p);
        let d = unique_hits(p);
        let u = unique_hits(s);
        assert forall|i: int| 0 <= i < d.len() implies s.contains(#[trigger] d[i]) by {
            let q = choose|q: int| 0 <= q < p.len() && p[q] == d[i];
            assert(s[q] == d[i]);
        }
        assert forall|i: int, j: int| 0 <= i < j < d.len() implies occurs_before(s, #[trigger] d[i], #[trigger] d[j]) by {
            assert(occurs_before(p, d[i], d[j]));
            let (a, b) = choose|a: int, b: int| 0 <= a < b < p.len() && #[trigger] p[a] == d[i] && #[trigger] p[b] == d[j];
            assert(s[a] == d[i] && s[b] == d[j]);
        }
        assert forall|k: int| 0 <= k < p.len() implies has_meme(u, (#[trigger] s[k]).meme.id) by {
            assert(s[k] == p[k]);
            assert(has_meme(d, p[k].meme.id));
            let q = choose|q: int| 0 <= q < d.len() && (#[trigger] d[q]).meme.id == p[k].meme.id;
            if !has_meme(d, s.last().meme.id) {
                assert(u[q] == d[q]);
            }
        }
        if !has_meme(d, s.last().meme.id) {
            assert(u == d.push(s.last()));
            assert(u[d.len() as int] == s[s.len() - 1]);
            assert forall|i: int| 0 <= i < u.len() implies s.contains(#[trigger] u[i]) by {
                if i < d.len() {
                    assert(u[i] == d[i]);
                } else {
                    assert(s[s.len() - 1] == u[i]);
                }
            }
            assert forall|i: int, j: int| 0 <= i < j < u.len() implies (#[trigger] u[i]).meme.id
                != (#[trigger] u[j]).meme.id by {
                if j == d.len() {
                    assert(u[i] == d[i]);
                    if u[i].meme.id == s.last().meme.id {
                        assert(has_meme(d, s.last().meme.id));
                    }
                } else {
                    assert(u[i] == d[i] && u[j] == d[j]);
                }
            }
            assert forall|i: int, j: int| 0 <= i < j < u.len() implies occurs_before(s, #[trigger] u[i], #[trigger] u[j]) by {
                assert(u[i] == d[i]);
                if j == d.len() {
                    let a = choose|a: int| 0 <= a < p.len() && p[a] == d[i];
                    assert(s[a] == u[i] && s[s.len() - 1] == u[j]);
                } else {
                    assert(u[j] == d[j]);
                }
            }
            assert(has_meme(u, s[s.len() - 1].meme.id));
            if recents_first(s) {
                assert(recents_first(p)) by {
                    assert forall|i: int, j: int| 0 <= i < j < p.len() implies !((#[trigger] p[i]).source
                        == ResultSource::Popular && (#[trigger] p[j]).source == ResultSource::Recent) by {
                        assert(p[i] == s[i] && p[j] == s[j]);
                    }
                }
                assert forall|i: int, j: int| 0 <= i < j < u.len() implies !((#[trigger] u[i]).source
                    == ResultSource::Popular && (#[trigger] u[j]).source == ResultSource::Recent) by {
                    if j == d.len() {
                        assert(u[i] == d[i]);
                        assert(p.contains(d[i]));
                        let q = choose|q: int| 0 <= q < p.len() && p[q] == d[i];
                        assert(s[q] == d[i]);
                        assert(s[s.len() - 1] == u[j]);
                    } else {
                        assert(u[i] == d[i] && u[j] == d[j]);
                    }
                }
            }
        } else {
            assert(has_meme(u, s[s.len() - 1].meme.id));
            if recents_first(s) {
                assert(recents_first(p)) by {
                    assert forall|i: int, j: int| 0 <= i < j < p.len() implies !((#[trigger] p[i]).source
                        == ResultSource::Popular && (#[trigger] p[j]).source == ResultSource::Recent) by {
                        assert(p[i] == s[i] && p[j] == s[j]);
                    }
                }
            }
        }
    }
}

/// The hits of `unique_hits(s)` cover exactly the documents of `s`, once each.
proof fn lemma_unique_hits_len(s: Seq<SearchHit>)
    ensures
        unique_hits(s).len() == distinct_documents(s),
{
    broadcast use vstd::seq_lib::seq_to_set_is_finite, vstd::set::group_set_axioms;

    lemma_unique_hits_props(s);
    let u = unique_hits(s);
    let iu = hit_ids(u);
    let is = hit_ids(s);
    assert forall|x: int, y: int| 0 <= x < iu.len() && 0 <= y < iu.len() && x != y implies iu[x] != iu[y] by {
        if x < y {
            assert(u[x].meme.id != u[y].meme.id);
        } else {
            assert(u[y].meme.id != u[x].meme.id);
        }
    }
    iu.unique_seq_to_set();
    assert forall|id: i32| iu.to_set().contains(id) <==> is.to_set().contains(id) by {
        if iu.to_set().contains(id) {
            let q = choose|q: int| 0 <= q < iu.len() && iu[q] == id;
            assert(s.contains(u[q]));
            let k = choose|k: int| 0 <= k < s.len() && s[k] == u[q];
            assert(is[k] == id);
        }
        if is.to_set().contains(id) {
            let k = choose|k: int| 0 <= k < is.len() && is[k] == id;
            assert(has_meme(u, s[k].meme.id));
            let q = choose|q: int| 0 <= q < u.len() && (#[trigger] u[q]).meme.id == id;
            assert(iu[q] == id);
        }
    }
    assert(iu.to_set() =~= is.to_set());
}

/// `x` occurs in `ms` before an occurrence of `y`.
pub open spec fn meme_occurs_before(ms: Seq<Meme>, x: Meme, y: Meme) -> bool {
    exists|a: int, b: int| 0 <= a < b < ms.len() && #[trigger] ms[a] == x && #[trigger] ms[b] == y
}

/// The empty-query page lists each document at most once, never puts a popular hit before a
/// recent one, and every hit is a recent pick tagged recent or a popular document tagged
/// popular. It holds `page_size` hits, or every document of the two lists when they have
/// fewer; the recent hits keep the order of the recent list, the popular hits that of the
/// popular list.
pub proof fn lemma_fallback_composition(recent: Seq<Meme>, popular: Seq<Meme>, page_size: nat)
    ensures
        fallback_page(recent, popular, page_size).len() <= page_size,
        fallback_page(recent, popular, page_size).len() == (if distinct_documents(
            tagged(recent, ResultSource::Recent) + tagged(popular, ResultSource::Popular),
        ) < page_size {
            distinct_documents(tagged(recent, ResultSource::Recent) + tagged(popular, ResultSource::Popular))
        } else {
            page_size
        }),
        forall|i: int, j: int|
            0 <= i < j < fallback_page(recent, popular, page_size).len()
                && (#[trigger] fallback_page(recent, popular, page_size)[i]).source == ResultSource::Recent
                && (#[trigger] fallback_page(recent, popular, page_size)[j]).source == ResultSource::Recent
                ==> meme_occurs_before(
                recent,
                fallback_page(recent, popular, page_size)[i].meme,
                fallback_page(recent, popular, page_size)[j].meme,
            ),
        forall|i: int, j: int|
            0 <= i < j < fallback_page(recent, popular, page_size).len()
                && (#[trigger] fallback_page(recent, popular, page_size)[i]).source == ResultSource::Popular
                && (#[trigger] fallback_page(recent, popular, page_size)[j]).source == ResultSource::Popular
                ==> meme_occurs_before(
                popular,
                fallback_page(recent, popular, page_size)[i].meme,
                fallback_page(recent, popular, page_size)[j].meme,
            ),
        forall|i: int, j: int|
            0 <= i < j < fallback_page(recent, popular, page_size).len() ==> (#[trigger] fallback_page(
                recent,
                popular,
                page_size,
            )[i]).meme.id != (#[trigger] fallback_page(recent, popular, page_size)[j]).meme.id,
        recents_first(fallback_page(recent, popular, page_size)),
        forall|i: int|
            0 <= i < fallback_page(recent, popular, page_size).len() ==> {
                let h = #[trigger] fallback_page(recent, popular, page_size)[i];
                (h.source == ResultSource::Recent && recent.contains(h.meme)) || (h.source
                    == ResultSource::Popular && popular.contains(h.meme))
            },
{
    let tr = tagged(recent, ResultSource::Recent);
    let tp = tagged(popular, ResultSource::Popular);
    let s = tr + tp;
    assert forall|i: int, j: int| 0 <= i < j < s.len() implies !((#[trigger] s[i]).source
        == ResultSource::Popular && (#[trigger] s[j]).source == ResultSource::Recent) by {
        if i < tr.len() {
            assert(s[i] == tr[i]);
        } else {
            assert(s[j] == tp[j - tr.len()]);
        }
    }
    lemma_unique_hits_props(s);
    lemma_unique_hits_len(s);
    let u = unique_hits(s);
    let r = fallback_page(recent, popular, page_size);
    assert forall|i: int, j: int|
        0 <= i < j < r.len() && (#[trigger] r[i]).source == ResultSource::Recent && (#[trigger] r[j]).source
            == ResultSource::Recent implies meme_occurs_before(recent, r[i].meme, r[j].meme) by {
        assert(r[i] == u[i] && r[j] == u[j]);
        assert(occurs_before(s, u[i], u[j]));
        let (a, b) = choose|a: int, b: int| 0 <= a < b < s.len() && #[trigger] s[a] == u[i] && #[trigger] s[b] == u[j];
        if b >= tr.len() {
            assert(s[b] == tp[b - tr.len()]);
        }
        assert(s[a] == tr[a] && s[b] == tr[b]);
        assert(recent[a] == r[i].meme && recent[b] == r[j].meme);
    }
    assert forall|i: int, j: int|
        0 <= i < j < r.len() && (#[trigger] r[i]).source == ResultSource::Popular && (#[trigger] r[j]).source
            == ResultSource::Popular implies meme_occurs_before(popular, r[i].meme, r[j].meme) by {
        assert(r[i] == u[i] && r[j] == u[j]);
        assert(occurs_before(s, u[i], u[j]));
        let (a, b) = choose|a: int, b: int| 0 <= a < b < s.len() && #[trigger] s[a] == u[i] && #[trigger] s[b] == u[j];
        if a < tr.len() {
            assert(s[a] == tr[a]);
        }
        assert(s[a] == tp[a - tr.len()] && s[b] == tp[b - tr.len()]);
        assert(popular[a - tr.len()] == r[i].meme && popular[b - tr.len()] == r[j].meme);
    }
    assert forall|i: int| 0 <= i < r.len() implies r[i] == u[i] by {}
    assert forall|i: int| 0 <= i < r.len() implies {
        let h = #[trigger] r[i];
        (h.source == ResultSource::Recent && recent.contains(h.meme)) || (h.source
            == ResultSource::Popular && popular.contains(h.meme))
    } by {
        assert(r[i] == u[i]);
        assert(s.contains(u[i]));
        let q = choose|q: int| 0 <= q < s.len() && s[q] == u[i];
        if q < tr.len() {
            assert(s[q] == tr[q]);
            assert(recent[q] == r[i].meme);
        } else {
            assert(s[q] == tp[q - tr.len()]);
            assert(popular[q - tr.len()] == r[i].meme);
        }
    }
    assert forall|i: int, j: int| 0 <= i < j < r.len() implies (#[trigger] r[i]).meme.id != (
    #[trigger] r[j]).meme.id by {
        assert(r[i] == u[i] && r[j] == u[j]);
    }
    assert forall|i: int, j: int| 0 <= i < j < r.len() implies !((#[trigger] r[i]).source
        == ResultSource::Popular && (#[trigger] r[j]).source == ResultSource::Recent) by {
        assert(r[i] == u[i] && r[j] == u[j]);
    }
}


/// The query text that the query log records: none for the empty query.
pub fn logged_query(query: &str) -> (r: Option<String>)
    ensures
        query@.len() == 0 ==> r is None,
        query@.len() > 0 ==> (r matches Some(s) && s@ == query@),
{
    if query.unicode_len() == 0 {
        None
    } else {
        Some(String::from_str(query))
    }
}

/// The id of a result on a page: the query-log entry that produced the page, the result's
/// provenance tag and its document, separated by colons.
pub open spec fn result_id_text(log_id: i64, source: ResultSource, meme_id: i32) -> Seq<char> {
    signed_decimal(log_id as int) + seq![':', source_tag(source)] + seq![':'] + signed_decimal(meme_id as int)
}

/// `s` reads as the result id of (`log_id`, `source`, `meme_id`): exactly two colons, an
/// integer before the first, one tag between them, a document id after the second.
pub open spec fn reads_as_result_id(s: Seq<char>, log_id: i64, source: ResultSource, meme_id: i32) -> bool {
    exists|i: int, j: int|
        #![trigger s[i], s[j]]
        0 <= i < j < s.len() && s[i] == ':' && s[j] == ':' && (forall|k: int|
            0 <= k < s.len() && k != i && k != j ==> s[k] != ':') && int_in_range(
            s.subrange(0, i),
            i64::MIN as int,
            i64::MAX as int,
        ) == Some(log_id as int) && s.subrange(i + 1, j) == seq![source_tag(source)] && int_in_range(
            s.subrange(j + 1, s.len() as int),
            i32::MIN as int,
            i32::MAX as int,
        ) == Some(meme_id as int)
}

/// The id of a result.
pub fn format_result_id(log_id: i64, source: ResultSource, meme_id: i32) -> (r: String)
    ensures
        r@ == result_id_text(log_id, source, meme_id),
{
    proof {
        reveal_strlit(":r:");
        reveal_strlit(":p:");
        reveal_strlit(":q:");
    }
    let mid = match source {
        ResultSource::Recent => ":r:",
        ResultSource::Popular => ":p:",
        ResultSource::Query => ":q:",
    };
    let r = signed_decimal_string(log_id).concat(mid).concat(signed_decimal_string(meme_id as i64).as_str());
    assert(r@ =~= result_id_text(log_id, source, meme_id));
    r
}

/// The id of a result reads back as exactly the query-log entry, provenance and document
/// it was made from, so a later "result chosen" event finds the query that produced it.
pub proof fn lemma_result_id_round_trip(log_id: i64, source: ResultSource, meme_id: i32)
    ensures
        reads_as_result_id(result_id_text(log_id, source, meme_id), log_id, source, meme_id),
        forall|l: i64, src: ResultSource, m: i32|
            #[trigger] reads_as_result_id(result_id_text(log_id, source, meme_id), l, src, m) ==> l == log_id
                && src == source && m == meme_id,
{
    let a = signed_decimal(log_id as int);
    let c = signed_decimal(meme_id as int);
    let t = result_id_text(log_id, source, meme_id);
    lemma_signed_decimal_reads_back(log_id as int);
    lemma_signed_decimal_reads_back(meme_id as int);
    assert(':' as u32 == 58);
    let i = a.len() as int;
    let j = i + 2;
    assert(t.len() == a.len() + 3 + c.len());
    assert(t[i] == ':');
    assert(t[i + 1] == source_tag(source));
    assert(t[j] == ':');
    assert(t.subrange(0, i) =~= a);
    assert(t.subrange(i + 1, j) =~= seq![source_tag(source)]);
    assert(t.subrange(j + 1, t.len() as int) =~= c);
    assert forall|k: int| 0 <= k < t.len() && k != i && k != j implies t[k] != ':' by {
        if k < i {
            assert(t[k] == a[k]);
            assert(is_digit(a[k]) || a[k] == '-');
        } else if k == i + 1 {
        } else {
            assert(t[k] == c[k - j - 1]);
            assert(is_digit(c[k - j - 1]) || c[k - j - 1] == '-');
        }
    }
    assert(reads_as_result_id(t, log_id, source, meme_id));
    assert forall|l: i64, src: ResultSource, m: i32|
        #[trigger] reads_as_result_id(t, l, src, m) implies l == log_id && src == source && m == meme_id by {
        let (i2, j2) = choose|i2: int, j2: int|
            #![trigger t[i2], t[j2]]
            0 <= i2 < j2 < t.len() && t[i2] == ':' && t[j2] == ':' && (forall|q: int|
                0 <= q < t.len() && q != i2 && q != j2 ==> t[q] != ':') && int_in_range(
                t.subrange(0, i2),
                i64::MIN as int,
                i64::MAX as int,
            ) == Some(l as int) && t.subrange(i2 + 1, j2) == seq![source_tag(src)] && int_in_range(
                t.subrange(j2 + 1, t.len() as int),
                i32::MIN as int,
                i32::MAX as int,
            ) == Some(m as int);
        assert(i2 == i && j2 == j);
        assert(t.subrange(i2 + 1, j2)[0] == t[i + 1]);
    }
}

/// A chosen result, read back from its id.
#[derive(Clone, Copy, Debug, PartialEq, Eq, Structural)]
pub struct ChosenResult {
    pub log_id: i64,
    pub source: ResultSource,
    pub meme_id: i32,
}

/// Reads a result id back.
pub fn parse_result_id(s: &str) -> (r: Option<ChosenResult>)
    ensures
        r matches Some(c) ==> reads_as_result_id(s@, c.log_id, c.source, c.meme_id),
        r is None ==> forall|l: i64, src: ResultSource, m: i32| !reads_as_result_id(s@, l, src, m),
{
    let n = s.unicode_len();
    let mut first: usize = n;
    let mut second: usize = n;
    let mut k: usize = 0;
    while k < n
        invariant
            n == s@.len(),
            k <= n,
            first <= n,
            second <= n,
            first == n ==> second == n,
            first < n ==> first < k && s@[first as int] == ':' && forall|q: int| 0 <= q < first ==> s@[q] != ':',
            second < n ==> first < second < k && s@[second as int] == ':' && forall|q: int| first < q < second ==> s@[q] != ':',
            first < n && second == n ==> forall|q: int| first < q < k ==> s@[q] != ':',
            first == n ==> forall|q: int| 0 <= q < k ==> s@[q] != ':',
            second < n ==> forall|q: int| second < q < k ==> s@[q] != ':',
        decreases n - k,
    {
        if s.get_char(k) == ':' {
            if first == n {
                first = k;
            } else if second == n {
                second = k;
            } else {
                assert forall|l: i64, src: ResultSource, m: i32| !reads_as_result_id(s@, l, src, m) by {
                    if reads_as_result_id(s@, l, src, m) {
                        let (i, j) = choose|i: int, j: int|
                            #![trigger s@[i], s@[j]]
                            0 <= i < j < s@.len() && s@[i] == ':' && s@[j] == ':' && (forall|q: int|
                                0 <= q < s@.len() && q != i && q != j ==> s@[q] != ':') && int_in_range(
                                s@.subrange(0, i),
                                i64::MIN as int,
                                i64::MAX as int,
                            ) == Some(l as int) && s@.subrange(i + 1, j) == seq![source_tag(src)]
                                && int_in_range(
                                s@.subrange(j + 1, s@.len() as int),
                                i32::MIN as int,
                                i32::MAX as int,
                            ) == Some(m as int);
                        assert(s@[first as int] == ':' && s@[second as int] == ':' && s@[k as int] == ':');
                    }
                }
                return None;
            }
        }
        k += 1;
    }
    if second == n {
        assert forall|l: i64, src: ResultSource, m: i32| !reads_as_result_id(s@, l, src, m) by {
            if reads_as_result_id(s@, l, src, m) {
                let (i, j) = choose|i: int, j: int|
                    #![trigger s@[i], s@[j]]
                    0 <= i < j < s@.len() && s@[i] == ':' && s@[j] == ':' && (forall|q: int|
                        0 <= q < s@.len() && q != i && q != j ==> s@[q] != ':') && int_in_range(
                        s@.subrange(0, i),
                        i64::MIN as int,
                        i64::MAX as int,
                    ) == Some(l as int) && s@.subrange(i + 1, j) == seq![source_tag(src)]
                        && int_in_range(
                        s@.subrange(j + 1, s@.len() as int),
                        i32::MIN as int,
                        i32::MAX as int,
                    ) == Some(m as int);
                assert(s@[i] == ':' && s@[j] == ':');
            }
        }
        return None;
    }
    let ghost sv = s@;
    assert forall|i: int, j: int|
        0 <= i < j < sv.len() && sv[i] == ':' && sv[j] == ':' implies i == first && j == second by {
        assert(sv[i] == ':');
        assert(sv[j] == ':');
    }
    let log = parse_int(s, 0, first, i64::MIN, i64::MAX);
    let meme = parse_int(s, second + 1, n, i32::MIN as i64, i32::MAX as i64);
    let src = if second == first + 2 {
        ResultSource::from_tag(s.get_char(first + 1))
    } else {
        None
    };
    match (log, src, meme) {
        (Some(l), Some(src), Some(m)) => {
            assert(sv.subrange(first + 1, second as int) =~= seq![source_tag(src)]);
            assert(forall|q: int| 0 <= q < sv.len() && q != first && q != second ==> sv[q] != ':');
            Some(ChosenResult { log_id: l, source: src, meme_id: m as i32 })
        },
        _ => {
            assert forall|l: i64, src2: ResultSource, m: i32| !reads_as_result_id(sv, l, src2, m) by {
                if reads_as_result_id(sv, l, src2, m) {
                    let (i, j) = choose|i: int, j: int|
                        #![trigger sv[i], sv[j]]
                        0 <= i < j < sv.len() && sv[i] == ':' && sv[j] == ':' && (forall|q: int|
                            0 <= q < sv.len() && q != i && q != j ==> sv[q] != ':') && int_in_range(
                            sv.subrange(0, i),
                            i64::MIN as int,
                            i64::MAX as int,
                        ) == Some(l as int) && sv.subrange(i + 1, j) == seq![source_tag(src2)]
                            && int_in_range(
                            sv.subrange(j + 1, sv.len() as int),
                            i32::MIN as int,
                            i32::MAX as int,
                        ) == Some(m as int);
                    assert(i == first && j == second);
                    let mid = sv.subrange(i + 1, j);
                    assert(mid.len() == 1);
                    assert(mid[0] == sv[first + 1]);
                }
            }
            None
        },
    }
}

} // verus!
