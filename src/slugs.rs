//! Document slugs: unique at every moment, with every former slug left as a redirect to
//! its document.

use crate::text::{decimal, decimal_string, lemma_decimal_digits};
use vstd::prelude::*;
use vstd::string::StringExecFns;

verus! {

/// The slug tried at a given attempt when looking for a free one: the wanted slug itself,
/// then `<slug>-1`, `<slug>-2`, ...
pub open spec fn slug_attempt(base: Seq<char>, attempt: nat) -> Seq<char> {
    if attempt == 0 {
        base
    } else {
        base + seq!['-'] + decimal(attempt)
    }
}

/// The slug to try at `attempt`.
pub fn slug_candidate(base: &str, attempt: u64) -> (r: String)
    ensures
        r@ == slug_attempt(base@, attempt as nat),
{
    if attempt == 0 {
        String::from_str(base)
    } else {
        proof {
            reveal_strlit("-");
        }
        let d = decimal_string(attempt);
        let r = String::from_str(base).concat("-").concat(d.as_str());
        assert(r@ =~= slug_attempt(base@, attempt as nat));
        r
    }
}

/// Different attempts give different slugs.
proof fn lemma_attempts_distinct(base: Seq<char>, a: nat, b: nat)
    requires
        slug_attempt(base, a) == slug_attempt(base, b),
    ensures
        a == b,
{
    lemma_decimal_digits(a);
    lemma_decimal_digits(b);
    if a > 0 && b > 0 {
        let sa = slug_attempt(base, a);
        let sb = slug_attempt(base, b);
        assert(sa.subrange((base.len() + 1) as int, sa.len() as int) =~= decimal(a));
        assert(sb.subrange((base.len() + 1) as int, sb.len() as int) =~= decimal(b));
    } else if a > 0 || b > 0 {
        assert(slug_attempt(base, a).len() != slug_attempt(base, b).len());
    }
}

/// Attempt `b` is held by an entry of `pairs`.
pub open spec fn attempt_held(pairs: Seq<(Seq<char>, i32)>, base: Seq<char>, b: nat) -> bool {
    exists|j: int| 0 <= j < pairs.len() && (#[trigger] pairs[j]).0 == slug_attempt(base, b)
}

/// If the first `a` attempts are all held by entries of `pairs`, there are at least `a`
/// entries.
proof fn lemma_attempts_bounded(pairs: Seq<(Seq<char>, i32)>, base: Seq<char>, a: nat)
    requires
        forall|b: nat| b < a ==> #[trigger] attempt_held(pairs, base, b),
    ensures
        a <= pairs.len(),
{
    broadcast use vstd::seq_lib::seq_to_set_is_finite, vstd::set::group_set_axioms;

    let idx = Seq::new(
        a,
        |b: int| choose|j: int| 0 <= j < pairs.len() && (#[trigger] pairs[j]).0 == slug_attempt(base, b as nat),
    );
    assert forall|b: int| 0 <= b < a implies 0 <= #[trigger] idx[b] < pairs.len() && pairs[idx[b]].0
        == slug_attempt(base, b as nat) by {
        assert(attempt_held(pairs, base, b as nat));
    }
    assert forall|x: int, y: int| 0 <= x < idx.len() && 0 <= y < idx.len() && x != y implies idx[x] != idx[y] by {
        if idx[x] == idx[y] {
            lemma_attempts_distinct(base, x as nat, y as nat);
        }
    }
    idx.unique_seq_to_set();
    vstd::set_lib::lemma_int_range(0, pairs.len() as int);
    assert(idx.to_set().subset_of(vstd::set_lib::set_int_range(0, pairs.len() as int)));
    vstd::set_lib::lemma_len_subset(idx.to_set(), vstd::set_lib::set_int_range(0, pairs.len() as int));
}

/// Why a slug change was refused.
#[derive(Clone, Copy, Debug, PartialEq, Eq, Structural)]
pub enum SlugError {
    /// Another document holds the slug.
    SlugTaken,
    /// No document has this id.
    UnknownDocument,
    /// A document with this id is already registered.
    DuplicateDocument,
}

/// Slug/id pairs as sequences of characters.
pub open spec fn pairs_view(v: Seq<(String, i32)>) -> Seq<(Seq<char>, i32)> {
    v.map_values(|e: (String, i32)| (e.0@, e.1))
}

/// The pair (`slug`, `id`) is in `s`.
pub open spec fn has_pair(s: Seq<(Seq<char>, i32)>, slug: Seq<char>, id: i32) -> bool {
    exists|j: int| 0 <= j < s.len() && (#[trigger] s[j]).0 == slug && s[j].1 == id
}

/// No two pairs share a slug.
pub open spec fn slugs_unique(s: Seq<(Seq<char>, i32)>) -> bool {
    forall|i: int, j: int| 0 <= i < s.len() && 0 <= j < s.len() && i != j ==> (#[trigger] s[i]).0 != (#[trigger] s[j]).0
}

/// No two pairs share an id.
pub open spec fn ids_unique(s: Seq<(Seq<char>, i32)>) -> bool {
    forall|i: int, j: int| 0 <= i < s.len() && 0 <= j < s.len() && i != j ==> (#[trigger] s[i]).1 != (#[trigger] s[j]).1
}

/// The registry of documents' current slugs and of redirects from former slugs.
pub struct SlugDirectory {
    docs: Vec<(String, i32)>,
    redirects: Vec<(String, i32)>,
}

fn find_slug(v: &Vec<(String, i32)>, slug: &String) -> (r: Option<usize>)
    ensures
        r matches Some(j) ==> j < v.len() && v@[j as int].0@ == slug@,
        r is None ==> forall|j: int| 0 <= j < v.len() ==> (#[trigger] v@[j]).0@ != slug@,
{
    let mut j: usize = 0;
    while j < v.len()
        invariant
            j <= v.len(),
            forall|q: int| 0 <= q < j ==> (#[trigger] v@[q]).0@ != slug@,
        decreases v.len() - j,
    {
        if v[j].0 == *slug {
            return Some(j);
        }
        j += 1;
    }
    None
}

fn find_id(v: &Vec<(String, i32)>, id: i32) -> (r: Option<usize>)
    ensures
        r matches Some(j) ==> j < v.len() && v@[j as int].1 == id,
        r is None ==> forall|j: int| 0 <= j < v.len() ==> (#[trigger] v@[j]).1 != id,
{
    let mut j: usize = 0;
    while j < v.len()
        invariant
            j <= v.len(),
            forall|q: int| 0 <= q < j ==> (#[trigger] v@[q]).1 != id,
        decreases v.len() - j,
    {
        if v[j].1 == id {
            return Some(j);
        }
        j += 1;
    }
    None
}

impl SlugDirectory {
    /// The document `id` is addressed by `slug` now.
    pub closed spec fn addressed(&self, slug: Seq<char>, id: i32) -> bool {
        has_pair(pairs_view(self.docs@), slug, id)
    }

    /// `slug` is a former slug of document `id`.
    pub closed spec fn redirected(&self, slug: Seq<char>, id: i32) -> bool {
        has_pair(pairs_view(self.redirects@), slug, id)
    }

    /// Current slugs are unique and each document has one; a former slug redirects to one
    /// document.
    pub closed spec fn wf(&self) -> bool {
        &&& slugs_unique(pairs_view(self.docs@))
        &&& ids_unique(pairs_view(self.docs@))
        &&& slugs_unique(pairs_view(self.redirects@))
    }

    /// Document `id` is registered.
    pub open spec fn has_doc(&self, id: i32) -> bool {
        exists|s: Seq<char>| self.addressed(s, id)
    }

    /// Looking up `slug` reaches document `id`: directly, or else through a redirect to a
    /// registered document.
    pub open spec fn resolves(&self, slug: Seq<char>, id: i32) -> bool {
        self.addressed(slug, id) || ((forall|d: i32| !self.addressed(slug, d)) && self.redirected(
            slug,
            id,
        ) && self.has_doc(id))
    }

    /// An empty registry.
    pub fn new() -> (d: Self)
        ensures
            d.wf(),
            forall|s: Seq<char>, id: i32| !d.addressed(s, id) && !d.redirected(s, id),
    {
        SlugDirectory { docs: Vec::new(), redirects: Vec::new() }
    }

    /// Some document is addressed by `slug`.
    pub open spec fn slug_held(&self, slug: Seq<char>) -> bool {
        exists|d: i32| self.addressed(slug, d)
    }

    /// The first of `base`, `base-1`, `base-2`, ... that no document holds.
    pub fn available_slug(&self, base: &str) -> (r: String)
        ensures
            exists|a: nat|
                #[trigger] slug_attempt(base@, a) == r@ && (forall|b: nat| b < a ==> #[trigger] self.slug_held(slug_attempt(base@, b))),
            !self.slug_held(r@),
    {
        let ghost v = pairs_view(self.docs@);
        let mut a: u64 = 0;
        loop
            invariant
                v == pairs_view(self.docs@),
                a <= v.len(),
                forall|b: nat| b < a ==> #[trigger] attempt_held(v, base@, b),
            decreases v.len() - a,
        {
            let c = slug_candidate(base, a);
            match find_slug(&self.docs, &c) {
                None => {
                    assert(!self.slug_held(c@)) by {
                        if self.slug_held(c@) {
                            let d = choose|d: i32| self.addressed(c@, d);
                            let j = choose|j: int| 0 <= j < v.len() && (#[trigger] v[j]).0 == c@ && v[j].1 == d;
                            assert(self.docs@[j].0@ == c@);
                        }
                    }
                    assert forall|b: nat| b < a implies #[trigger] self.slug_held(slug_attempt(base@, b)) by {
                        assert(attempt_held(v, base@, b));
                        let j = choose|j: int| 0 <= j < v.len() && (#[trigger] v[j]).0 == slug_attempt(base@, b);
                        assert(self.addressed(slug_attempt(base@, b), v[j].1));
                    }
                    assert(slug_attempt(base@, a as nat) == c@);
                    return c;
                },
                Some(j) => {
                    assert(v[j as int].0 == slug_attempt(base@, a as nat));
                    assert(attempt_held(v, base@, a as nat));
                    proof {
                        lemma_attempts_bounded(v, base@, (a + 1) as nat);
                    }
                },
            }
            a += 1;
        }
    }

    /// Registers a new document under `slug`.
    pub fn add_document(&mut self, slug: String, id: i32) -> (r: Result<(), SlugError>)
        requires
            old(self).wf(),
        ensures
            final(self).wf(),
            (exists|d: i32| old(self).addressed(slug@, d)) ==> r == Err::<(), SlugError>(SlugError::SlugTaken),
            !(exists|d: i32| old(self).addressed(slug@, d)) && old(self).has_doc(id) ==> r == Err::<(), SlugError>(
                SlugError::DuplicateDocument,
            ),
            r is Err ==> *final(self) == *old(self),
            r is Ok ==> !(exists|d: i32| old(self).addressed(slug@, d)) && !old(self).has_doc(id),
            !(exists|d: i32| old(self).addressed(slug@, d)) && !old(self).has_doc(id) ==> r is Ok,
            r is Ok ==> forall|s: Seq<char>, d: i32|
                final(self).addressed(s, d) <==> (old(self).addressed(s, d) || (s == slug@ && d == id)),
            forall|s: Seq<char>, d: i32| final(self).redirected(s, d) == old(self).redirected(s, d),
    {
        let ghost v = pairs_view(self.docs@);
        match find_slug(&self.docs, &slug) {
            Some(j) => {
                assert(v[j as int].0 == slug@);
                assert(self.addressed(slug@, v[j as int].1));
                return Err(SlugError::SlugTaken);
            },
            None => {},
        }
        assert(!(exists|d: i32| self.addressed(slug@, d))) by {
            if exists|d: i32| self.addressed(slug@, d) {
                let d = choose|d: i32| self.addressed(slug@, d);
                let j = choose|j: int| 0 <= j < v.len() && (#[trigger] v[j]).0 == slug@ && v[j].1 == d;
                assert(self.docs@[j].0@ == slug@);
            }
        }
        match find_id(&self.docs, id) {
            Some(j) => {
                assert(self.addressed(v[j as int].0, id));
                return Err(SlugError::DuplicateDocument);
            },
            None => {},
        }
        assert(!self.has_doc(id)) by {
            if self.has_doc(id) {
                let s = choose|s: Seq<char>| self.addressed(s, id);
                let j = choose|j: int| 0 <= j < v.len() && (#[trigger] v[j]).0 == s && v[j].1 == id;
                assert(self.docs@[j].1 == id);
            }
        }
        let ghost old_self = *self;
        self.docs.push((slug, id));
        let ghost w = pairs_view(self.docs@);
        assert(w =~= v.push((slug@, id)));
        assert forall|s: Seq<char>, d: i32| self.addressed(s, d) <==> (old_self.addressed(s, d) || (s == slug@ && d == id)) by {
            if self.addressed(s, d) {
                let j = choose|j: int| 0 <= j < w.len() && (#[trigger] w[j]).0 == s && w[j].1 == d;
                if j < v.len() {
                    assert(v[j] == w[j]);
                }
            }
            if old_self.addressed(s, d) {
                let j = choose|j: int| 0 <= j < v.len() && (#[trigger] v[j]).0 == s && v[j].1 == d;
                assert(w[j] == v[j]);
            }
            if s == slug@ && d == id {
                assert(w[v.len() as int] == (slug@, id));
            }
        }
        assert forall|i: int, j: int| 0 <= i < w.len() && 0 <= j < w.len() && i != j implies (#[trigger] w[i]).0 != (#[trigger] w[j]).0 && w[i].1 != w[j].1 by {
            if i < v.len() && j < v.len() {
                assert(w[i] == v[i] && w[j] == v[j]);
            } else if i < v.len() {
                assert(w[i] == v[i]);
                assert(self.docs@[i].0@ != slug@);
                assert(self.docs@[i].1 != id);
            } else {
                assert(w[j] == v[j]);
                assert(self.docs@[j].0@ != slug@);
                assert(self.docs@[j].1 != id);
            }
        }
        Ok(())
    }

    /// Records `slug` as a former slug of `id`, replacing an earlier redirect of that slug.
    fn upsert_redirect(&mut self, slug: String, id: i32)
        requires
            slugs_unique(pairs_view(old(self).redirects@)),
        ensures
            final(self).docs == old(self).docs,
            slugs_unique(pairs_view(final(self).redirects@)),
            forall|s: Seq<char>, d: i32|
                final(self).redirected(s, d) <==> ((old(self).redirected(s, d) && s != slug@) || (s == slug@ && d
                    == id)),
    {
        let ghost v = pairs_view(self.redirects@);
        let ghost old_self = *self;
        let ghost key = slug@;
        match find_slug(&self.redirects, &slug) {
            Some(j) => {
                self.redirects[j] = (slug, id);
                let ghost w = pairs_view(self.redirects@);
                assert(w =~= v.update(j as int, (key, id)));
                assert forall|s: Seq<char>, d: i32| #[trigger] self.redirected(s, d) <==> ((old_self.redirected(s, d) && s != key) || (s == key && d == id)) by {
                    if self.redirected(s, d) {
                        let q = choose|q: int| 0 <= q < w.len() && (#[trigger] w[q]).0 == s && w[q].1 == d;
                        if q != j {
                            assert(v[q] == w[q]);
                            assert(v[q].0 != v[j as int].0);
                        }
                    }
                    if old_self.redirected(s, d) && s != key {
                        let q = choose|q: int| 0 <= q < v.len() && (#[trigger] v[q]).0 == s && v[q].1 == d;
                        assert(q != j);
                        assert(w[q] == v[q]);
                    }
                    if s == key && d == id {
                        assert(w[j as int] == (key, id));
                    }
                }
                assert forall|a: int, b: int| 0 <= a < w.len() && 0 <= b < w.len() && a != b implies (#[trigger] w[a]).0 != (#[trigger] w[b]).0 by {
                    if a != j && b != j {
                        assert(w[a] == v[a] && w[b] == v[b]);
                    } else if a == j {
                        assert(w[b] == v[b]);
                        assert(v[b].0 != v[j as int].0);
                    } else {
                        assert(w[a] == v[a]);
                        assert(v[a].0 != v[j as int].0);
                    }
                }
                return;
            },
            None => {
                self.redirects.push((slug, id));
                let ghost w = pairs_view(self.redirects@);
                assert(w =~= v.push((key, id)));
                assert forall|s: Seq<char>, d: i32| #[trigger] self.redirected(s, d) <==> ((old_self.redirected(s, d) && s != key) || (s == key && d == id)) by {
                    if self.redirected(s, d) {
                        let q = choose|q: int| 0 <= q < w.len() && (#[trigger] w[q]).0 == s && w[q].1 == d;
                        if q < v.len() {
                            assert(v[q] == w[q]);
                            assert(old_self.redirects@[q].0@ != key);
                        }
                    }
                    if old_self.redirected(s, d) && s != key {
                        let q = choose|q: int| 0 <= q < v.len() && (#[trigger] v[q]).0 == s && v[q].1 == d;
                        assert(w[q] == v[q]);
                    }
                    if s == key && d == id {
                        assert(w[v.len() as int] == (key, id));
                    }
                }
                assert forall|a: int, b: int| 0 <= a < w.len() && 0 <= b < w.len() && a != b implies (#[trigger] w[a]).0 != (#[trigger] w[b]).0 by {
                    if a < v.len() && b < v.len() {
                        assert(w[a] == v[a] && w[b] == v[b]);
                    } else if a < v.len() {
                        assert(w[a] == v[a]);
                        assert(old_self.redirects@[a].0@ != key);
                    } else {
                        assert(w[b] == v[b]);
                        assert(old_self.redirects@[b].0@ != key);
                    }
                }
            },
        }
    }

    /// Two documents never share a current slug.
    pub proof fn lemma_addressed_unique(&self, slug: Seq<char>, a: i32, b: i32)
        requires
            self.wf(),
            self.addressed(slug, a),
            self.addressed(slug, b),
        ensures
            a == b,
    {
        let v = pairs_view(self.docs@);
        let i = choose|i: int| 0 <= i < v.len() && (#[trigger] v[i]).0 == slug && v[i].1 == a;
        let j = choose|j: int| 0 <= j < v.len() && (#[trigger] v[j]).0 == slug && v[j].1 == b;
    }

    /// Document `id` moved from slug `a` to slug `b`: `b` now addresses it, and `a`
    /// redirects to it.
    pub open spec fn renamed(before: SlugDirectory, after: SlugDirectory, id: i32, a: Seq<char>, b: Seq<char>) -> bool {
        &&& forall|s: Seq<char>, d: i32|
            #[trigger] after.addressed(s, d) <==> ((before.addressed(s, d) && d != id) || (s == b && d == id))
        &&& forall|s: Seq<char>, d: i32|
            #[trigger] after.redirected(s, d) <==> ((before.redirected(s, d) && s != a) || (s == a && d == id))
    }

    /// Gives document `id` the slug `new_slug`; its former slug becomes a redirect to it.
    /// Fails when no document has this id or another one holds the slug; keeping the same
    /// slug changes nothing.
    pub fn rename(&mut self, id: i32, new_slug: String) -> (r: Result<(), SlugError>)
        requires
            old(self).wf(),
        ensures
            final(self).wf(),
            !old(self).has_doc(id) ==> r == Err::<(), SlugError>(SlugError::UnknownDocument),
            old(self).has_doc(id) && !old(self).addressed(new_slug@, id) && (exists|d: i32| old(self).addressed(new_slug@, d))
                ==> r == Err::<(), SlugError>(SlugError::SlugTaken),
            r is Err || old(self).addressed(new_slug@, id) ==> *final(self) == *old(self),
            old(self).addressed(new_slug@, id) ==> r is Ok,
            forall|a: Seq<char>|
                #[trigger] old(self).addressed(a, id) && a != new_slug@ && !(exists|d: i32| old(self).addressed(new_slug@, d))
                    ==> r is Ok && SlugDirectory::renamed(*old(self), *final(self), id, a, new_slug@),
    {
        let ghost before = *self;
        let ghost v = pairs_view(self.docs@);
        let i = match find_id(&self.docs, id) {
            None => {
                assert(!self.has_doc(id)) by {
                    if self.has_doc(id) {
                        let s = choose|s: Seq<char>| self.addressed(s, id);
                        let j = choose|j: int| 0 <= j < v.len() && (#[trigger] v[j]).0 == s && v[j].1 == id;
                        assert(self.docs@[j].1 == id);
                    }
                }
                return Err(SlugError::UnknownDocument);
            },
            Some(i) => i,
        };
        let ghost a = v[i as int].0;
        assert(self.addressed(a, id));
        assert(self.has_doc(id));
        if self.docs[i].0 == new_slug {
            return Ok(());
        }
        assert(!self.addressed(new_slug@, id)) by {
            if self.addressed(new_slug@, id) {
                let j = choose|j: int| 0 <= j < v.len() && (#[trigger] v[j]).0 == new_slug@ && v[j].1 == id;
                assert(v[j].1 == v[i as int].1);
            }
        }
        assert forall|a2: Seq<char>| #[trigger] self.addressed(a2, id) implies a2 == a by {
            let j = choose|j: int| 0 <= j < v.len() && (#[trigger] v[j]).0 == a2 && v[j].1 == id;
            assert(v[j].1 == v[i as int].1);
        }
        match find_slug(&self.docs, &new_slug) {
            Some(j) => {
                assert(self.addressed(new_slug@, v[j as int].1));
                return Err(SlugError::SlugTaken);
            },
            None => {},
        }
        assert(!(exists|d: i32| self.addressed(new_slug@, d))) by {
            if exists|d: i32| self.addressed(new_slug@, d) {
                let d = choose|d: i32| self.addressed(new_slug@, d);
                let j = choose|j: int| 0 <= j < v.len() && (#[trigger] v[j]).0 == new_slug@ && v[j].1 == d;
                assert(self.docs@[j].0@ == new_slug@);
            }
        }
        let old_slug = self.docs[i].0.clone();
        self.upsert_redirect(old_slug, id);
        let ghost mid = *self;
        let ghost b = new_slug@;
        self.docs[i] = (new_slug, id);
        let ghost w = pairs_view(self.docs@);
        assert(w =~= v.update(i as int, (b, id)));
        assert forall|s: Seq<char>, d: i32|
            #[trigger] self.addressed(s, d) <==> ((before.addressed(s, d) && d != id) || (s == b && d == id)) by {
            if self.addressed(s, d) {
                let q = choose|q: int| 0 <= q < w.len() && (#[trigger] w[q]).0 == s && w[q].1 == d;
                if q != i {
                    assert(v[q] == w[q]);
                    assert(v[q].1 != v[i as int].1);
                }
            }
            if before.addressed(s, d) && d != id {
                let q = choose|q: int| 0 <= q < v.len() && (#[trigger] v[q]).0 == s && v[q].1 == d;
                assert(q != i);
                assert(w[q] == v[q]);
            }
            if s == b && d == id {
                assert(w[i as int] == (b, id));
            }
        }
        assert forall|s: Seq<char>, d: i32|
            #[trigger] self.redirected(s, d) <==> ((before.redirected(s, d) && s != a) || (s == a && d == id)) by {
            assert(self.redirected(s, d) == mid.redirected(s, d));
        }
        assert forall|x: int, y: int| 0 <= x < w.len() && 0 <= y < w.len() && x != y implies (#[trigger] w[x]).0 != (#[trigger] w[y]).0 && w[x].1 != w[y].1 by {
            if x != i && y != i {
                assert(w[x] == v[x] && w[y] == v[y]);
            } else if x == i {
                assert(w[y] == v[y]);
                assert(before.docs@[y].0@ != b);
            } else {
                assert(w[x] == v[x]);
                assert(before.docs@[x].0@ != b);
            }
        }
        assert(SlugDirectory::renamed(before, *self, id, a, b));
        Ok(())
    }

    /// Records a stored redirect: `slug` is a former slug of document `id`, replacing any
    /// earlier redirect of that slug.
    pub fn record_redirect(&mut self, slug: String, id: i32)
        requires
            old(self).wf(),
        ensures
            final(self).wf(),
            forall|s: Seq<char>, d: i32| #[trigger] final(self).addressed(s, d) == old(self).addressed(s, d),
            forall|s: Seq<char>, d: i32|
                #[trigger] final(self).redirected(s, d) <==> ((old(self).redirected(s, d) && s != slug@) || (s == slug@
                    && d == id)),
    {
        self.upsert_redirect(slug, id);
    }

    /// Moves document `id` to the slug it asks for, or, when another document holds that, to
    /// the first free one of `wanted-1`, `wanted-2`, ...; its former slug becomes a redirect to
    /// it. Asking for its current slug changes nothing. Returns the slug it now has.
    pub fn update_slug(&mut self, id: i32, wanted: &str) -> (r: Result<String, SlugError>)
        requires
            old(self).wf(),
        ensures
            final(self).wf(),
            !old(self).has_doc(id) ==> r == Err::<String, SlugError>(SlugError::UnknownDocument)
                && *final(self) == *old(self),
            old(self).addressed(wanted@, id) ==> *final(self) == *old(self) && (r matches Ok(s)
                && s@ == wanted@),
            forall|a: Seq<char>|
                #[trigger] old(self).addressed(a, id) && a != wanted@ ==> (r matches Ok(s) && (exists|n: nat|
                    #[trigger] slug_attempt(wanted@, n) == s@ && (forall|b: nat|
                        b < n ==> #[trigger] old(self).slug_held(slug_attempt(wanted@, b)))) && !old(
                    self,
                ).slug_held(s@) && SlugDirectory::renamed(*old(self), *final(self), id, a, s@)),
    {
        let ghost v = pairs_view(self.docs@);
        let i = match find_id(&self.docs, id) {
            None => {
                assert(!self.has_doc(id)) by {
                    if self.has_doc(id) {
                        let s = choose|s: Seq<char>| self.addressed(s, id);
                        let j = choose|j: int| 0 <= j < v.len() && (#[trigger] v[j]).0 == s && v[j].1 == id;
                        assert(self.docs@[j].1 == id);
                    }
                }
                return Err(SlugError::UnknownDocument);
            },
            Some(i) => i,
        };
        let ghost a = v[i as int].0;
        assert(self.addressed(a, id));
        assert forall|a2: Seq<char>| #[trigger] self.addressed(a2, id) implies a2 == a by {
            let j = choose|j: int| 0 <= j < v.len() && (#[trigger] v[j]).0 == a2 && v[j].1 == id;
            assert(v[j].1 == v[i as int].1);
        }
        let want = String::from_str(wanted);
        if self.docs[i].0 == want {
            return Ok(want);
        }
        let chosen = self.available_slug(wanted);
        assert(self.slug_held(a));
        let ghost before = *self;
        match self.rename(id, chosen.clone()) {
            Ok(()) => {
                assert(SlugDirectory::renamed(before, *self, id, a, chosen@));
                Ok(chosen)
            },
            Err(e) => {
                assert(false);
                Err(e)
            },
        }
    }

    /// The document that `slug` reaches, directly or through a redirect.
    pub fn resolve(&self, slug: &String) -> (r: Option<i32>)
        requires
            self.wf(),
        ensures
            r matches Some(id) ==> self.resolves(slug@, id) && forall|d: i32| #[trigger] self.resolves(slug@, d) ==> d == id,
            r is None ==> forall|d: i32| !#[trigger] self.resolves(slug@, d),
    {
        let ghost v = pairs_view(self.docs@);
        let ghost rv = pairs_view(self.redirects@);
        match find_slug(&self.docs, slug) {
            Some(j) => {
                let id = self.docs[j].1;
                assert(self.addressed(slug@, id)) by {
                    assert(v[j as int].0 == slug@ && v[j as int].1 == id);
                }
                assert forall|d: i32| #[trigger] self.resolves(slug@, d) implies d == id by {
                    if self.addressed(slug@, d) {
                        self.lemma_addressed_unique(slug@, d, id);
                    }
                }
                return Some(id);
            },
            None => {},
        }
        assert forall|d: i32| !self.addressed(slug@, d) by {
            if self.addressed(slug@, d) {
                let j = choose|j: int| 0 <= j < v.len() && (#[trigger] v[j]).0 == slug@ && v[j].1 == d;
                assert(self.docs@[j].0@ == slug@);
            }
        }
        match find_slug(&self.redirects, slug) {
            Some(j) => {
                let id = self.redirects[j].1;
                assert(self.redirected(slug@, id)) by {
                    assert(rv[j as int].0 == slug@ && rv[j as int].1 == id);
                }
                assert forall|d: i32| #[trigger] self.redirected(slug@, d) implies d == id by {
                    let q = choose|q: int| 0 <= q < rv.len() && (#[trigger] rv[q]).0 == slug@ && rv[q].1 == d;
                    assert(rv[q].0 == rv[j as int].0);
                }
                match find_id(&self.docs, id) {
                    Some(k) => {
                        assert(self.addressed(v[k as int].0, id));
                        Some(id)
                    },
                    None => {
                        assert(!self.has_doc(id)) by {
                            if self.has_doc(id) {
                                let s = choose|s: Seq<char>| self.addressed(s, id);
                                let q = choose|q: int| 0 <= q < v.len() && (#[trigger] v[q]).0 == s && v[q].1 == id;
                                assert(self.docs@[q].1 == id);
                            }
                        }
                        None
                    },
                }
            },
            None => {
                assert forall|d: i32| !self.redirected(slug@, d) by {
                    if self.redirected(slug@, d) {
                        let q = choose|q: int| 0 <= q < rv.len() && (#[trigger] rv[q]).0 == slug@ && rv[q].1 == d;
                        assert(self.redirects@[q].0@ == slug@);
                    }
                }
                None
            },
        }
    }

    /// The current slug of the document that a former slug redirects to.
    pub fn get_slug_redirect(&self, slug: &String) -> (r: Option<String>)
        requires
            self.wf(),
        ensures
            r matches Some(s) ==> exists|id: i32| #[trigger] self.redirected(slug@, id) && self.addressed(s@, id),
            r is None ==> forall|id: i32| #[trigger] self.redirected(slug@, id) ==> !self.has_doc(id),
    {
        let ghost v = pairs_view(self.docs@);
        let ghost rv = pairs_view(self.redirects@);
        match find_slug(&self.redirects, slug) {
            Some(j) => {
                let id = self.redirects[j].1;
                assert(self.redirected(slug@, id)) by {
                    assert(rv[j as int].0 == slug@ && rv[j as int].1 == id);
                }
                match find_id(&self.docs, id) {
                    Some(k) => {
                        let s = self.docs[k].0.clone();
                        assert(self.addressed(s@, id)) by {
                            assert(v[k as int].0 == s@ && v[k as int].1 == id);
                        }
                        return Some(s);
                    },
                    None => {
                        assert forall|d: i32| #[trigger] self.redirected(slug@, d) implies !self.has_doc(d) by {
                            let q = choose|q: int| 0 <= q < rv.len() && (#[trigger] rv[q]).0 == slug@ && rv[q].1 == d;
                            assert(rv[q].0 == rv[j as int].0);
                            if self.has_doc(d) {
                                let s = choose|s: Seq<char>| self.addressed(s, d);
                                let x = choose|x: int| 0 <= x < v.len() && (#[trigger] v[x]).0 == s && v[x].1 == d;
                                assert(self.docs@[x].1 == id);
                            }
                        }
                        None
                    },
                }
            },
            None => {
                assert forall|d: i32| #[trigger] self.redirected(slug@, d) implies !self.has_doc(d) by {
                    let q = choose|q: int| 0 <= q < rv.len() && (#[trigger] rv[q]).0 == slug@ && rv[q].1 == d;
                    assert(self.redirects@[q].0@ == slug@);
                }
                None
            },
        }
    }
} // impl SlugDirectory

/// Renaming a document from slug `a` to slug `b` leaves both reaching it: `b` directly and
/// `a` through its redirect; a slug that was never assigned still reaches nothing.
pub proof fn lemma_slug_redirect_round_trip(
    before: SlugDirectory,
    after: SlugDirectory,
    id: i32,
    a: Seq<char>,
    b: Seq<char>,
    never: Seq<char>,
)
    requires
        before.wf(),
        before.addressed(a, id),
        a != b,
        SlugDirectory::renamed(before, after, id, a, b),
    ensures
        after.resolves(b, id),
        after.resolves(a, id),
        never != b && (forall|d: i32| !before.addressed(never, d) && !before.redirected(never, d))
            ==> forall|d: i32| !#[trigger] after.resolves(never, d),
{
    assert(after.addressed(b, id));
    assert forall|d: i32| !after.addressed(a, d) by {
        if after.addressed(a, d) {
            before.lemma_addressed_unique(a, d, id);
        }
    }
    assert(after.redirected(a, id));
    if never != b && (forall|d: i32| !before.addressed(never, d) && !before.redirected(never, d)) {
        assert forall|d: i32| !#[trigger] after.resolves(never, d) by {
            assert(!after.addressed(never, d));
            assert(!after.redirected(never, d));
        }
    }
}

} // verus!
