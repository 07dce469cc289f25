//! The catalog: an immutable mapping from show key to show, built once
//! by the loader, with keys kept strictly sorted, and a deterministic
//! sorted listing of `(key, title)` pairs.

use vstd::prelude::*;

use crate::strorder::{
    lemma_lex_lt_irrefl, lemma_lex_lt_total, lemma_lex_lt_trans, lex_lt, str_eq, str_lt,
};
use crate::types::{check_show, valid_show, Show, ShowView};

verus! {

/// Why loading a set of show definitions failed, and for which
/// identifier.
#[derive(Debug)]
pub enum LoadError {
    /// A raw definition did not have the expected shape: it could not be
    /// parsed, it had no season, or one of its seasons had no episode.
    MalformedDefinition { id: String },
    /// The collection of definitions could not be enumerated at all.
    /// Produced by the caller that enumerates the source, never by
    /// [`load_catalog`].
    SourceUnavailable { detail: String },
    /// Two definitions were supplied under the same identifier.
    DuplicateKey { id: String },
}

/// The error names `id` as a malformed definition.
pub open spec fn is_malformed_err(e: LoadError, id: Seq<char>) -> bool {
    e matches LoadError::MalformedDefinition { id: eid } && eid@ == id
}

/// The error names `id` as a duplicated key.
pub open spec fn is_duplicate_err(e: LoadError, id: Seq<char>) -> bool {
    e matches LoadError::DuplicateKey { id: eid } && eid@ == id
}

/// The catalog's mathematical model: the sequence of `(key, show)`
/// pairs, in storage order.
pub type CatalogView = Seq<(Seq<char>, ShowView)>;

/// Some entry holds the key `k`.
pub open spec fn catalog_contains_key(cv: CatalogView, k: Seq<char>) -> bool {
    exists|i: int| 0 <= i < cv.len() && (#[trigger] cv[i]).0 == k
}

/// The index of the entry that holds `k` (meaningful only when
/// `catalog_contains_key(cv, k)` and the keys are distinct).
pub open spec fn key_index(cv: CatalogView, k: Seq<char>) -> int {
    choose|i: int| 0 <= i < cv.len() && (#[trigger] cv[i]).0 == k
}

/// The show stored under `k`.
pub open spec fn catalog_show(cv: CatalogView, k: Seq<char>) -> ShowView {
    cv[key_index(cv, k)].1
}

/// The keys appear in strictly ascending lexicographic order.
pub open spec fn sorted_keys(cv: CatalogView) -> bool {
    forall|i: int, j: int|
        0 <= i < j < cv.len() ==> lex_lt((#[trigger] cv[i]).0, (#[trigger] cv[j]).0)
}

/// A well-formed catalog: strictly sorted keys (hence no duplicates) and
/// only valid shows.
pub open spec fn catalog_wf(cv: CatalogView) -> bool {
    &&& sorted_keys(cv)
    &&& forall|i: int| 0 <= i < cv.len() ==> valid_show((#[trigger] cv[i]).1)
}

/// Strictly sorted keys are pairwise distinct.
pub proof fn lemma_sorted_keys_unique(cv: CatalogView)
    requires
        sorted_keys(cv),
    ensures
        forall|i: int, j: int|
            0 <= i < cv.len() && 0 <= j < cv.len() && i != j ==> (#[trigger] cv[i]).0 != (
            #[trigger] cv[j]).0,
{
    assert forall|i: int, j: int|
        0 <= i < cv.len() && 0 <= j < cv.len() && i != j implies (#[trigger] cv[i]).0 != (
    #[trigger] cv[j]).0 by {
        if cv[i].0 == cv[j].0 {
            if i < j {
                assert(lex_lt(cv[i].0, cv[j].0));
            } else {
                assert(lex_lt(cv[j].0, cv[i].0));
            }
            lemma_lex_lt_irrefl(cv[i].0);
        }
    }
}

/// The immutable in-memory index of all loaded shows, keyed by show key.
pub struct Catalog {
    entries: Vec<(String, Show)>,
}

impl View for Catalog {
    type V = CatalogView;

    closed spec fn view(&self) -> CatalogView {
        self.entries@.map_values(|e: (String, Show)| (e.0@, e.1@))
    }
}

impl Catalog {
    /// The catalog's invariant, over its model alone.
    pub open spec fn wf(&self) -> bool {
        catalog_wf(self@)
    }

    /// An empty catalog.
    pub fn new() -> (c: Catalog)
        ensures
            c@.len() == 0,
            c.wf(),
    {
        Catalog { entries: Vec::new() }
    }

    /// How many shows are loaded.
    pub fn len(&self) -> (n: usize)
        ensures
            n == self@.len(),
    {
        self.entries.len()
    }

    /// Finds the show stored under `key`, or `None` when the key is
    /// unknown.
    pub fn lookup<'a>(&'a self, key: &str) -> (r: Option<&'a Show>)
        requires
            self.wf(),
        ensures
            match r {
                Some(show) => catalog_contains_key(self@, key@) && show@ == catalog_show(
                    self@,
                    key@,
                ),
                None => !catalog_contains_key(self@, key@),
            },
    {
        let n = self.entries.len();
        let mut i: usize = 0;
        while i < n
            invariant
                i <= n,
                n == self.entries.len(),
                self.wf(),
                self@.len() == n,
                forall|j: int| 0 <= j < i ==> (#[trigger] self@[j]).0 != key@,
            decreases n - i,
        {
            let e = &self.entries[i];
            if str_eq(e.0.as_str(), key) {
                proof {
                    assert(self@[i as int].0 == key@);
                    assert(catalog_contains_key(self@, key@));
                    lemma_sorted_keys_unique(self@);
                    let j = key_index(self@, key@);
                    assert(0 <= j < self@.len() && self@[j].0 == key@);
                    assert(j == i as int);
                    assert(self@[i as int].1 == self.entries@[i as int].1@);
                }
                return Some(&e.1);
            }
            proof {
                assert(self@[i as int].0 == self.entries@[i as int].0@);
            }
            i = i + 1;
        }
        None
    }

    /// Inserts a show at its sorted position, refusing a duplicate key.
    pub fn insert_show(&mut self, key: String, show: Show) -> (r: Result<(), LoadError>)
        requires
            old(self).wf(),
            valid_show(show@),
        ensures
            match r {
                Ok(_) => {
                    &&& !catalog_contains_key(old(self)@, key@)
                    &&& final(self).wf()
                    &&& final(self)@.len() == old(self)@.len() + 1
                    &&& forall|k: Seq<char>|
                        catalog_contains_key(final(self)@, k) <==> (catalog_contains_key(
                            old(self)@,
                            k,
                        ) || k == key@)
                    &&& catalog_show(final(self)@, key@) == show@
                    &&& forall|k: Seq<char>|
                        catalog_contains_key(old(self)@, k) && k != key@
                            ==> #[trigger] catalog_show(final(self)@, k) == catalog_show(
                            old(self)@,
                            k,
                        )
                },
                Err(e) => {
                    &&& catalog_contains_key(old(self)@, key@)
                    &&& final(self)@ == old(self)@
                    &&& is_duplicate_err(e, key@)
                },
            },
    {
        let n = self.entries.len();
        let mut pos: usize = 0;
        proof {
            assert(self@.len() == n);
        }
        loop
            invariant
                pos <= n,
                n == self.entries.len(),
                self@.len() == n,
                *self == *old(self),
                forall|j: int| 0 <= j < pos ==> lex_lt((#[trigger] self@[j]).0, key@),
            ensures
                pos <= n,
                forall|j: int| 0 <= j < pos ==> lex_lt((#[trigger] self@[j]).0, key@),
                pos < n ==> !lex_lt(self@[pos as int].0, key@),
            decreases n - pos,
        {
            if pos == n {
                break;
            }
            let e = &self.entries[pos];
            proof {
                assert(self@[pos as int].0 == self.entries@[pos as int].0@);
            }
            if !str_lt(e.0.as_str(), key.as_str()) {
                break;
            }
            pos = pos + 1;
        }
        if pos < n {
            let e = &self.entries[pos];
            proof {
                assert(self@[pos as int].0 == self.entries@[pos as int].0@);
            }
            if str_eq(e.0.as_str(), key.as_str()) {
                proof {
                    assert(self@[pos as int].0 == key@);
                    assert(catalog_contains_key(self@, key@));
                }
                return Err(LoadError::DuplicateKey { id: key });
            }
        }
        proof {
            lemma_catalog_insert(self@, pos as int, key@, show@);
        }
        let ghost prior = self@;
        self.entries.insert(pos, (key, show));
        proof {
            assert forall|i: int| 0 <= i < self@.len() implies self@[i] == prior.insert(
                pos as int,
                (key@, show@),
            )[i] by {
                assert(self.entries@[i] == old(self).entries@.insert(pos as int, (key, show))[i]);
            }
            assert(self@ =~= prior.insert(pos as int, (key@, show@)));
        }
        Ok(())
    }
}

/// The model of a sequence of raw `(identifier, show)` definitions.
pub open spec fn defs_view(defs: Seq<(String, Show)>) -> CatalogView {
    defs.map_values(|d: (String, Show)| (d.0@, d.1@))
}

/// Definition `i` is rejected: its show is invalid, or its identifier
/// already appeared earlier.
pub open spec fn def_bad_at(dv: CatalogView, i: int) -> bool {
    !valid_show(dv[i].1) || exists|j: int| 0 <= j < i && (#[trigger] dv[j]).0 == dv[i].0
}

/// Every definition is valid and every identifier is fresh.
pub open spec fn defs_good(dv: CatalogView) -> bool {
    forall|i: int| 0 <= i < dv.len() ==> !(#[trigger] def_bad_at(dv, i))
}

/// Loading stops at `i`, the first rejected definition, with the error
/// that names its identifier and reason.
pub open spec fn load_fails_at(dv: CatalogView, e: LoadError, i: int) -> bool {
    &&& 0 <= i < dv.len()
    &&& def_bad_at(dv, i)
    &&& forall|j: int| 0 <= j < i ==> !(#[trigger] def_bad_at(dv, j))
    &&& if !valid_show(dv[i].1) {
        is_malformed_err(e, dv[i].0)
    } else {
        is_duplicate_err(e, dv[i].0)
    }
}

/// Builds the catalog from raw definitions, in order, all-or-nothing:
/// the first invalid show or repeated identifier fails the whole load.
pub fn load_catalog(defs: Vec<(String, Show)>) -> (r: Result<Catalog, LoadError>)
    ensures
        match r {
            Ok(c) => {
                &&& defs_good(defs_view(defs@))
                &&& c.wf()
                &&& c@.len() == defs@.len()
                &&& forall|k: Seq<char>|
                    catalog_contains_key(c@, k) <==> catalog_contains_key(defs_view(defs@), k)
                &&& forall|i: int|
                    0 <= i < defs@.len() ==> catalog_show(c@, (#[trigger] defs_view(defs@)[i]).0)
                        == defs_view(defs@)[i].1
            },
            Err(e) => {
                &&& !defs_good(defs_view(defs@))
                &&& exists|i: int| #[trigger] load_fails_at(defs_view(defs@), e, i)
            },
        },
{
    let ghost dv = defs_view(defs@);
    let ghost orig = defs@;
    let mut rest = defs;
    let mut catalog = Catalog::new();
    while rest.len() > 0
        invariant
            rest@.len() <= orig.len(),
            orig == defs@,
            dv == defs_view(orig),
            dv.len() == orig.len(),
            rest@ =~= orig.skip(orig.len() - rest@.len()),
            catalog.wf(),
            catalog@.len() == orig.len() - rest@.len(),
            forall|k: Seq<char>|
                catalog_contains_key(catalog@, k) <==> catalog_contains_key(
                    dv.take(orig.len() - rest@.len()),
                    k,
                ),
            forall|j: int|
                0 <= j < orig.len() - rest@.len() ==> catalog_show(catalog@, (#[trigger] dv[j]).0)
                    == dv[j].1,
            forall|j: int| 0 <= j < orig.len() - rest@.len() ==> !(#[trigger] def_bad_at(dv, j)),
        decreases rest@.len(),
    {
        let ghost i = orig.len() - rest@.len();
        proof {
            assert(rest@[0] == orig[i as int]);
            assert(dv[i as int] == (orig[i as int].0@, orig[i as int].1@));
        }
        let (key, show) = rest.remove(0);
        proof {
            assert(key@ == dv[i as int].0);
            assert(show@ == dv[i as int].1);
            assert(rest@ =~= orig.skip(orig.len() - rest@.len()));
        }
        if !check_show(&show) {
            let e = LoadError::MalformedDefinition { id: key };
            proof {
                assert(!valid_show(dv[i as int].1));
                assert(def_bad_at(dv, i as int));
                assert(load_fails_at(dv, e, i as int));
            }
            return Err(e);
        }
        let ghost before = catalog@;
        match catalog.insert_show(key, show) {
            Ok(_) => {
                proof {
                    assert forall|j: int| 0 <= j < i + 1 implies !(#[trigger] def_bad_at(
                        dv,
                        j,
                    )) by {
                        if j == i {
                            assert(!catalog_contains_key(before, dv[i as int].0));
                            if exists|m: int| 0 <= m < i && (#[trigger] dv[m]).0 == dv[i as int].0 {
                                let m = choose|m: int|
                                    0 <= m < i && (#[trigger] dv[m]).0 == dv[i as int].0;
                                assert(dv.take(i as int)[m] == dv[m]);
                                assert(catalog_contains_key(dv.take(i as int), dv[i as int].0));
                            }
                        }
                    }
                    assert forall|k: Seq<char>| catalog_contains_key(catalog@, k)
                        <==> catalog_contains_key(dv.take(i + 1), k) by {
                        if catalog_contains_key(dv.take(i + 1), k) {
                            let m = choose|m: int|
                                0 <= m < i + 1 && (#[trigger] dv.take(i + 1)[m]).0 == k;
                            if m < i {
                                assert(dv.take(i as int)[m] == dv[m]);
                                assert(catalog_contains_key(dv.take(i as int), k));
                            } else {
                                assert(k == dv[i as int].0);
                            }
                        }
                        if catalog_contains_key(dv.take(i as int), k) {
                            let m = choose|m: int|
                                0 <= m < i && (#[trigger] dv.take(i as int)[m]).0 == k;
                            assert(dv.take(i + 1)[m] == dv[m]);
                            assert(catalog_contains_key(dv.take(i + 1), k));
                        }
                        if k == dv[i as int].0 {
                            assert(dv.take(i + 1)[i as int] == dv[i as int]);
                            assert(catalog_contains_key(dv.take(i + 1), k));
                        }
                    }
                    assert forall|j: int| 0 <= j < i + 1 implies catalog_show(
                        catalog@,
                        (#[trigger] dv[j]).0,
                    ) == dv[j].1 by {
                        if j < i {
                            assert(dv[j].0 != dv[i as int].0) by {
                                if dv[j].0 == dv[i as int].0 {
                                    assert(dv.take(i as int)[j] == dv[j]);
                                    assert(catalog_contains_key(dv.take(i as int), dv[i as int].0));
                                    assert(catalog_contains_key(before, dv[i as int].0));
                                }
                            }
                            assert(catalog_contains_key(dv.take(i as int), dv[j].0)) by {
                                assert(dv.take(i as int)[j] == dv[j]);
                            }
                            assert(catalog_show(catalog@, dv[j].0) == catalog_show(
                                before,
                                dv[j].0,
                            ));
                        }
                    }
                }
            },
            Err(e) => {
                proof {
                    assert(catalog_contains_key(before, dv[i as int].0));
                    let m = choose|m: int|
                        0 <= m < i && (#[trigger] dv.take(i as int)[m]).0 == dv[i as int].0;
                    assert(dv[m].0 == dv[i as int].0);
                    assert(def_bad_at(dv, i as int));
                    assert(load_fails_at(dv, e, i as int));
                }
                return Err(e);
            },
        }
    }
    proof {
        assert(dv.take(orig.len() as int) =~= dv);
        assert(forall|i: int|
            0 <= i < orig.len() ==> catalog_show(catalog@, (#[trigger] dv[i]).0) == dv[i].1);
    }
    Ok(catalog)
}

/// The listing's model: each catalog entry's `(key, title)`, in catalog
/// order.
pub open spec fn listing_of(cv: CatalogView) -> Seq<(Seq<char>, Seq<char>)> {
    cv.map_values(|e: (Seq<char>, ShowView)| (e.0, e.1.title))
}

/// The view of an executable listing.
pub open spec fn pairs_view(s: Seq<(String, String)>) -> Seq<(Seq<char>, Seq<char>)> {
    s.map_values(|p: (String, String)| (p.0@, p.1@))
}

/// Lists every loaded show as a `(key, title)` pair, in the catalog's
/// key order: a pure function of the catalog, so repeated calls return
/// the same sequence, sorted strictly ascending by key.
pub fn get_shows(catalog: &Catalog) -> (r: Vec<(String, String)>)
    ensures
        pairs_view(r@) == listing_of(catalog@),
        catalog.wf() ==> forall|i: int, j: int|
            0 <= i < j < r@.len() ==> lex_lt((#[trigger] r@[i]).0@, (#[trigger] r@[j]).0@),
{
    let n = catalog.entries.len();
    let mut out: Vec<(String, String)> = Vec::new();
    let mut i: usize = 0;
    proof {
        assert(catalog@.len() == n);
    }
    while i < n
        invariant
            i <= n,
            n == catalog.entries.len(),
            catalog@.len() == n,
            out@.len() == i,
            forall|j: int|
                0 <= j < i ==> (#[trigger] out@[j]).0@ == catalog@[j].0 && out@[j].1@
                    == catalog@[j].1.title,
        decreases n - i,
    {
        let e = &catalog.entries[i];
        proof {
            assert(catalog@[i as int] == (catalog.entries@[i as int].0@, catalog.entries@[
                i as int].1@));
        }
        let key = e.0.clone();
        let title = e.1.title.clone();
        out.push((key, title));
        i = i + 1;
    }
    proof {
        assert(pairs_view(out@) =~= listing_of(catalog@));
        if catalog.wf() {
            assert forall|a: int, b: int| 0 <= a < b < out@.len() implies lex_lt(
                (#[trigger] out@[a]).0@,
                (#[trigger] out@[b]).0@,
            ) by {
                assert(out@[a].0@ == catalog@[a].0);
                assert(out@[b].0@ == catalog@[b].0);
            }
        }
    }
    out
}

/// Listing is deterministic: two listings of one catalog are the same
/// sequence, and that sequence is sorted strictly ascending by key.
pub proof fn lemma_listing_deterministic(
    cv: CatalogView,
    r1: Seq<(Seq<char>, Seq<char>)>,
    r2: Seq<(Seq<char>, Seq<char>)>,
)
    requires
        sorted_keys(cv),
        r1 == listing_of(cv),
        r2 == listing_of(cv),
    ensures
        r1 == r2,
        forall|i: int, j: int|
            0 <= i < j < r1.len() ==> lex_lt((#[trigger] r1[i]).0, (#[trigger] r1[j]).0),
{
    assert forall|i: int, j: int| 0 <= i < j < r1.len() implies lex_lt(
        (#[trigger] r1[i]).0,
        (#[trigger] r1[j]).0,
    ) by {
        assert(r1[i].0 == cv[i].0);
        assert(r1[j].0 == cv[j].0);
    }
}

/// Listing is complete: one entry per catalog entry, carrying exactly
/// the catalog's keys — none missing, none repeated — each with its
/// show's title.
pub proof fn lemma_listing_complete(cv: CatalogView)
    requires
        sorted_keys(cv),
    ensures
        listing_of(cv).len() == cv.len(),
        forall|i: int|
            0 <= i < cv.len() ==> (#[trigger] listing_of(cv)[i]) == (cv[i].0, cv[i].1.title),
        forall|k: Seq<char>|
            (exists|i: int|
                0 <= i < listing_of(cv).len() && (#[trigger] listing_of(cv)[i]).0 == k)
                <==> catalog_contains_key(cv, k),
        forall|i: int, j: int|
            0 <= i < cv.len() && 0 <= j < cv.len() && i != j ==> (#[trigger] listing_of(cv)[i]).0
                != (#[trigger] listing_of(cv)[j]).0,
{
    lemma_sorted_keys_unique(cv);
    assert forall|k: Seq<char>|
        (exists|i: int| 0 <= i < listing_of(cv).len() && (#[trigger] listing_of(cv)[i]).0 == k)
            <==> catalog_contains_key(cv, k) by {
        if exists|i: int| 0 <= i < listing_of(cv).len() && (#[trigger] listing_of(cv)[i]).0 == k {
            let i = choose|i: int|
                0 <= i < listing_of(cv).len() && (#[trigger] listing_of(cv)[i]).0 == k;
            assert(cv[i].0 == k);
            assert(catalog_contains_key(cv, k));
        }
        if catalog_contains_key(cv, k) {
            let i = choose|i: int| 0 <= i < cv.len() && (#[trigger] cv[i]).0 == k;
            assert(listing_of(cv)[i].0 == k);
        }
    }
}

/// What inserting a new key at its sorted position does to the model.
proof fn lemma_catalog_insert(cv: CatalogView, pos: int, key: Seq<char>, show: ShowView)
    requires
        catalog_wf(cv),
        valid_show(show),
        0 <= pos <= cv.len(),
        forall|j: int| 0 <= j < pos ==> lex_lt((#[trigger] cv[j]).0, key),
        pos < cv.len() ==> !lex_lt(cv[pos].0, key) && cv[pos].0 != key,
    ensures
        !catalog_contains_key(cv, key),
        catalog_wf(cv.insert(pos, (key, show))),
        cv.insert(pos, (key, show)).len() == cv.len() + 1,
        forall|k: Seq<char>|
            catalog_contains_key(cv.insert(pos, (key, show)), k) <==> (catalog_contains_key(cv, k)
                || k == key),
        catalog_show(cv.insert(pos, (key, show)), key) == show,
        forall|k: Seq<char>|
            catalog_contains_key(cv, k) && k != key ==> #[trigger] catalog_show(
                cv.insert(pos, (key, show)),
                k,
            ) == catalog_show(cv, k),
{
    let nv = cv.insert(pos, (key, show));

    // The key is new: before `pos` all keys are strictly below it, at and
    // after `pos` all keys are strictly above it.
    assert forall|j: int| 0 <= j < cv.len() implies (#[trigger] cv[j]).0 != key by {
        if j < pos {
            lemma_lex_lt_irrefl(key);
        } else if j == pos {
        } else if pos < cv.len() {
            if cv[j].0 == key {
                assert(lex_lt(cv[pos].0, cv[j].0));
                lemma_lex_lt_total(cv[pos].0, key);
                lemma_lex_lt_irrefl(key);
            }
        }
    }
    assert(!catalog_contains_key(cv, key));

    // Keys at and after `pos` are strictly above the new key.
    assert forall|j: int| pos <= j < cv.len() implies lex_lt(key, (#[trigger] cv[j]).0) by {
        lemma_lex_lt_total(cv[pos].0, key);
        assert(lex_lt(key, cv[pos].0));
        if j > pos {
            lemma_lex_lt_trans(key, cv[pos].0, cv[j].0);
        }
    }

    // Index map of the inserted sequence.
    assert(nv.len() == cv.len() + 1);
    assert(forall|i: int| 0 <= i < pos ==> #[trigger] nv[i] == cv[i]);
    assert(nv[pos] == (key, show));
    assert(forall|i: int| pos < i < nv.len() ==> #[trigger] nv[i] == cv[i - 1]);

    // Sortedness of the result.
    assert forall|i: int, j: int| 0 <= i < j < nv.len() implies lex_lt(
        (#[trigger] nv[i]).0,
        (#[trigger] nv[j]).0,
    ) by {
        if i < pos && j < pos {
        } else if i < pos && j == pos {
        } else if i == pos {
            assert(nv[j].0 == cv[j - 1].0);
        } else if i < pos && j > pos {
            assert(lex_lt(cv[i].0, key));
            assert(lex_lt(key, cv[j - 1].0));
            lemma_lex_lt_trans(cv[i].0, key, cv[j - 1].0);
        } else {
            assert(nv[i].0 == cv[i - 1].0);
            assert(nv[j].0 == cv[j - 1].0);
        }
    }
    assert(catalog_wf(nv));
    lemma_sorted_keys_unique(nv);

    // Key membership.
    assert forall|k: Seq<char>|
        catalog_contains_key(nv, k) <==> (catalog_contains_key(cv, k) || k == key) by {
        if catalog_contains_key(nv, k) {
            let i = choose|i: int| 0 <= i < nv.len() && (#[trigger] nv[i]).0 == k;
            if i < pos {
                assert(cv[i].0 == k);
            } else if i == pos {
                assert(k == key);
            } else {
                assert(cv[i - 1].0 == k);
            }
        }
        if k == key {
            assert(nv[pos].0 == k);
            assert(catalog_contains_key(nv, k));
        }
        if catalog_contains_key(cv, k) {
            let i = choose|i: int| 0 <= i < cv.len() && (#[trigger] cv[i]).0 == k;
            if i < pos {
                assert(nv[i].0 == k);
            } else {
                assert(nv[i + 1].0 == k);
            }
            assert(catalog_contains_key(nv, k));
        }
    }

    // The new key maps to the new show.
    assert(nv[pos].0 == key);
    assert(catalog_contains_key(nv, key));
    let ki = key_index(nv, key);
    assert(0 <= ki < nv.len() && nv[ki].0 == key);
    assert(ki == pos);

    // Old keys keep their shows.
    assert forall|k: Seq<char>| catalog_contains_key(cv, k) && k != key implies #[trigger] catalog_show(
        nv,
        k,
    ) == catalog_show(cv, k) by {
        lemma_sorted_keys_unique(cv);
        let i = key_index(cv, k);
        assert(0 <= i < cv.len() && cv[i].0 == k);
        assert(catalog_contains_key(nv, k));
        let j = key_index(nv, k);
        assert(0 <= j < nv.len() && nv[j].0 == k);
        if i < pos {
            assert(nv[i].0 == k);
            assert(j == i);
        } else {
            assert(nv[i + 1].0 == k);
            assert(j == i + 1);
        }
    }
}

} // verus!
