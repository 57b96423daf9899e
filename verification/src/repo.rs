//! The in-memory license repository: key-based lookup over the loaded
//! catalog, and the step-by-step completion of a freshly listed catalog.

use vstd::prelude::*;
use crate::license::License;
use crate::text::str_eq;

verus! {

/// The first record in `s` whose key reads `key`, if any.
pub open spec fn find_by_key(s: Seq<License>, key: Seq<char>) -> Option<License>
    decreases s.len(),
{
    if s.len() == 0 {
        None
    } else if s[0]@.key == key {
        Some(s[0])
    } else {
        find_by_key(s.drop_first(), key)
    }
}

/// Whether some record in `s` has the key `key`.
pub open spec fn has_key(s: Seq<License>, key: Seq<char>) -> bool {
    exists|i: int| 0 <= i < s.len() && s[i]@.key == key
}

/// Every key present in the catalog is found, and the record found carries
/// the queried key.
pub proof fn lemma_find_present(s: Seq<License>, key: Seq<char>)
    requires
        has_key(s, key),
    ensures
        find_by_key(s, key) is Some,
        find_by_key(s, key)->Some_0@.key == key,
    decreases s.len(),
{
    if s.len() == 0 {
    } else if s[0]@.key == key {
    } else {
        let i = choose|i: int| 0 <= i < s.len() && s[i]@.key == key;
        assert(s.drop_first()[i - 1] == s[i]);
        lemma_find_present(s.drop_first(), key);
    }
}

/// A key absent from the catalog is never found.
pub proof fn lemma_find_absent(s: Seq<License>, key: Seq<char>)
    requires
        !has_key(s, key),
    ensures
        find_by_key(s, key) is None,
    decreases s.len(),
{
    if s.len() == 0 {
    } else {
        assert(s[0]@.key != key);
        assert(forall|i: int|
            0 <= i < s.drop_first().len() ==> s.drop_first()[i] == s[i + 1]);
        lemma_find_absent(s.drop_first(), key);
    }
}

/// The catalog's data-model invariant: no two records share a key.
pub open spec fn keys_unique(s: Seq<License>) -> bool {
    forall|i: int, j: int|
        0 <= i < j < s.len() ==> s[i]@.key != s[j]@.key
}

/// In a catalog with unique keys, lookup of a present key returns exactly the
/// record that holds it.
pub proof fn lemma_find_unique(s: Seq<License>, key: Seq<char>, i: int)
    requires
        keys_unique(s),
        0 <= i < s.len(),
        s[i]@.key == key,
    ensures
        find_by_key(s, key) == Some(s[i]),
    decreases s.len(),
{
    if s[0]@.key == key {
        assert(i == 0);
    } else {
        assert(i > 0);
        assert(forall|m: int, n: int|
            0 <= m < n < s.drop_first().len() ==> s.drop_first()[m] == s[m + 1]
                && s.drop_first()[n] == s[n + 1]);
        assert(s.drop_first()[i - 1] == s[i]);
        lemma_find_unique(s.drop_first(), key, i - 1);
    }
}

/// The loaded catalog: the list of license records for one process
/// invocation.
pub struct Licenser {
    pub licenses: Vec<License>,
}

impl Licenser {
    /// Wraps an already loaded or assembled catalog.
    pub fn from_licenses(licenses: Vec<License>) -> (r: Licenser)
        ensures
            r.licenses@ == licenses@,
    {
        Licenser { licenses }
    }

    /// Linear scan for the first record whose key equals `name`; returns
    /// nothing when no record matches.
    pub fn get_license(self, name: &str) -> (r: Option<License>)
        ensures
            r == find_by_key(self.licenses@, name@),
            r is Some ==> r->Some_0@.key == name@,
            r is None <==> !has_key(self.licenses@, name@),
    {
        let n = self.licenses.len();
        let mut k: usize = 0;
        proof {
            assert(self.licenses@.skip(0) =~= self.licenses@);
        }
        while k < n
            invariant
                n == self.licenses@.len(),
                k <= n,
                find_by_key(self.licenses@, name@)
                    == find_by_key(self.licenses@.skip(k as int), name@),
                forall|i: int| 0 <= i < k ==> self.licenses@[i]@.key != name@,
            decreases n - k,
        {
            let ghost pre = self.licenses@.skip(k as int);
            if str_eq(self.licenses[k].key.as_str(), name) {
                proof {
                    assert(pre[0] == self.licenses@[k as int]);
                    assert(has_key(self.licenses@, name@));
                }
                return Some(self.licenses[k].clone());
            }
            k = k + 1;
            proof {
                assert(pre[0] == self.licenses@[(k - 1) as int]);
                assert(pre.drop_first() =~= self.licenses@.skip(k as int));
            }
        }
        proof {
            assert(self.licenses@.skip(n as int) =~= Seq::<License>::empty());
            if has_key(self.licenses@, name@) {
                let i = choose|i: int|
                    0 <= i < self.licenses@.len() && self.licenses@[i]@.key == name@;
                assert(false);
            }
        }
        None
    }
}

/// Step-by-step completion of a freshly listed catalog.
///
/// The bulk listing yields records without body text; each record is then
/// replaced, in order, by the full record fetched from its detail URL. The
/// driver asks for the next URL, fetches (outside this library), and hands
/// the full record back, until no record is pending.
pub struct CatalogInit {
    pub pending: Vec<License>,
    pub done: Vec<License>,
}

impl CatalogInit {
    /// Starts an initialization over the records of the bulk listing.
    pub fn new(summaries: Vec<License>) -> (r: CatalogInit)
        ensures
            r.pending@ == summaries@,
            r.done@ == Seq::<License>::empty(),
    {
        CatalogInit { pending: summaries, done: Vec::new() }
    }

    /// The detail URL of the next record to complete; nothing once every
    /// record is done.
    pub fn next_url(&self) -> (r: Option<String>)
        ensures
            match r {
                Some(u) => self.pending@.len() > 0 && u@ == self.pending@[0]@.url,
                None => self.pending@.len() == 0,
            },
    {
        if self.pending.len() > 0 {
            Some(self.pending[0].url.clone())
        } else {
            None
        }
    }

    /// Records the full record fetched for the first pending entry, which it
    /// replaces.
    pub fn supply(&mut self, fetched: License)
        requires
            old(self).pending@.len() > 0,
        ensures
            final(self).pending@ == old(self).pending@.drop_first(),
            final(self).done@ == old(self).done@.push(fetched),
    {
        let _ = self.pending.remove(0);
        self.done.push(fetched);
        proof {
            assert(final(self).pending@ =~= old(self).pending@.drop_first());
        }
    }

    /// The completed catalog, once no record is pending: the fetched records,
    /// in listing order.
    pub fn finish(self) -> (r: Vec<License>)
        requires
            self.pending@.len() == 0,
        ensures
            r@ == self.done@,
    {
        self.done
    }
}

} // verus!
