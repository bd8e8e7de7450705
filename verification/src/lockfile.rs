//! A loaded lockfile: entries sorted by (name, version, source), with
//! exact-match lookup against a package manifest.

use vstd::prelude::*;

use crate::cargo::Manifest;
use crate::strutil::Cmp;
use crate::strutil::lemma_seq_cmp_eq;
use crate::strutil::lemma_seq_cmp_flip;
use crate::strutil::lemma_seq_cmp_trans;
use crate::strutil::opt_seq_cmp;
use crate::strutil::opt_strcmp;
use crate::strutil::seq_cmp;
use crate::strutil::strcmp;
use crate::strutil::view_opt_str;

verus! {

broadcast use vstd::seq_lib::group_to_multiset_ensures;

/// One entry of the lockfile. The version is held as its canonical string;
/// two entries carry the same version exactly when the strings are equal.
pub struct LockfilePackage {
    pub name: String,
    pub version: String,
    pub source: Option<String>,
    pub checksum: Option<String>,
}

/// The lockfile schema-version marker. The expected value is 3; any other
/// value is accepted all the same (a caller may warn about it).
pub struct Hopefully3 {
    pub raw: u64,
}

impl Hopefully3 {
    /// Whether the read value is the expected schema version.
    pub fn is_expected(&self) -> (r: bool)
        ensures
            r == (self.raw == 3),
    {
        self.raw == 3
    }
}

/// The sort and lookup key of an entry: name, version, source.
#[verifier::ext_equal]
pub ghost struct LockKey {
    pub name: Seq<char>,
    pub version: Seq<char>,
    pub source: Option<Seq<char>>,
}

/// The key of a lockfile entry.
pub open spec fn key_of(p: LockfilePackage) -> LockKey {
    LockKey { name: p.name@, version: p.version@, source: view_opt_str(p.source) }
}

/// The key a manifest is looked up under.
pub open spec fn manifest_key(m: Manifest) -> LockKey {
    LockKey { name: m.name@, version: m.version@, source: view_opt_str(m.source) }
}

/// Three-way comparison of keys: by name, then version, then source, each
/// compared lexicographically by character. Note that the version component
/// is ordered as a string, not by semantic-version precedence ("1.10.0"
/// sorts before "1.9.0" here). Equal canonical version strings denote equal
/// versions, so exact-match lookup is unaffected; only the visible order of
/// the sorted entries can differ from semantic precedence.
pub open spec fn key_cmp(a: LockKey, b: LockKey) -> Cmp {
    if seq_cmp(a.name, b.name) != Cmp::Eq {
        seq_cmp(a.name, b.name)
    } else if seq_cmp(a.version, b.version) != Cmp::Eq {
        seq_cmp(a.version, b.version)
    } else {
        opt_seq_cmp(a.source, b.source)
    }
}

/// Comparing keys as `Cmp::Eq` holds exactly on equal keys.
pub proof fn lemma_key_cmp_eq(a: LockKey, b: LockKey)
    ensures
        (key_cmp(a, b) == Cmp::Eq) <==> (a == b),
{
    lemma_seq_cmp_eq(a.name, b.name);
    lemma_seq_cmp_eq(a.version, b.version);
    match (a.source, b.source) {
        (Option::Some(x), Option::Some(y)) => lemma_seq_cmp_eq(x, y),
        _ => (),
    }
    if key_cmp(a, b) == Cmp::Eq {
        assert(a =~= b);
    }
}

/// Swapping the arguments of a key comparison swaps `Lt` and `Gt`.
pub proof fn lemma_key_cmp_flip(a: LockKey, b: LockKey)
    ensures
        key_cmp(a, b) == Cmp::Lt <==> key_cmp(b, a) == Cmp::Gt,
        key_cmp(a, b) == Cmp::Eq <==> key_cmp(b, a) == Cmp::Eq,
{
    lemma_seq_cmp_flip(a.name, b.name);
    lemma_seq_cmp_flip(a.version, b.version);
    match (a.source, b.source) {
        (Option::Some(x), Option::Some(y)) => lemma_seq_cmp_flip(x, y),
        _ => (),
    }
}

/// Key comparison is transitive.
pub proof fn lemma_key_cmp_trans(a: LockKey, b: LockKey, c: LockKey)
    ensures
        key_cmp(a, b) != Cmp::Gt && key_cmp(b, c) != Cmp::Gt ==> key_cmp(a, c) != Cmp::Gt,
        key_cmp(a, b) == Cmp::Lt && key_cmp(b, c) != Cmp::Gt ==> key_cmp(a, c) == Cmp::Lt,
        key_cmp(a, b) != Cmp::Gt && key_cmp(b, c) == Cmp::Lt ==> key_cmp(a, c) == Cmp::Lt,
{
    lemma_seq_cmp_eq(a.name, b.name);
    lemma_seq_cmp_eq(b.name, c.name);
    lemma_seq_cmp_eq(a.name, c.name);
    lemma_seq_cmp_trans(a.name, b.name, c.name);
    lemma_seq_cmp_eq(a.version, b.version);
    lemma_seq_cmp_eq(b.version, c.version);
    lemma_seq_cmp_eq(a.version, c.version);
    lemma_seq_cmp_trans(a.version, b.version, c.version);
    match (a.source, b.source) {
        (Option::Some(x), Option::Some(y)) => lemma_seq_cmp_eq(x, y),
        _ => (),
    }
    match (b.source, c.source) {
        (Option::Some(x), Option::Some(y)) => lemma_seq_cmp_eq(x, y),
        _ => (),
    }
    match (a.source, c.source) {
        (Option::Some(x), Option::Some(y)) => lemma_seq_cmp_eq(x, y),
        _ => (),
    }
    match (a.source, b.source, c.source) {
        (Option::Some(x), Option::Some(y), Option::Some(z)) => lemma_seq_cmp_trans(x, y, z),
        _ => (),
    }
}

/// Three-way comparison of two lockfile entries by key.
pub fn entry_cmp(a: &LockfilePackage, b: &LockfilePackage) -> (r: Cmp)
    ensures
        r == key_cmp(key_of(*a), key_of(*b)),
{
    let c = strcmp(a.name.as_str(), b.name.as_str());
    if c != Cmp::Eq {
        return c;
    }
    let c = strcmp(a.version.as_str(), b.version.as_str());
    if c != Cmp::Eq {
        return c;
    }
    opt_strcmp(&a.source, &b.source)
}

/// Three-way comparison of a lockfile entry against a manifest's key.
pub fn entry_manifest_cmp(p: &LockfilePackage, m: &Manifest) -> (r: Cmp)
    ensures
        r == key_cmp(key_of(*p), manifest_key(*m)),
{
    let c = strcmp(p.name.as_str(), m.name.as_str());
    if c != Cmp::Eq {
        return c;
    }
    let c = strcmp(p.version.as_str(), m.version.as_str());
    if c != Cmp::Eq {
        return c;
    }
    opt_strcmp(&p.source, &m.source)
}

/// Entries in ascending key order.
pub open spec fn sorted(s: Seq<LockfilePackage>) -> bool {
    forall|i: int, j: int|
        0 <= i < j < s.len() ==> key_cmp(key_of(s[i]), key_of(s[j])) != Cmp::Gt
}

/// Whether entry `k` of `v` sorts strictly after `x`.
fn entry_gt(v: &Vec<LockfilePackage>, k: usize, x: &LockfilePackage) -> (r: bool)
    requires
        k < v@.len(),
    ensures
        r == (key_cmp(key_of(v@[k as int]), key_of(*x)) == Cmp::Gt),
{
    entry_cmp(&v[k], x) == Cmp::Gt
}

/// Insertion sort of the entries by key, keeping every entry.
fn sort_packages(v: Vec<LockfilePackage>) -> (r: Vec<LockfilePackage>)
    ensures
        sorted(r@),
        r@.to_multiset() == v@.to_multiset(),
{
    let mut out = v;
    if out.len() <= 1 {
        return out;
    }
    let n = out.len();
    let mut i: usize = 1;
    while i < n
        invariant
            1 <= i <= n,
            out@.len() == n,
            n == v@.len(),
            forall|p: int, q: int|
                0 <= p < q < i ==> key_cmp(key_of(out@[p]), key_of(out@[q])) != Cmp::Gt,
            out@.to_multiset() == v@.to_multiset(),
        decreases n - i,
    {
        let ghost before = out@;
        let x = out.remove(i);
        let ghost mid = out@;
        let mut j: usize = i;
        while j > 0 && entry_gt(&out, j - 1, &x)
            invariant
                j <= i,
                i < n,
                out@ == mid,
                mid.len() == n - 1,
                forall|k: int| j <= k < i ==> key_cmp(key_of(mid[k]), key_of(x)) == Cmp::Gt,
            decreases j,
        {
            j = j - 1;
        }
        out.insert(j, x);
        proof {
            assert(mid.insert(j as int, x).to_multiset() == mid.to_multiset().insert(x));
            assert(before.remove(i as int).to_multiset() == before.to_multiset().remove(
                before[i as int],
            ));
            assert(before.to_multiset().contains(x)) by {
                assert(before.to_multiset().count(x) > 0);
            }
            assert(out@.to_multiset() =~= before.to_multiset());
            // prefix entries are unchanged by the removal
            assert(forall|k: int| 0 <= k < i ==> mid[k] == before[k]);
            assert forall|p: int, q: int|
                0 <= p < q < i + 1 implies key_cmp(key_of(out@[p]), key_of(out@[q]))
                != Cmp::Gt by {
                let jj = j as int;
                if q < jj {
                    assert(out@[p] == mid[p] && out@[q] == mid[q]);
                } else if p < jj && q == jj {
                    // everything before the insertion point sorts no later than x
                    if p < jj - 1 {
                        lemma_key_cmp_trans(key_of(mid[p]), key_of(mid[jj - 1]), key_of(x));
                    }
                    assert(out@[p] == mid[p] && out@[q] == x);
                } else if p < jj && q > jj {
                    assert(out@[p] == mid[p] && out@[q] == mid[q - 1]);
                } else if p == jj {
                    // x sorts strictly before everything it displaced
                    assert(out@[p] == x && out@[q] == mid[q - 1]);
                    lemma_key_cmp_flip(key_of(x), key_of(mid[q - 1]));
                } else {
                    assert(out@[p] == mid[p - 1] && out@[q] == mid[q - 1]);
                }
            }
        }
        i = i + 1;
    }
    out
}

/// Sequences holding the same entries agree on membership: after a load, a
/// full linear scan of the input and of the sorted order find the same
/// entries.
pub proof fn lemma_same_entries_same_membership(
    a: Seq<LockfilePackage>,
    b: Seq<LockfilePackage>,
)
    requires
        a.to_multiset() == b.to_multiset(),
    ensures
        forall|x: LockfilePackage| a.contains(x) <==> b.contains(x),
{
    assert forall|x: LockfilePackage| a.contains(x) <==> b.contains(x) by {
        assert(a.contains(x) <==> a.to_multiset().count(x) > 0);
        assert(b.contains(x) <==> b.to_multiset().count(x) > 0);
    }
}

/// A loaded lockfile: the schema-version marker and the entries, sorted by
/// (name, version, source).
pub struct Lockfile {
    pub version: Hopefully3,
    pub packages: Vec<LockfilePackage>,
}

impl Lockfile {
    /// Build a lockfile from the raw schema-version value and the parsed
    /// entries. Every version value is accepted; the entries are sorted by
    /// (name, version, source) under `key_cmp`'s order — version strings
    /// compare lexicographically, not by semantic precedence — and all of
    /// them are kept.
    pub fn load(version: u64, packages: Vec<LockfilePackage>) -> (r: Lockfile)
        ensures
            r.version.raw == version,
            sorted(r.packages@),
            r.packages@.to_multiset() == packages@.to_multiset(),
    {
        let sorted_packages = sort_packages(packages);
        Lockfile { version: Hopefully3 { raw: version }, packages: sorted_packages }
    }

    /// Exact-match binary search for the entry with the manifest's
    /// (name, version, source) key; absent means no entry matches.
    pub fn find(&self, manifest: &Manifest) -> (r: Option<&LockfilePackage>)
        requires
            sorted(self.packages@),
        ensures
            match r {
                Option::Some(p) => self.packages@.contains(*p) && key_of(*p) == manifest_key(
                    *manifest,
                ),
                Option::None => forall|k: int|
                    0 <= k < self.packages@.len() ==> key_of(self.packages@[k]) != manifest_key(
                        *manifest,
                    ),
            },
    {
        let ghost q = manifest_key(*manifest);
        let mut lo: usize = 0;
        let mut hi: usize = self.packages.len();
        while lo < hi
            invariant
                lo <= hi <= self.packages@.len(),
                sorted(self.packages@),
                q == manifest_key(*manifest),
                forall|k: int|
                    0 <= k < self.packages@.len() && !(lo <= k < hi) ==> key_cmp(
                        key_of(self.packages@[k]),
                        q,
                    ) != Cmp::Eq,
            decreases hi - lo,
        {
            let mid = lo + (hi - lo) / 2;
            let c = entry_manifest_cmp(&self.packages[mid], manifest);
            if c == Cmp::Eq {
                proof {
                    lemma_key_cmp_eq(key_of(self.packages@[mid as int]), q);
                    assert(self.packages@.contains(self.packages@[mid as int]));
                }
                return Option::Some(&self.packages[mid]);
            } else if c == Cmp::Lt {
                proof {
                    assert forall|k: int| lo <= k <= mid implies key_cmp(
                        key_of(self.packages@[k]),
                        q,
                    ) != Cmp::Eq by {
                        lemma_key_cmp_trans(
                            key_of(self.packages@[k]),
                            key_of(self.packages@[mid as int]),
                            q,
                        );
                    }
                }
                lo = mid + 1;
            } else {
                proof {
                    assert forall|k: int| mid <= k < hi implies key_cmp(
                        key_of(self.packages@[k]),
                        q,
                    ) != Cmp::Eq by {
                        lemma_key_cmp_flip(key_of(self.packages@[mid as int]), q);
                        lemma_key_cmp_trans(q, key_of(self.packages@[mid as int]), key_of(
                            self.packages@[k],
                        ));
                        lemma_key_cmp_flip(key_of(self.packages@[k]), q);
                    }
                }
                hi = mid;
            }
        }
        proof {
            assert forall|k: int| 0 <= k < self.packages@.len() implies key_of(self.packages@[k])
                != q by {
                lemma_key_cmp_eq(key_of(self.packages@[k]), q);
            }
        }
        Option::None
    }
}

} // verus!
