//! Ordering and normalization helpers for strings, used by the lockfile's
//! sorted key order and by the index's rename normalization.

use vstd::prelude::*;

verus! {

/// Result of a three-way comparison.
#[derive(Clone, Copy, PartialEq, Eq, Structural, Debug)]
pub enum Cmp {
    Lt,
    Eq,
    Gt,
}

/// Three-way comparison of two characters by code point.
pub open spec fn char_cmp(a: char, b: char) -> Cmp {
    if (a as u32) < (b as u32) {
        Cmp::Lt
    } else if (a as u32) > (b as u32) {
        Cmp::Gt
    } else {
        Cmp::Eq
    }
}

/// Characters with the same code point are the same character.
pub proof fn lemma_char_inj(a: char, b: char)
    requires
        (a as u32) == (b as u32),
    ensures
        a == b,
{
}

/// Lexicographic three-way comparison of two character sequences.
pub open spec fn seq_cmp(a: Seq<char>, b: Seq<char>) -> Cmp
    decreases a.len(),
{
    if a.len() == 0 && b.len() == 0 {
        Cmp::Eq
    } else if a.len() == 0 {
        Cmp::Lt
    } else if b.len() == 0 {
        Cmp::Gt
    } else if char_cmp(a[0], b[0]) != Cmp::Eq {
        char_cmp(a[0], b[0])
    } else {
        seq_cmp(a.skip(1), b.skip(1))
    }
}

/// Lexicographic comparison of two strings, by character code point.
pub fn strcmp(a: &str, b: &str) -> (r: Cmp)
    ensures
        r == seq_cmp(a@, b@),
{
    let alen = a.unicode_len();
    let blen = b.unicode_len();
    let n = if alen < blen { alen } else { blen };
    proof {
        assert(a@.skip(0) =~= a@);
        assert(b@.skip(0) =~= b@);
    }
    let mut i: usize = 0;
    while i < n
        invariant
            i <= n,
            alen == a@.len(),
            blen == b@.len(),
            n == if alen < blen { alen } else { blen },
            seq_cmp(a@, b@) == seq_cmp(a@.skip(i as int), b@.skip(i as int)),
        decreases n - i,
    {
        let ca = a.get_char(i);
        let cb = b.get_char(i);
        proof {
            assert(a@.skip(i as int)[0] == a@[i as int]);
            assert(b@.skip(i as int)[0] == b@[i as int]);
        }
        if (ca as u32) < (cb as u32) {
            return Cmp::Lt;
        }
        if (ca as u32) > (cb as u32) {
            return Cmp::Gt;
        }
        proof {
            assert(a@.skip(i as int).skip(1) =~= a@.skip(i as int + 1));
            assert(b@.skip(i as int).skip(1) =~= b@.skip(i as int + 1));
        }
        i = i + 1;
    }
    if alen < blen {
        Cmp::Lt
    } else if alen > blen {
        proof {
            assert(b@.skip(i as int).len() == 0);
        }
        Cmp::Gt
    } else {
        proof {
            assert(a@.skip(i as int).len() == 0);
            assert(b@.skip(i as int).len() == 0);
        }
        Cmp::Eq
    }
}

/// Comparing as `Cmp::Eq` holds exactly on equal sequences.
pub proof fn lemma_seq_cmp_eq(a: Seq<char>, b: Seq<char>)
    ensures
        (seq_cmp(a, b) == Cmp::Eq) <==> (a == b),
    decreases a.len(),
{
    if a.len() == 0 && b.len() == 0 {
        assert(a =~= b);
    } else if a.len() == 0 || b.len() == 0 {
    } else {
        lemma_seq_cmp_eq(a.skip(1), b.skip(1));
        if seq_cmp(a, b) == Cmp::Eq {
            lemma_char_inj(a[0], b[0]);
            assert(a.skip(1) == b.skip(1));
            assert forall|k: int| 0 <= k < a.len() implies a[k] == b[k] by {
                if k > 0 {
                    assert(a.skip(1)[k - 1] == a[k]);
                    assert(b.skip(1)[k - 1] == b[k]);
                }
            }
            assert(a =~= b);
        }
        if a == b {
            assert(a.skip(1) == b.skip(1));
        }
    }
}

/// Swapping the arguments swaps `Lt` and `Gt`.
pub proof fn lemma_seq_cmp_flip(a: Seq<char>, b: Seq<char>)
    ensures
        seq_cmp(a, b) == Cmp::Lt <==> seq_cmp(b, a) == Cmp::Gt,
        seq_cmp(a, b) == Cmp::Eq <==> seq_cmp(b, a) == Cmp::Eq,
    decreases a.len(),
{
    if a.len() > 0 && b.len() > 0 {
        lemma_seq_cmp_flip(a.skip(1), b.skip(1));
    }
}

/// Lexicographic comparison is transitive.
pub proof fn lemma_seq_cmp_trans(a: Seq<char>, b: Seq<char>, c: Seq<char>)
    ensures
        seq_cmp(a, b) != Cmp::Gt && seq_cmp(b, c) != Cmp::Gt ==> seq_cmp(a, c) != Cmp::Gt,
        seq_cmp(a, b) == Cmp::Lt && seq_cmp(b, c) != Cmp::Gt ==> seq_cmp(a, c) == Cmp::Lt,
        seq_cmp(a, b) != Cmp::Gt && seq_cmp(b, c) == Cmp::Lt ==> seq_cmp(a, c) == Cmp::Lt,
    decreases a.len() + b.len() + c.len(),
{
    if a.len() > 0 && b.len() > 0 && c.len() > 0 {
        lemma_seq_cmp_trans(a.skip(1), b.skip(1), c.skip(1));
    }
}

/// The view of an optional string.
pub open spec fn view_opt_str(o: Option<String>) -> Option<Seq<char>> {
    match o {
        Option::Some(s) => Option::Some(s@),
        Option::None => Option::None,
    }
}

/// Three-way comparison of optional sequences; absent sorts before present.
pub open spec fn opt_seq_cmp(a: Option<Seq<char>>, b: Option<Seq<char>>) -> Cmp {
    match (a, b) {
        (Option::None, Option::None) => Cmp::Eq,
        (Option::None, Option::Some(_)) => Cmp::Lt,
        (Option::Some(_), Option::None) => Cmp::Gt,
        (Option::Some(x), Option::Some(y)) => seq_cmp(x, y),
    }
}

/// Comparison of optional strings; absent sorts before present.
pub fn opt_strcmp(a: &Option<String>, b: &Option<String>) -> (r: Cmp)
    ensures
        r == opt_seq_cmp(view_opt_str(*a), view_opt_str(*b)),
{
    match (a, b) {
        (Option::None, Option::None) => Cmp::Eq,
        (Option::None, Option::Some(_)) => Cmp::Lt,
        (Option::Some(_), Option::None) => Cmp::Gt,
        (Option::Some(x), Option::Some(y)) => strcmp(x.as_str(), y.as_str()),
    }
}

/// Identifier normalization: hyphens are read as underscores.
pub open spec fn normalize_seq(s: Seq<char>) -> Seq<char> {
    s.map_values(|c: char| if c == '-' { '_' } else { c })
}

/// Test whether `key`, normalized, equals `name`.
pub fn matches_normalized(key: &str, name: &str) -> (r: bool)
    ensures
        r == (normalize_seq(key@) == name@),
{
    let klen = key.unicode_len();
    let nlen = name.unicode_len();
    if klen != nlen {
        proof {
            assert(normalize_seq(key@).len() == key@.len());
        }
        return false;
    }
    let mut i: usize = 0;
    while i < klen
        invariant
            i <= klen,
            klen == key@.len(),
            nlen == name@.len(),
            klen == nlen,
            forall|k: int| 0 <= k < i ==> normalize_seq(key@)[k] == name@[k],
        decreases klen - i,
    {
        let kc = key.get_char(i);
        let nc = name.get_char(i);
        let kcn = if kc == '-' { '_' } else { kc };
        if kcn != nc {
            proof {
                assert(normalize_seq(key@)[i as int] == kcn);
                if normalize_seq(key@) == name@ {
                    assert(normalize_seq(key@)[i as int] == name@[i as int]);
                }
            }
            return false;
        }
        proof {
            assert(normalize_seq(key@)[i as int] == nc);
        }
        i = i + 1;
    }
    proof {
        assert(normalize_seq(key@) =~= name@);
    }
    true
}

} // verus!
