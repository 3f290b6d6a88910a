//! The ordered view of the durable table: a sequence of key/value byte pairs,
//! strictly ascending in the keys' lexicographic order, together with the
//! operations the table performs on it and their laws.

use vstd::prelude::*;

verus! {

/// Strict lexicographic order on byte strings: a proper prefix comes first,
/// otherwise the first differing byte decides.
pub open spec fn lex_lt(a: Seq<u8>, b: Seq<u8>) -> bool
    decreases a.len(),
{
    if b.len() == 0 {
        false
    } else if a.len() == 0 {
        true
    } else if a[0] < b[0] {
        true
    } else if a[0] > b[0] {
        false
    } else {
        lex_lt(a.drop_first(), b.drop_first())
    }
}

/// Entries strictly ascending by key; in particular, keys are unique.
pub open spec fn entries_sorted(es: Seq<(Seq<u8>, Seq<u8>)>) -> bool {
    forall|i: int, j: int| 0 <= i < j < es.len() ==> lex_lt(es[i].0, es[j].0)
}

/// The value stored under `k`, if any.
pub open spec fn seq_lookup(es: Seq<(Seq<u8>, Seq<u8>)>, k: Seq<u8>) -> Option<Seq<u8>>
    decreases es.len(),
{
    if es.len() == 0 {
        None
    } else if es[0].0 == k {
        Some(es[0].1)
    } else {
        seq_lookup(es.drop_first(), k)
    }
}

/// The entries with `(k, v)` written: an existing entry for `k` is replaced
/// in place, a new one is inserted at its ordered position.
pub open spec fn sorted_put(es: Seq<(Seq<u8>, Seq<u8>)>, k: Seq<u8>, v: Seq<u8>) -> Seq<
    (Seq<u8>, Seq<u8>),
>
    decreases es.len(),
{
    if es.len() == 0 {
        seq![(k, v)]
    } else if lex_lt(k, es[0].0) {
        seq![(k, v)] + es
    } else if k == es[0].0 {
        seq![(k, v)] + es.drop_first()
    } else {
        seq![es[0]] + sorted_put(es.drop_first(), k, v)
    }
}

/// The entries with the entry for `k`, if any, removed.
pub open spec fn sorted_del(es: Seq<(Seq<u8>, Seq<u8>)>, k: Seq<u8>) -> Seq<(Seq<u8>, Seq<u8>)>
    decreases es.len(),
{
    if es.len() == 0 {
        es
    } else if es[0].0 == k {
        es.drop_first()
    } else {
        seq![es[0]] + sorted_del(es.drop_first(), k)
    }
}

pub proof fn lemma_lex_irrefl(a: Seq<u8>)
    ensures
        !lex_lt(a, a),
    decreases a.len(),
{
    if a.len() > 0 {
        lemma_lex_irrefl(a.drop_first());
    }
}

pub proof fn lemma_lex_total(a: Seq<u8>, b: Seq<u8>)
    ensures
        lex_lt(a, b) || lex_lt(b, a) || a == b,
    decreases a.len(),
{
    if a.len() > 0 && b.len() > 0 && a[0] == b[0] {
        lemma_lex_total(a.drop_first(), b.drop_first());
        if a.drop_first() == b.drop_first() {
            assert(a.len() == b.len());
            assert forall|i: int| 0 <= i < a.len() implies a[i] == b[i] by {
                if i > 0 {
                    assert(a[i] == a.drop_first()[i - 1]);
                    assert(b[i] == b.drop_first()[i - 1]);
                }
            }
            assert(a =~= b);
        }
    }
}

pub proof fn lemma_lex_trans(a: Seq<u8>, b: Seq<u8>, c: Seq<u8>)
    requires
        lex_lt(a, b),
        lex_lt(b, c),
    ensures
        lex_lt(a, c),
    decreases a.len(),
{
    if a.len() > 0 && b.len() > 0 && c.len() > 0 && a[0] == b[0] && b[0] == c[0] {
        lemma_lex_trans(a.drop_first(), b.drop_first(), c.drop_first());
    }
}

/// A key below every key of `es` is absent from `es`.
pub proof fn lemma_lookup_absent(es: Seq<(Seq<u8>, Seq<u8>)>, k: Seq<u8>)
    requires
        forall|i: int| 0 <= i < es.len() ==> (#[trigger] es[i].0) != k,
    ensures
        seq_lookup(es, k) is None,
    decreases es.len(),
{
    if es.len() > 0 {
        lemma_lookup_absent(es.drop_first(), k);
    }
}

/// A successful lookup names an actual entry.
pub proof fn lemma_lookup_index(es: Seq<(Seq<u8>, Seq<u8>)>, k: Seq<u8>)
    requires
        seq_lookup(es, k) is Some,
    ensures
        exists|i: int|
            0 <= i < es.len() && (#[trigger] es[i]).0 == k && es[i].1 == seq_lookup(es, k).unwrap(),
    decreases es.len(),
{
    if es.len() > 0 && es[0].0 != k {
        lemma_lookup_index(es.drop_first(), k);
        let i = choose|i: int|
            0 <= i < es.drop_first().len() && (#[trigger] es.drop_first()[i]).0 == k
                && es.drop_first()[i].1 == seq_lookup(es.drop_first(), k).unwrap();
        assert(es[i + 1] == es.drop_first()[i]);
    }
}

/// Deleting an absent key changes nothing at all.
pub proof fn lemma_sorted_del_absent(es: Seq<(Seq<u8>, Seq<u8>)>, k: Seq<u8>)
    requires
        seq_lookup(es, k) is None,
    ensures
        sorted_del(es, k) == es,
    decreases es.len(),
{
    if es.len() > 0 {
        assert(es[0].0 != k);
        lemma_sorted_del_absent(es.drop_first(), k);
        assert(seq![es[0]] + es.drop_first() =~= es);
    }
}

proof fn lemma_sorted_put_bound(es: Seq<(Seq<u8>, Seq<u8>)>, k: Seq<u8>, v: Seq<u8>, lo: Seq<u8>)
    requires
        lex_lt(lo, k),
        forall|i: int| 0 <= i < es.len() ==> lex_lt(lo, (#[trigger] es[i]).0),
    ensures
        forall|j: int|
            0 <= j < sorted_put(es, k, v).len() ==> lex_lt(lo, (#[trigger] sorted_put(es, k, v)[j]).0),
    decreases es.len(),
{
    let r = sorted_put(es, k, v);
    if es.len() == 0 {
        assert(r[0] == (k, v));
    } else if lex_lt(k, es[0].0) {
        assert forall|j: int| 0 <= j < r.len() implies lex_lt(lo, (#[trigger] r[j]).0) by {
            if j > 0 {
                assert(r[j] == es[j - 1]);
            }
        }
    } else if k == es[0].0 {
        assert forall|j: int| 0 <= j < r.len() implies lex_lt(lo, (#[trigger] r[j]).0) by {
            if j > 0 {
                assert(r[j] == es.drop_first()[j - 1]);
                assert(es.drop_first()[j - 1] == es[j]);
            }
        }
    } else {
        assert(forall|i: int|
            0 <= i < es.drop_first().len() ==> lex_lt(lo, (#[trigger] es.drop_first()[i]).0));
        lemma_sorted_put_bound(es.drop_first(), k, v, lo);
        let rr = sorted_put(es.drop_first(), k, v);
        assert forall|j: int| 0 <= j < r.len() implies lex_lt(lo, (#[trigger] r[j]).0) by {
            if j > 0 {
                assert(r[j] == rr[j - 1]);
            }
        }
    }
}

/// What writing `(k, v)` does: the result is still sorted, `k` now maps to
/// `v`, every other key is untouched, and the length grows exactly when `k`
/// was absent.
pub proof fn lemma_sorted_put(es: Seq<(Seq<u8>, Seq<u8>)>, k: Seq<u8>, v: Seq<u8>)
    requires
        entries_sorted(es),
    ensures
        entries_sorted(sorted_put(es, k, v)),
        seq_lookup(sorted_put(es, k, v), k) == Some(v),
        forall|k2: Seq<u8>|
            k2 != k ==> #[trigger] seq_lookup(sorted_put(es, k, v), k2) == seq_lookup(es, k2),
        sorted_put(es, k, v).len() == if seq_lookup(es, k) is Some {
            es.len() as int
        } else {
            es.len() + 1 as int
        },
        forall|i: int|
            0 <= i < sorted_put(es, k, v).len() ==> (#[trigger] sorted_put(es, k, v)[i]) == (k, v)
                || es.contains(sorted_put(es, k, v)[i]),
    decreases es.len(),
{
    let r = sorted_put(es, k, v);
    if es.len() == 0 {
        assert(r[0] == (k, v));
        assert forall|k2: Seq<u8>| k2 != k implies #[trigger] seq_lookup(r, k2) == seq_lookup(
            es,
            k2,
        ) by {
            assert(r.drop_first() =~= Seq::<(Seq<u8>, Seq<u8>)>::empty());
            assert(seq_lookup(r, k2) == seq_lookup(r.drop_first(), k2));
        }
    } else if lex_lt(k, es[0].0) {
        assert forall|i: int, j: int| 0 <= i < j < r.len() implies lex_lt(r[i].0, r[j].0) by {
            if i == 0 {
                assert(r[j] == es[j - 1]);
                if j > 1 {
                    lemma_lex_trans(k, es[0].0, es[j - 1].0);
                }
            } else {
                assert(r[i] == es[i - 1]);
                assert(r[j] == es[j - 1]);
            }
        }
        assert(r.drop_first() =~= es);
        assert forall|i: int| 0 <= i < es.len() implies (#[trigger] es[i].0) != k by {
            if i == 0 {
                lemma_lex_irrefl(k);
            } else {
                lemma_lex_trans(k, es[0].0, es[i].0);
                lemma_lex_irrefl(k);
            }
        }
        lemma_lookup_absent(es, k);
        assert forall|k2: Seq<u8>| k2 != k implies #[trigger] seq_lookup(r, k2) == seq_lookup(
            es,
            k2,
        ) by {
            assert(seq_lookup(r, k2) == seq_lookup(r.drop_first(), k2));
        }
    } else if k == es[0].0 {
        assert(r.drop_first() =~= es.drop_first());
        assert forall|i: int, j: int| 0 <= i < j < r.len() implies lex_lt(r[i].0, r[j].0) by {
            assert(r[j] == es.drop_first()[j - 1]);
            assert(es.drop_first()[j - 1] == es[j]);
            if i > 0 {
                assert(r[i] == es[i]);
            }
        }
        assert forall|k2: Seq<u8>| k2 != k implies #[trigger] seq_lookup(r, k2) == seq_lookup(
            es,
            k2,
        ) by {
            assert(seq_lookup(r, k2) == seq_lookup(r.drop_first(), k2));
            assert(seq_lookup(es, k2) == seq_lookup(es.drop_first(), k2));
        }
    } else {
        lemma_lex_total(k, es[0].0);
        assert(lex_lt(es[0].0, k));
        lemma_sorted_put(es.drop_first(), k, v);
        lemma_sorted_put_bound(es.drop_first(), k, v, es[0].0);
        let rr = sorted_put(es.drop_first(), k, v);
        assert forall|i: int, j: int| 0 <= i < j < r.len() implies lex_lt(r[i].0, r[j].0) by {
            assert(r[j] == rr[j - 1]);
            if i > 0 {
                assert(r[i] == rr[i - 1]);
            }
        }
        assert(r.drop_first() =~= rr);
        assert(r[0] == es[0]);
        assert(r[0].0 != k) by {
            lemma_lex_irrefl(k);
        }
        assert(seq_lookup(r, k) == seq_lookup(rr, k));
        assert forall|k2: Seq<u8>| k2 != k implies #[trigger] seq_lookup(r, k2) == seq_lookup(
            es,
            k2,
        ) by {
            if es[0].0 != k2 {
                assert(seq_lookup(r, k2) == seq_lookup(rr, k2));
                assert(seq_lookup(es, k2) == seq_lookup(es.drop_first(), k2));
            }
        }
        assert(seq_lookup(es, k) == seq_lookup(es.drop_first(), k));
        assert forall|i: int| 0 <= i < r.len() implies (#[trigger] r[i]) == (k, v) || es.contains(
            r[i],
        ) by {
            if i > 0 {
                assert(r[i] == rr[i - 1]);
                if rr[i - 1] != (k, v) {
                    let j = choose|j: int|
                        0 <= j < es.drop_first().len() && es.drop_first()[j] == rr[i - 1];
                    assert(es[j + 1] == rr[i - 1]);
                }
            }
        }
    }
    assert forall|i: int| 0 <= i < r.len() implies (#[trigger] r[i]) == (k, v) || es.contains(
        r[i],
    ) by {
        if es.len() == 0 {
        } else if lex_lt(k, es[0].0) {
            if i > 0 {
                assert(r[i] == es[i - 1]);
            }
        } else if k == es[0].0 {
            if i > 0 {
                assert(r[i] == es.drop_first()[i - 1]);
                assert(es.drop_first()[i - 1] == es[i]);
            }
        }
    }
}

proof fn lemma_sorted_del_bound(es: Seq<(Seq<u8>, Seq<u8>)>, k: Seq<u8>, lo: Seq<u8>)
    requires
        forall|i: int| 0 <= i < es.len() ==> lex_lt(lo, (#[trigger] es[i]).0),
    ensures
        forall|j: int|
            0 <= j < sorted_del(es, k).len() ==> lex_lt(lo, (#[trigger] sorted_del(es, k)[j]).0),
    decreases es.len(),
{
    let r = sorted_del(es, k);
    if es.len() == 0 {
    } else if es[0].0 == k {
        assert forall|j: int| 0 <= j < r.len() implies lex_lt(lo, (#[trigger] r[j]).0) by {
            assert(r[j] == es[j + 1]);
        }
    } else {
        assert(forall|i: int|
            0 <= i < es.drop_first().len() ==> lex_lt(lo, (#[trigger] es.drop_first()[i]).0));
        lemma_sorted_del_bound(es.drop_first(), k, lo);
        let rr = sorted_del(es.drop_first(), k);
        assert forall|j: int| 0 <= j < r.len() implies lex_lt(lo, (#[trigger] r[j]).0) by {
            if j > 0 {
                assert(r[j] == rr[j - 1]);
            }
        }
    }
}

/// What deleting `k` does: the result is still sorted, `k` is gone, every
/// other key is untouched, and the length shrinks exactly when `k` was there.
pub proof fn lemma_sorted_del(es: Seq<(Seq<u8>, Seq<u8>)>, k: Seq<u8>)
    requires
        entries_sorted(es),
    ensures
        entries_sorted(sorted_del(es, k)),
        seq_lookup(sorted_del(es, k), k) is None,
        forall|k2: Seq<u8>|
            k2 != k ==> #[trigger] seq_lookup(sorted_del(es, k), k2) == seq_lookup(es, k2),
        sorted_del(es, k).len() == if seq_lookup(es, k) is Some {
            es.len() - 1
        } else {
            es.len() as int
        },
        forall|i: int| 0 <= i < sorted_del(es, k).len() ==> es.contains(#[trigger] sorted_del(es, k)[i]),
    decreases es.len(),
{
    let r = sorted_del(es, k);
    if es.len() == 0 {
    } else if es[0].0 == k {
        assert forall|i: int, j: int| 0 <= i < j < r.len() implies lex_lt(r[i].0, r[j].0) by {
            assert(r[i] == es[i + 1] && r[j] == es[j + 1]);
        }
        assert forall|i: int| 0 <= i < r.len() implies (#[trigger] r[i].0) != k by {
            assert(r[i] == es[i + 1]);
            lemma_lex_irrefl(k);
        }
        lemma_lookup_absent(r, k);
        assert forall|k2: Seq<u8>| k2 != k implies #[trigger] seq_lookup(r, k2) == seq_lookup(
            es,
            k2,
        ) by {
            assert(seq_lookup(es, k2) == seq_lookup(es.drop_first(), k2));
        }
    } else {
        lemma_sorted_del(es.drop_first(), k);
        lemma_sorted_del_bound(es.drop_first(), k, es[0].0);
        let rr = sorted_del(es.drop_first(), k);
        assert forall|i: int, j: int| 0 <= i < j < r.len() implies lex_lt(r[i].0, r[j].0) by {
            assert(r[j] == rr[j - 1]);
            if i > 0 {
                assert(r[i] == rr[i - 1]);
            }
        }
        assert(r.drop_first() =~= rr);
        assert(r[0] == es[0]);
        assert(seq_lookup(r, k) == seq_lookup(rr, k));
        assert forall|k2: Seq<u8>| k2 != k implies #[trigger] seq_lookup(r, k2) == seq_lookup(
            es,
            k2,
        ) by {
            if es[0].0 != k2 {
                assert(seq_lookup(r, k2) == seq_lookup(rr, k2));
                assert(seq_lookup(es, k2) == seq_lookup(es.drop_first(), k2));
            }
        }
        assert(seq_lookup(es, k) == seq_lookup(es.drop_first(), k));
        assert forall|i: int| 0 <= i < r.len() implies es.contains(#[trigger] r[i]) by {
            if i > 0 {
                assert(r[i] == rr[i - 1]);
                let j = choose|j: int|
                    0 <= j < es.drop_first().len() && es.drop_first()[j] == rr[i - 1];
                assert(es[j + 1] == rr[i - 1]);
            }
        }
    }
    assert forall|i: int| 0 <= i < r.len() implies es.contains(#[trigger] r[i]) by {
        if es.len() > 0 && es[0].0 == k {
            assert(r[i] == es[i + 1]);
        }
    }
}

} // verus!
