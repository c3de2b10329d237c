//! Ordering of texts and a stable sort by text keys.
//!
//! Strings compare as `String::cmp` does: byte-wise on UTF-8, which is the
//! order of the code points, character by character.

use vstd::prelude::*;

verus! {

/// `a` sorts strictly before `b` (lexicographic, by code point; a proper
/// prefix sorts first).
pub open spec fn lex_lt(a: Seq<char>, b: Seq<char>) -> bool
    decreases a.len(),
{
    if a.len() == 0 {
        b.len() > 0
    } else if b.len() == 0 {
        false
    } else if a[0] != b[0] {
        a[0] < b[0]
    } else {
        lex_lt(a.drop_first(), b.drop_first())
    }
}

/// Nothing sorts before itself.
pub proof fn lemma_lex_irreflexive(a: Seq<char>)
    ensures
        !lex_lt(a, a),
    decreases a.len(),
{
    if a.len() > 0 {
        lemma_lex_irreflexive(a.drop_first());
    }
}

/// Two texts are ordered one way at most.
pub proof fn lemma_lex_asymmetric(a: Seq<char>, b: Seq<char>)
    ensures
        !(lex_lt(a, b) && lex_lt(b, a)),
    decreases a.len(),
{
    if a.len() > 0 && b.len() > 0 && a[0] == b[0] {
        lemma_lex_asymmetric(a.drop_first(), b.drop_first());
    }
}

/// The order is transitive.
pub proof fn lemma_lex_transitive(a: Seq<char>, b: Seq<char>, c: Seq<char>)
    requires
        lex_lt(a, b),
        lex_lt(b, c),
    ensures
        lex_lt(a, c),
    decreases a.len(),
{
    if a.len() > 0 && b.len() > 0 && c.len() > 0 && a[0] == b[0] && b[0] == c[0] {
        lemma_lex_transitive(a.drop_first(), b.drop_first(), c.drop_first());
    }
}

/// Two different texts are ordered one way or the other.
pub proof fn lemma_lex_total(a: Seq<char>, b: Seq<char>)
    ensures
        a == b || lex_lt(a, b) || lex_lt(b, a),
    decreases a.len(),
{
    if a.len() > 0 && b.len() > 0 {
        if a[0] == b[0] {
            lemma_lex_total(a.drop_first(), b.drop_first());
            if a.drop_first() == b.drop_first() {
                assert(a =~= seq![a[0]] + a.drop_first());
                assert(b =~= seq![b[0]] + b.drop_first());
            }
        }
    } else if a.len() == 0 && b.len() == 0 {
        assert(a =~= b);
    }
}

/// Dropping an equal first character keeps the order.
proof fn lemma_lex_suffix(a: Seq<char>, b: Seq<char>, i: int)
    requires
        0 <= i <= a.len(),
        i <= b.len(),
        a.subrange(0, i) == b.subrange(0, i),
    ensures
        lex_lt(a, b) == lex_lt(a.subrange(i, a.len() as int), b.subrange(i, b.len() as int)),
    decreases i,
{
    if i == 0 {
        assert(a.subrange(0, a.len() as int) =~= a);
        assert(b.subrange(0, b.len() as int) =~= b);
    } else {
        assert(a[0] == a.subrange(0, i)[0]);
        assert(b[0] == b.subrange(0, i)[0]);
        assert(a.drop_first().subrange(0, i - 1) =~= a.subrange(0, i).drop_first());
        assert(b.drop_first().subrange(0, i - 1) =~= b.subrange(0, i).drop_first());
        lemma_lex_suffix(a.drop_first(), b.drop_first(), i - 1);
        assert(a.drop_first().subrange(i - 1, a.drop_first().len() as int) =~= a.subrange(i, a.len() as int));
        assert(b.drop_first().subrange(i - 1, b.drop_first().len() as int) =~= b.subrange(i, b.len() as int));
    }
}

/// Whether `a` sorts strictly before `b`.
pub fn lex_less(a: &[char], b: &[char]) -> (r: bool)
    ensures
        r == lex_lt(a@, b@),
{
    let mut i: usize = 0;
    while i < a.len() && i < b.len() && a[i] == b[i]
        invariant
            i <= a@.len(),
            i <= b@.len(),
            a@.subrange(0, i as int) == b@.subrange(0, i as int),
        decreases a@.len() - i,
    {
        proof {
            assert(a@.subrange(0, i + 1) =~= a@.subrange(0, i as int).push(a@[i as int]));
            assert(b@.subrange(0, i + 1) =~= b@.subrange(0, i as int).push(b@[i as int]));
        }
        i = i + 1;
    }
    proof {
        lemma_lex_suffix(a@, b@, i as int);
    }
    let ghost sa = a@.subrange(i as int, a@.len() as int);
    let ghost sb = b@.subrange(i as int, b@.len() as int);
    if i == a.len() {
        assert(sa.len() == 0);
        i < b.len()
    } else if i == b.len() {
        assert(sb.len() == 0 && sa.len() > 0);
        false
    } else {
        assert(sa[0] == a@[i as int] && sb[0] == b@[i as int]);
        a[i] < b[i]
    }
}

/// `x` is to come before `y`: smaller first, or larger first when `desc`.
pub open spec fn precedes(x: Seq<char>, y: Seq<char>, desc: bool) -> bool {
    if desc {
        lex_lt(y, x)
    } else {
        lex_lt(x, y)
    }
}

/// `perm` lists each of `0..n` exactly once.
pub open spec fn is_index_permutation(perm: Seq<int>, n: int) -> bool {
    &&& perm.len() == n
    &&& forall|k: int| 0 <= k < n ==> 0 <= #[trigger] perm[k] < n
    &&& forall|a: int, b: int| 0 <= a < b < n ==> perm[a] != perm[b]
    &&& forall|j: int| 0 <= j < n ==> is_placed(perm, j)
}

/// Index `j` is taken somewhere in `perm`.
pub open spec fn is_placed(perm: Seq<int>, j: int) -> bool {
    exists|k: int| 0 <= k < perm.len() && perm[k] == j
}

/// Inserting `x` into `perm` keeps every index placed, and places `x`.
proof fn lemma_insert_placed(perm: Seq<int>, at: int, x: int, j: int)
    requires
        0 <= at <= perm.len(),
        is_placed(perm, j) || j == x,
    ensures
        is_placed(perm.insert(at, x), j),
{
    let q = perm.insert(at, x);
    if j == x {
        assert(q[at] == x);
    } else {
        let k = choose|k: int| 0 <= k < perm.len() && perm[k] == j;
        if k < at {
            assert(q[k] == j);
        } else {
            assert(q[k + 1] == j);
        }
    }
}

/// Taking the items of `keys` in the order `perm` sorts them by key, and
/// items with equal keys keep their original order.
pub open spec fn stable_order(keys: Seq<Seq<char>>, perm: Seq<int>, desc: bool) -> bool {
    &&& is_index_permutation(perm, keys.len() as int)
    &&& forall|a: int, b: int|
        0 <= a < b < keys.len() ==> !precedes(#[trigger] keys[perm[b]], #[trigger] keys[perm[a]], desc)
    &&& forall|a: int, b: int|
        0 <= a < b < keys.len() && keys[perm[a]] == keys[perm[b]] ==> perm[a] < perm[b]
}

/// `out` is `input` sorted stably by `key` (ascending, or descending when
/// `desc`), as `sort_by` / `sort_by_key` leave it.
pub open spec fn is_stable_sort<T>(out: Seq<T>, input: Seq<T>, key: spec_fn(T) -> Seq<char>, desc: bool) -> bool {
    exists|perm: Seq<int>|
        stable_order(input.map_values(key), perm, desc) && out.len() == input.len() && forall|k: int|
            0 <= k < out.len() ==> #[trigger] out[k] == input[perm[k]]
}

/// The character views of a list of keys.
pub open spec fn key_views(keys: Seq<Vec<char>>) -> Seq<Seq<char>> {
    keys.map_values(|k: Vec<char>| k@)
}

/// A sort by a list of keys computed from the items is a sort by the key
/// function.
pub proof fn lemma_keyed_sort<T>(r: Seq<T>, input: Seq<T>, keys: Seq<Seq<char>>, key: spec_fn(T) -> Seq<char>, desc: bool)
    requires
        keys == input.map_values(key),
        exists|perm: Seq<int>|
            stable_order(keys, perm, desc) && r.len() == input.len() && forall|k: int|
                0 <= k < r.len() ==> #[trigger] r[k] == input[perm[k]],
    ensures
        is_stable_sort(r, input, key, desc),
{
    let perm = choose|perm: Seq<int>|
        stable_order(keys, perm, desc) && r.len() == input.len() && forall|k: int|
            0 <= k < r.len() ==> #[trigger] r[k] == input[perm[k]];
    assert(stable_order(input.map_values(key), perm, desc));
}

/// Sorts `items` stably by the parallel list `keys` (insertion sort).
pub fn sort_by_keys<T>(items: Vec<T>, keys: Vec<Vec<char>>, desc: bool) -> (r: Vec<T>)
    requires
        keys@.len() == items@.len(),
    ensures
        exists|perm: Seq<int>|
            stable_order(key_views(keys@), perm, desc) && r@.len() == items@.len() && forall|k: int|
                0 <= k < r@.len() ==> #[trigger] r@[k] == items@[perm[k]],
{
    let ghost kv = key_views(keys@);
    let ghost orig = items@;
    let n = items.len();
    let mut rest = items;
    let mut rest_keys = keys;
    let mut out: Vec<T> = Vec::new();
    let mut out_keys: Vec<Vec<char>> = Vec::new();
    let ghost mut perm: Seq<int> = Seq::empty();
    while rest.len() > 0
        invariant
            n == orig.len() == kv.len(),
            rest@.len() == rest_keys@.len(),
            rest@ == orig.subrange(0, rest@.len() as int),
            key_views(rest_keys@) == kv.subrange(0, rest@.len() as int),
            out@.len() == out_keys@.len() == perm.len() == n - rest@.len(),
            forall|k: int| 0 <= k < perm.len() ==> rest@.len() <= #[trigger] perm[k] < n,
            forall|a: int, b: int| 0 <= a < b < perm.len() ==> perm[a] != perm[b],
            forall|j: int| rest@.len() <= j < n ==> is_placed(perm, j),
            forall|k: int| 0 <= k < out@.len() ==> #[trigger] out@[k] == orig[perm[k]],
            forall|k: int| 0 <= k < out@.len() ==> #[trigger] out_keys@[k]@ == kv[perm[k]],
            forall|a: int, b: int|
                0 <= a < b < perm.len() ==> !precedes(#[trigger] kv[perm[b]], #[trigger] kv[perm[a]], desc),
            forall|a: int, b: int| 0 <= a < b < perm.len() && kv[perm[a]] == kv[perm[b]] ==> perm[a] < perm[b],
        decreases rest@.len(),
    {
        let ghost idx: int = rest@.len() - 1;
        proof {
            assert(key_views(rest_keys@)[idx] == rest_keys@[idx]@);
        }
        let item = rest.pop().unwrap();
        let key = rest_keys.pop().unwrap();
        proof {
            assert(rest@ =~= orig.subrange(0, rest@.len() as int));
            assert(key_views(rest_keys@) =~= kv.subrange(0, rest@.len() as int));
        }
        // The new item comes before every kept item whose key does not
        // precede its own, and after all the others.
        let mut j: usize = out.len();
        while j > 0 && !sorts_before(out_keys[j - 1].as_slice(), key.as_slice(), desc)
            invariant
                j <= out@.len() == out_keys@.len() == perm.len(),
                key@ == kv[idx],
                forall|k: int| 0 <= k < out@.len() ==> #[trigger] out_keys@[k]@ == kv[perm[k]],
                forall|k: int| j <= k < out@.len() ==> !precedes(#[trigger] kv[perm[k]], kv[idx], desc),
            decreases j,
        {
            j = j - 1;
        }
        proof {
            assert forall|k: int| 0 <= k < j implies precedes(#[trigger] kv[perm[k]], kv[idx], desc) by {
                if k < j - 1 {
                    let x = kv[perm[k]];
                    let y = kv[perm[j - 1]];
                    assert(!precedes(y, x, desc));
                    lemma_lex_total(x, y);
                    if x != y {
                        if desc {
                            lemma_lex_transitive(kv[idx], y, x);
                        } else {
                            lemma_lex_transitive(x, y, kv[idx]);
                        }
                    }
                }
            }
        }
        out.insert(j, item);
        out_keys.insert(j, key);
        let ghost old_perm = perm;
        proof {
            perm = perm.insert(j as int, idx);
            assert forall|q: int| rest@.len() <= q < n implies is_placed(perm, q) by {
                lemma_insert_placed(old_perm, j as int, idx, q);
            }
            assert forall|a: int, b: int| 0 <= a < b < perm.len() implies !precedes(
                #[trigger] kv[perm[b]],
                #[trigger] kv[perm[a]],
                desc,
            ) by {
                if a < j as int && b == j as int {
                    lemma_lex_asymmetric(kv[old_perm[a]], kv[idx]);
                } else if a == j as int && b > j as int {
                } else if a < j as int && b > j as int {
                    assert(old_perm[b - 1] == perm[b]);
                } else if a > j as int {
                    assert(old_perm[a - 1] == perm[a] && old_perm[b - 1] == perm[b]);
                } else {
                }
            }
            assert forall|a: int, b: int| 0 <= a < b < perm.len() && kv[perm[a]] == kv[perm[b]] implies perm[a]
                < perm[b] by {
                if a < j as int && b == j as int {
                    lemma_lex_irreflexive(kv[idx]);
                } else if a > j as int {
                    assert(old_perm[a - 1] == perm[a] && old_perm[b - 1] == perm[b]);
                } else if a < j as int && b > j as int {
                    assert(old_perm[b - 1] == perm[b]);
                }
            }
            assert forall|k: int| 0 <= k < out@.len() implies #[trigger] out@[k] == orig[perm[k]] by {
                if k > j as int {
                    assert(old_perm[k - 1] == perm[k]);
                }
            }
            assert forall|k: int| 0 <= k < out@.len() implies #[trigger] out_keys@[k]@ == kv[perm[k]] by {
                if k > j as int {
                    assert(old_perm[k - 1] == perm[k]);
                }
            }
            assert forall|a: int, b: int| 0 <= a < b < perm.len() implies perm[a] != perm[b] by {
                if a < j as int && b > j as int {
                    assert(old_perm[b - 1] == perm[b]);
                } else if a > j as int {
                    assert(old_perm[a - 1] == perm[a] && old_perm[b - 1] == perm[b]);
                } else if a == j as int {
                    assert(old_perm[b - 1] == perm[b]);
                }
            }
            assert forall|k: int| 0 <= k < perm.len() implies rest@.len() <= #[trigger] perm[k] < n by {
                if k > j as int {
                    assert(old_perm[k - 1] == perm[k]);
                } else if k < j as int {
                    assert(old_perm[k] == perm[k]);
                }
            }
        }
    }
    proof {
        assert(kv =~= key_views(keys@));
        assert(stable_order(kv, perm, desc));
        assert(forall|k: int| 0 <= k < out@.len() ==> #[trigger] out@[k] == items@[perm[k]]);
    }
    out
}

/// Whether `x` is to come before `y` (see `precedes`).
fn sorts_before(x: &[char], y: &[char], desc: bool) -> (r: bool)
    ensures
        r == precedes(x@, y@, desc),
{
    if desc {
        lex_less(y, x)
    } else {
        lex_less(x, y)
    }
}

// ── Integer keys ────────────────────────────────────────────────────────────

/// Taking the items with integer keys `keys` in the order `perm` sorts them
/// by key, smaller first, and items with equal keys keep their order.
pub open spec fn int_stable_order(keys: Seq<int>, perm: Seq<int>) -> bool {
    &&& is_index_permutation(perm, keys.len() as int)
    &&& forall|a: int, b: int| 0 <= a < b < keys.len() ==> #[trigger] keys[perm[a]] <= #[trigger] keys[perm[b]]
    &&& forall|a: int, b: int| 0 <= a < b < keys.len() && keys[perm[a]] == keys[perm[b]] ==> perm[a] < perm[b]
}

/// `out` is `input` sorted stably by the integer `key`, smaller first (as
/// `sort_by_key` leaves it).
pub open spec fn is_stable_int_sort<T>(out: Seq<T>, input: Seq<T>, key: spec_fn(T) -> int) -> bool {
    exists|perm: Seq<int>|
        int_stable_order(input.map_values(key), perm) && out.len() == input.len() && forall|k: int|
            0 <= k < out.len() ==> #[trigger] out[k] == input[perm[k]]
}

/// Sorts `items` stably by the parallel list of integer `keys`, smaller
/// first (insertion sort).
pub fn sort_by_int_keys<T>(items: Vec<T>, keys: Vec<i64>, Ghost(key): Ghost<spec_fn(T) -> int>) -> (r: Vec<T>)
    requires
        keys@.len() == items@.len(),
        forall|i: int| 0 <= i < items@.len() ==> keys@[i] == key(#[trigger] items@[i]),
    ensures
        is_stable_int_sort(r@, items@, key),
{
    let ghost kv = items@.map_values(key);
    let ghost orig = items@;
    let n = items.len();
    let mut rest = items;
    let mut rest_keys = keys;
    let mut out: Vec<T> = Vec::new();
    let mut out_keys: Vec<i64> = Vec::new();
    let ghost mut perm: Seq<int> = Seq::empty();
    while rest.len() > 0
        invariant
            n == orig.len() == kv.len(),
            kv == orig.map_values(key),
            rest@.len() == rest_keys@.len(),
            rest@ == orig.subrange(0, rest@.len() as int),
            forall|i: int| 0 <= i < rest@.len() ==> rest_keys@[i] == kv[i],
            out@.len() == out_keys@.len() == perm.len() == n - rest@.len(),
            forall|k: int| 0 <= k < perm.len() ==> rest@.len() <= #[trigger] perm[k] < n,
            forall|a: int, b: int| 0 <= a < b < perm.len() ==> perm[a] != perm[b],
            forall|j: int| rest@.len() <= j < n ==> is_placed(perm, j),
            forall|k: int| 0 <= k < out@.len() ==> #[trigger] out@[k] == orig[perm[k]],
            forall|k: int| 0 <= k < out@.len() ==> #[trigger] out_keys@[k] == kv[perm[k]],
            forall|a: int, b: int| 0 <= a < b < perm.len() ==> #[trigger] kv[perm[a]] <= #[trigger] kv[perm[b]],
            forall|a: int, b: int| 0 <= a < b < perm.len() && kv[perm[a]] == kv[perm[b]] ==> perm[a] < perm[b],
        decreases rest@.len(),
    {
        let ghost idx: int = rest@.len() - 1;
        assert(rest_keys@[idx] == kv[idx]);
        let item = rest.pop().unwrap();
        let k = rest_keys.pop().unwrap();
        proof {
            assert(rest@ =~= orig.subrange(0, rest@.len() as int));
        }
        let mut j: usize = out.len();
        while j > 0 && out_keys[j - 1] >= k
            invariant
                j <= out@.len() == out_keys@.len() == perm.len(),
                k == kv[idx],
                forall|t: int| 0 <= t < out@.len() ==> #[trigger] out_keys@[t] == kv[perm[t]],
                forall|t: int| j <= t < out@.len() ==> kv[idx] <= #[trigger] kv[perm[t]],
            decreases j,
        {
            j = j - 1;
        }
        proof {
            assert forall|t: int| 0 <= t < j implies #[trigger] kv[perm[t]] < kv[idx] by {
                if t < j - 1 {
                    assert(kv[perm[t]] <= kv[perm[j - 1]]);
                }
            }
        }
        out.insert(j, item);
        out_keys.insert(j, k);
        let ghost old_perm = perm;
        proof {
            perm = perm.insert(j as int, idx);
            assert forall|q: int| rest@.len() <= q < n implies is_placed(perm, q) by {
                lemma_insert_placed(old_perm, j as int, idx, q);
            }
            assert forall|a: int, b: int| 0 <= a < b < perm.len() implies #[trigger] kv[perm[a]] <= #[trigger] kv[perm[b]] by {
                if a < j as int && b == j as int {
                } else if a == j as int && b > j as int {
                    assert(old_perm[b - 1] == perm[b]);
                } else if a < j as int && b > j as int {
                    assert(old_perm[b - 1] == perm[b]);
                } else if a > j as int {
                    assert(old_perm[a - 1] == perm[a] && old_perm[b - 1] == perm[b]);
                }
            }
            assert forall|a: int, b: int| 0 <= a < b < perm.len() && kv[perm[a]] == kv[perm[b]] implies perm[a] < perm[b] by {
                if a > j as int {
                    assert(old_perm[a - 1] == perm[a] && old_perm[b - 1] == perm[b]);
                } else if a < j as int && b > j as int {
                    assert(old_perm[b - 1] == perm[b]);
                } else if a == j as int {
                    assert(old_perm[b - 1] == perm[b]);
                }
            }
            assert forall|t: int| 0 <= t < out@.len() implies #[trigger] out@[t] == orig[perm[t]] by {
                if t > j as int {
                    assert(old_perm[t - 1] == perm[t]);
                }
            }
            assert forall|t: int| 0 <= t < out@.len() implies #[trigger] out_keys@[t] == kv[perm[t]] by {
                if t > j as int {
                    assert(old_perm[t - 1] == perm[t]);
                }
            }
            assert forall|a: int, b: int| 0 <= a < b < perm.len() implies perm[a] != perm[b] by {
                if a < j as int && b > j as int {
                    assert(old_perm[b - 1] == perm[b]);
                } else if a > j as int {
                    assert(old_perm[a - 1] == perm[a] && old_perm[b - 1] == perm[b]);
                } else if a == j as int {
                    assert(old_perm[b - 1] == perm[b]);
                }
            }
            assert forall|t: int| 0 <= t < perm.len() implies rest@.len() <= #[trigger] perm[t] < n by {
                if t > j as int {
                    assert(old_perm[t - 1] == perm[t]);
                } else if t < j as int {
                    assert(old_perm[t] == perm[t]);
                }
            }
        }
    }
    proof {
        assert(int_stable_order(kv, perm));
        assert(forall|t: int| 0 <= t < out@.len() ==> #[trigger] out@[t] == orig[perm[t]]);
    }
    out
}

} // verus!
