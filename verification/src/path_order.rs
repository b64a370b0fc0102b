//! Sorting and de-duplicating the image files that a pool lists.
//!
//! A path is ordered by its components, compared one after the other; a
//! component is a tag byte (root, current directory, parent directory or
//! normal name, in that order) followed by the raw bytes of its name, and
//! components compare lexicographically by bytes. A path that is a proper
//! prefix of another comes first. Two paths are the same when their component
//! sequences are equal; of several such paths the first one listed is kept.
use vstd::prelude::*;

verus! {

/// Lexicographic order on sequences, from an order `lt` on their items.
pub open spec fn lex_lt<T>(a: Seq<T>, b: Seq<T>, lt: spec_fn(T, T) -> bool) -> bool
    decreases a.len(),
{
    if a.len() == 0 {
        b.len() > 0
    } else if b.len() == 0 {
        false
    } else if a[0] == b[0] {
        lex_lt(a.drop_first(), b.drop_first(), lt)
    } else {
        lt(a[0], b[0])
    }
}

/// `lt` is irreflexive, transitive and total.
pub open spec fn strict_total_order<T>(lt: spec_fn(T, T) -> bool) -> bool {
    &&& forall|x: T| !#[trigger] lt(x, x)
    &&& forall|x: T, y: T, z: T| #[trigger] lt(x, y) && #[trigger] lt(y, z) ==> lt(x, z)
    &&& forall|x: T, y: T| #![trigger lt(x, y)] x != y ==> lt(x, y) || lt(y, x)
}

/// Byte strings in lexicographic order.
pub open spec fn bytes_lt(a: Seq<u8>, b: Seq<u8>) -> bool {
    lex_lt(a, b, |x: u8, y: u8| x < y)
}

/// Paths, as sequences of encoded components, in component order.
pub open spec fn key_lt(a: Seq<Seq<u8>>, b: Seq<Seq<u8>>) -> bool {
    lex_lt(a, b, |x: Seq<u8>, y: Seq<u8>| bytes_lt(x, y))
}

pub proof fn lemma_lex_irreflexive<T>(a: Seq<T>, lt: spec_fn(T, T) -> bool)
    requires
        strict_total_order(lt),
    ensures
        !lex_lt(a, a, lt),
    decreases a.len(),
{
    if a.len() > 0 {
        lemma_lex_irreflexive(a.drop_first(), lt);
    }
}

pub proof fn lemma_lex_transitive<T>(a: Seq<T>, b: Seq<T>, c: Seq<T>, lt: spec_fn(T, T) -> bool)
    requires
        strict_total_order(lt),
        lex_lt(a, b, lt),
        lex_lt(b, c, lt),
    ensures
        lex_lt(a, c, lt),
    decreases a.len(),
{
    if a.len() > 0 {
        if a[0] == b[0] && b[0] == c[0] {
            lemma_lex_transitive(a.drop_first(), b.drop_first(), c.drop_first(), lt);
        } else if a[0] != b[0] && b[0] != c[0] {
            if a[0] == c[0] {
                assert(lt(a[0], b[0]) && lt(b[0], a[0]));
                assert(lt(a[0], a[0]));
            }
        }
    }
}

pub proof fn lemma_lex_total<T>(a: Seq<T>, b: Seq<T>, lt: spec_fn(T, T) -> bool)
    requires
        strict_total_order(lt),
        a != b,
    ensures
        lex_lt(a, b, lt) || lex_lt(b, a, lt),
    decreases a.len(),
{
    if a.len() == 0 && b.len() == 0 {
        assert(a =~= b);
    } else if a.len() > 0 && b.len() > 0 {
        if a[0] == b[0] {
            if a.drop_first() =~= b.drop_first() {
                assert forall|k: int| 0 <= k < a.len() implies a[k] == b[k] by {
                    if k > 0 {
                        assert(a[k] == a.drop_first()[k - 1]);
                        assert(b[k] == b.drop_first()[k - 1]);
                    }
                }
                assert(a =~= b);
            } else {
                lemma_lex_total(a.drop_first(), b.drop_first(), lt);
            }
        } else {
            assert(lt(a[0], b[0]) || lt(b[0], a[0]));
        }
    }
}

/// Lexicographic order from a strict total order is a strict total order.
pub proof fn lemma_lex_strict_total<T>(lt: spec_fn(T, T) -> bool)
    requires
        strict_total_order(lt),
    ensures
        strict_total_order(|a: Seq<T>, b: Seq<T>| lex_lt(a, b, lt)),
{
    let l = |a: Seq<T>, b: Seq<T>| lex_lt(a, b, lt);
    assert forall|x: Seq<T>| !#[trigger] l(x, x) by {
        lemma_lex_irreflexive(x, lt);
    }
    assert forall|x: Seq<T>, y: Seq<T>, z: Seq<T>| #[trigger] l(x, y) && #[trigger] l(y, z) implies l(
        x,
        z,
    ) by {
        lemma_lex_transitive(x, y, z, lt);
    }
    assert forall|x: Seq<T>, y: Seq<T>| #![trigger l(x, y)] x != y implies l(x, y) || l(y, x) by {
        lemma_lex_total(x, y, lt);
    }
}

/// The order on bytes and the orders derived from it are strict total orders.
pub proof fn lemma_orders_strict_total()
    ensures
        strict_total_order(|x: u8, y: u8| x < y),
        strict_total_order(|x: Seq<u8>, y: Seq<u8>| bytes_lt(x, y)),
        strict_total_order(|x: Seq<Seq<u8>>, y: Seq<Seq<u8>>| key_lt(x, y)),
{
    let byte = |x: u8, y: u8| x < y;
    lemma_lex_strict_total(byte);
    let bytes = |x: Seq<u8>, y: Seq<u8>| bytes_lt(x, y);
    assert(bytes =~= (|a: Seq<u8>, b: Seq<u8>| lex_lt(a, b, byte)));
    lemma_lex_strict_total(bytes);
    let keys = |x: Seq<Seq<u8>>, y: Seq<Seq<u8>>| key_lt(x, y);
    assert(keys =~= (|a: Seq<Seq<u8>>, b: Seq<Seq<u8>>| lex_lt(a, b, bytes)));
}

/// Paths in component order: irreflexive, transitive and total.
pub proof fn lemma_key_order()
    ensures
        forall|x: Seq<Seq<u8>>| !#[trigger] key_lt(x, x),
        forall|x: Seq<Seq<u8>>, y: Seq<Seq<u8>>, z: Seq<Seq<u8>>| #[trigger]
            key_lt(x, y) && #[trigger] key_lt(y, z) ==> key_lt(x, z),
        forall|x: Seq<Seq<u8>>, y: Seq<Seq<u8>>|
            #![trigger key_lt(x, y)]
            x != y ==> key_lt(x, y) || key_lt(y, x),
{
    lemma_orders_strict_total();
    let keys = |x: Seq<Seq<u8>>, y: Seq<Seq<u8>>| key_lt(x, y);
    assert forall|x: Seq<Seq<u8>>| !#[trigger] key_lt(x, x) by {
        assert(!keys(x, x));
    }
    assert forall|x: Seq<Seq<u8>>, y: Seq<Seq<u8>>, z: Seq<Seq<u8>>| #[trigger]
        key_lt(x, y) && #[trigger] key_lt(y, z) implies key_lt(x, z) by {
        assert(keys(x, y) && keys(y, z));
    }
    assert forall|x: Seq<Seq<u8>>, y: Seq<Seq<u8>>|
        #![trigger key_lt(x, y)]
        x != y implies key_lt(x, y) || key_lt(y, x) by {
        assert(keys(x, y) || keys(y, x));
    }
}

/// Stepping past an equal first item keeps the order of the rests.
proof fn lemma_lex_skip_step<T>(a: Seq<T>, b: Seq<T>, k: int, lt: spec_fn(T, T) -> bool)
    requires
        0 <= k < a.len(),
        k < b.len(),
        a[k] == b[k],
    ensures
        lex_lt(a.skip(k), b.skip(k), lt) == lex_lt(a.skip(k + 1), b.skip(k + 1), lt),
{
    assert(a.skip(k).drop_first() =~= a.skip(k + 1));
    assert(b.skip(k).drop_first() =~= b.skip(k + 1));
}

/// The outcome of comparing two values.
#[derive(Debug, Clone, Copy, PartialEq, Eq, Structural)]
pub enum Rel {
    Less,
    Equal,
    Greater,
}

/// Compares two byte strings lexicographically.
pub fn compare_bytes(a: &Vec<u8>, b: &Vec<u8>) -> (r: Rel)
    ensures
        r == Rel::Less <==> bytes_lt(a@, b@),
        r == Rel::Equal <==> a@ == b@,
        r == Rel::Greater <==> bytes_lt(b@, a@),
{
    proof {
        lemma_orders_strict_total();
        lemma_lex_irreflexive(a@, |x: u8, y: u8| x < y);
    }
    let mut k: usize = 0;
    assert(a@.skip(0) =~= a@);
    assert(b@.skip(0) =~= b@);
    loop
        invariant
            k <= a@.len(),
            k <= b@.len(),
            a@.take(k as int) =~= b@.take(k as int),
            bytes_lt(a@, b@) == lex_lt(a@.skip(k as int), b@.skip(k as int), |x: u8, y: u8| x < y),
            bytes_lt(b@, a@) == lex_lt(b@.skip(k as int), a@.skip(k as int), |x: u8, y: u8| x < y),
            strict_total_order(|x: u8, y: u8| x < y),
        decreases a@.len() - k,
    {
        if k == a.len() {
            if k == b.len() {
                assert(a@ =~= a@.take(k as int));
                assert(b@ =~= b@.take(k as int));
                return Rel::Equal;
            }
            assert(b@[k as int] == b@.skip(k as int)[0]);
            return Rel::Less;
        }
        if k == b.len() {
            assert(a@[k as int] == a@.skip(k as int)[0]);
            assert(a@.len() != b@.len());
            return Rel::Greater;
        }
        if a[k] != b[k] {
            assert(a@.skip(k as int)[0] == a@[k as int]);
            assert(b@.skip(k as int)[0] == b@[k as int]);
            assert(a@[k as int] != b@[k as int]);
            assert(a@.take(k as int + 1)[k as int] != b@.take(k as int + 1)[k as int]);
            if a[k] < b[k] {
                return Rel::Less;
            } else {
                return Rel::Greater;
            }
        }
        proof {
            lemma_lex_skip_step(a@, b@, k as int, |x: u8, y: u8| x < y);
            lemma_lex_skip_step(b@, a@, k as int, |x: u8, y: u8| x < y);
            assert(a@.take(k as int + 1) =~= a@.take(k as int).push(a@[k as int]));
            assert(b@.take(k as int + 1) =~= b@.take(k as int).push(b@[k as int]));
        }
        k += 1;
    }
}

/// Compares two paths, given as their encoded components, in component order.
pub fn compare_keys(a: &Vec<Vec<u8>>, b: &Vec<Vec<u8>>) -> (r: Rel)
    ensures
        r == Rel::Less <==> key_lt(a.deep_view(), b.deep_view()),
        r == Rel::Equal <==> a.deep_view() == b.deep_view(),
        r == Rel::Greater <==> key_lt(b.deep_view(), a.deep_view()),
{
    let ghost da = a.deep_view();
    let ghost db = b.deep_view();
    let ghost bytes = |x: Seq<u8>, y: Seq<u8>| bytes_lt(x, y);
    proof {
        lemma_orders_strict_total();
        lemma_lex_irreflexive(da, bytes);
        assert((|x: Seq<Seq<u8>>, y: Seq<Seq<u8>>| key_lt(x, y)) =~= (|x: Seq<Seq<u8>>, y: Seq<
            Seq<u8>,
        >| lex_lt(x, y, bytes)));
    }
    let mut k: usize = 0;
    assert(da.skip(0) =~= da);
    assert(db.skip(0) =~= db);
    loop
        invariant
            da == a.deep_view(),
            db == b.deep_view(),
            da.len() == a@.len(),
            db.len() == b@.len(),
            k <= da.len(),
            k <= db.len(),
            da.take(k as int) =~= db.take(k as int),
            key_lt(da, db) == lex_lt(da.skip(k as int), db.skip(k as int), bytes),
            key_lt(db, da) == lex_lt(db.skip(k as int), da.skip(k as int), bytes),
            bytes == (|x: Seq<u8>, y: Seq<u8>| bytes_lt(x, y)),
            strict_total_order(bytes),
        decreases da.len() - k,
    {
        if k == a.len() {
            if k == b.len() {
                assert(da =~= da.take(k as int));
                assert(db =~= db.take(k as int));
                return Rel::Equal;
            }
            assert(db[k as int] == db.skip(k as int)[0]);
            return Rel::Less;
        }
        if k == b.len() {
            assert(da[k as int] == da.skip(k as int)[0]);
            assert(da.len() != db.len());
            return Rel::Greater;
        }
        let c = compare_bytes(&a[k], &b[k]);
        assert(da[k as int] == a@[k as int]@);
        assert(db[k as int] == b@[k as int]@);
        match c {
            Rel::Equal => {
                proof {
                    lemma_lex_skip_step(da, db, k as int, bytes);
                    lemma_lex_skip_step(db, da, k as int, bytes);
                    assert(da.take(k as int + 1) =~= da.take(k as int).push(da[k as int]));
                    assert(db.take(k as int + 1) =~= db.take(k as int).push(db[k as int]));
                }
            },
            _ => {
                assert(da.skip(k as int)[0] == da[k as int]);
                assert(db.skip(k as int)[0] == db[k as int]);
                assert(da.take(k as int + 1)[k as int] != db.take(k as int + 1)[k as int]);
                return c;
            },
        }
        k += 1;
    }
}

/// `out` lists, in strictly increasing component order, one index per
/// distinct path among the first `upto` paths of `keys`: the first index at
/// which that path occurs.
pub open spec fn sorted_unique_upto(keys: Seq<Seq<Seq<u8>>>, out: Seq<usize>, upto: int) -> bool {
    &&& forall|a: int| 0 <= a < out.len() ==> #[trigger] out[a] < upto
    &&& forall|a: int, b: int|
        0 <= a < b < out.len() ==> key_lt(keys[#[trigger] out[a] as int], keys[#[trigger] out[b] as int])
    &&& forall|a: int, q: int|
        #![trigger keys[q], out[a]]
        0 <= a < out.len() && 0 <= q < out[a] ==> keys[q] != keys[out[a] as int]
    &&& forall|q: int| 0 <= q < upto ==> #[trigger] covered(keys, out, q)
}

/// Some kept index names the same path as index `q`.
pub open spec fn covered(keys: Seq<Seq<Seq<u8>>>, out: Seq<usize>, q: int) -> bool {
    exists|a: int| 0 <= a < out.len() && keys[#[trigger] out[a] as int] == keys[q]
}

/// `out` lists, in strictly increasing component order, one index per
/// distinct path of `keys`: the first index at which that path occurs.
pub open spec fn sorted_unique_of(keys: Seq<Seq<Seq<u8>>>, out: Seq<usize>) -> bool {
    sorted_unique_upto(keys, out, keys.len() as int)
}

/// Inserting path `i` where the scan stopped keeps the list sorted, unique
/// and covering.
proof fn lemma_insert_new_path(
    kk: Seq<Seq<Seq<u8>>>,
    old_out: Seq<usize>,
    p: int,
    i: int,
    stopped: bool,
)
    requires
        0 <= i < kk.len(),
        i <= usize::MAX,
        sorted_unique_upto(kk, old_out, i),
        0 <= p <= old_out.len(),
        forall|a: int| 0 <= a < p ==> key_lt(kk[#[trigger] old_out[a] as int], kk[i]),
        stopped ==> p < old_out.len() && key_lt(kk[i], kk[old_out[p] as int]),
        !stopped ==> p == old_out.len(),
    ensures
        sorted_unique_upto(kk, old_out.insert(p, i as usize), i + 1),
{
    lemma_key_order();
    let new_out = old_out.insert(p, i as usize);
    assert forall|a: int| 0 <= a < old_out.len() implies kk[#[trigger] old_out[a] as int]
        != kk[i] by {
        if a < p {
            assert(key_lt(kk[old_out[a] as int], kk[i]));
        } else {
            if a > p {
                assert(key_lt(kk[old_out[p] as int], kk[old_out[a] as int]));
            }
            assert(key_lt(kk[i], kk[old_out[a] as int]));
        }
    }
    assert forall|a: int| 0 <= a < new_out.len() implies #[trigger] new_out[a] == (if a < p {
        old_out[a]
    } else if a == p {
        i as usize
    } else {
        old_out[a - 1]
    }) by {}
    assert forall|a: int, b: int| 0 <= a < b < new_out.len() implies key_lt(
        kk[#[trigger] new_out[a] as int],
        kk[#[trigger] new_out[b] as int],
    ) by {
        if b < p {
        } else if b == p {
            assert(key_lt(kk[old_out[a] as int], kk[i]));
        } else if a < p {
            assert(key_lt(kk[old_out[a] as int], kk[old_out[b - 1] as int]));
        } else if a == p {
            assert(key_lt(kk[i], kk[old_out[p] as int]));
            if b - 1 > p {
                assert(key_lt(kk[old_out[p] as int], kk[old_out[b - 1] as int]));
            }
        } else {
            assert(key_lt(kk[old_out[a - 1] as int], kk[old_out[b - 1] as int]));
        }
    }
    assert forall|a: int, q: int|
        #![trigger kk[q], new_out[a]]
        0 <= a < new_out.len() && 0 <= q < new_out[a] implies kk[q] != kk[new_out[a] as int] by {
        if a == p {
            if kk[q] == kk[i] {
                assert(covered(kk, old_out, q));
                let w = choose|w: int| 0 <= w < old_out.len() && kk[#[trigger] old_out[w] as int] == kk[q];
                assert(kk[old_out[w] as int] != kk[i]);
            }
        } else if a < p {
            assert(new_out[a] == old_out[a]);
            assert(kk[q] != kk[old_out[a] as int]);
        } else {
            assert(new_out[a] == old_out[a - 1]);
            assert(kk[q] != kk[old_out[a - 1] as int]);
        }
    }
    assert forall|a: int| 0 <= a < new_out.len() implies #[trigger] new_out[a] < i + 1 by {}
    assert forall|q: int| 0 <= q < i + 1 implies #[trigger] covered(kk, new_out, q) by {
        if q == i {
            assert(kk[new_out[p] as int] == kk[q]);
        } else {
            assert(covered(kk, old_out, q));
            let w = choose|w: int| 0 <= w < old_out.len() && kk[#[trigger] old_out[w] as int] == kk[q];
            if w < p {
                assert(kk[new_out[w] as int] == kk[q]);
            } else {
                assert(kk[new_out[w + 1] as int] == kk[q]);
            }
        }
    }
}

/// Skipping path `i` when an equal path is already kept keeps the list
/// covering.
proof fn lemma_skip_known_path(kk: Seq<Seq<Seq<u8>>>, out: Seq<usize>, p: int, i: int)
    requires
        0 <= i < kk.len(),
        sorted_unique_upto(kk, out, i),
        0 <= p < out.len(),
        kk[out[p] as int] == kk[i],
    ensures
        sorted_unique_upto(kk, out, i + 1),
{
    assert forall|q: int| 0 <= q < i + 1 implies #[trigger] covered(kk, out, q) by {
        if q == i {
            assert(kk[out[p] as int] == kk[q]);
        }
    }
}

/// The indices of the paths in `keys`, sorted in component order, keeping
/// only the first of several equal paths.
pub fn sorted_unique(keys: &Vec<Vec<Vec<u8>>>) -> (out: Vec<usize>)
    ensures
        sorted_unique_of(keys.deep_view(), out@),
{
    let ghost kk = keys.deep_view();
    let n = keys.len();
    let mut out: Vec<usize> = Vec::new();
    let mut i: usize = 0;
    while i < n
        invariant
            n == keys@.len(),
            kk == keys.deep_view(),
            kk.len() == n,
            i <= n,
            sorted_unique_upto(kk, out@, i as int),
        decreases n - i,
    {
        let mut p: usize = 0;
        let mut found = false;
        let mut stop = false;
        while p < out.len() && !stop
            invariant
                n == keys@.len(),
                kk == keys.deep_view(),
                kk.len() == n,
                i < n,
                p <= out@.len(),
                sorted_unique_upto(kk, out@, i as int),
                forall|a: int| 0 <= a < p ==> key_lt(kk[#[trigger] out@[a] as int], kk[i as int]),
                found ==> stop,
                stop ==> p < out@.len(),
                found ==> kk[out@[p as int] as int] == kk[i as int],
                stop && !found ==> key_lt(kk[i as int], kk[out@[p as int] as int]),
            decreases out@.len() - p, (if stop {
                0int
            } else {
                1int
            }),
        {
            let c = compare_keys(&keys[out[p]], &keys[i]);
            assert(kk[out@[p as int] as int] == keys@[out@[p as int] as int].deep_view());
            assert(kk[i as int] == keys@[i as int].deep_view());
            match c {
                Rel::Less => {
                    p += 1;
                },
                Rel::Equal => {
                    found = true;
                    stop = true;
                },
                Rel::Greater => {
                    stop = true;
                },
            }
        }
        if !found {
            proof {
                lemma_insert_new_path(kk, out@, p as int, i as int, stop);
            }
            out.insert(p, i);
        } else {
            proof {
                lemma_skip_known_path(kk, out@, p as int, i as int);
            }
        }
        i += 1;
    }
    out
}

/// Two lists of indices, each strictly increasing by the paths they name and
/// each holding the other's indices, are equal.
proof fn lemma_sorted_same_members(keys: Seq<Seq<Seq<u8>>>, s1: Seq<usize>, s2: Seq<usize>)
    requires
        forall|a: int, b: int|
            0 <= a < b < s1.len() ==> key_lt(keys[#[trigger] s1[a] as int], keys[#[trigger] s1[b] as int]),
        forall|a: int, b: int|
            0 <= a < b < s2.len() ==> key_lt(keys[#[trigger] s2[a] as int], keys[#[trigger] s2[b] as int]),
        forall|a: int| 0 <= a < s1.len() ==> s2.contains(#[trigger] s1[a]),
        forall|b: int| 0 <= b < s2.len() ==> s1.contains(#[trigger] s2[b]),
    ensures
        s1 == s2,
    decreases s1.len(),
{
    lemma_key_order();
    if s1.len() == 0 {
        if s2.len() > 0 {
            assert(s1.contains(s2[0]));
        }
        assert(s1 =~= s2);
    } else {
        assert(s2.contains(s1[0]));
        let j = choose|j: int| 0 <= j < s2.len() && s2[j] == s1[0];
        assert(s1.contains(s2[0]));
        let i = choose|i: int| 0 <= i < s1.len() && s1[i] == s2[0];
        if j > 0 {
            assert(key_lt(keys[s2[0] as int], keys[s2[j] as int]));
            if i > 0 {
                assert(key_lt(keys[s1[0] as int], keys[s1[i] as int]));
            }
        }
        assert(s1[0] == s2[0]);
        let t1 = s1.drop_first();
        let t2 = s2.drop_first();
        assert forall|a: int| 0 <= a < t1.len() implies t2.contains(#[trigger] t1[a]) by {
            assert(s2.contains(s1[a + 1]));
            let b = choose|b: int| 0 <= b < s2.len() && s2[b] == s1[a + 1];
            assert(key_lt(keys[s1[0] as int], keys[s1[a + 1] as int]));
            assert(b != 0);
            assert(t2[b - 1] == t1[a]);
        }
        assert forall|b: int| 0 <= b < t2.len() implies t1.contains(#[trigger] t2[b]) by {
            assert(s1.contains(s2[b + 1]));
            let a = choose|a: int| 0 <= a < s1.len() && s1[a] == s2[b + 1];
            assert(key_lt(keys[s2[0] as int], keys[s2[b + 1] as int]));
            assert(a != 0);
            assert(t1[a - 1] == t2[b]);
        }
        assert forall|a: int, b: int| 0 <= a < b < t1.len() implies key_lt(
            keys[#[trigger] t1[a] as int],
            keys[#[trigger] t1[b] as int],
        ) by {
            assert(t1[a] == s1[a + 1] && t1[b] == s1[b + 1]);
        }
        assert forall|a: int, b: int| 0 <= a < b < t2.len() implies key_lt(
            keys[#[trigger] t2[a] as int],
            keys[#[trigger] t2[b] as int],
        ) by {
            assert(t2[a] == s2[a + 1] && t2[b] == s2[b + 1]);
        }
        lemma_sorted_same_members(keys, t1, t2);
        assert forall|k: int| 0 <= k < s1.len() implies s1[k] == s2[k] by {
            if k > 0 {
                assert(s1[k] == t1[k - 1]);
                assert(s2[k] == t2[k - 1]);
            }
        }
        assert(s1 =~= s2);
    }
}

/// The description of [`sorted_unique`]'s result admits exactly one list:
/// any two lists that meet it for the same paths are equal.
pub proof fn lemma_sorted_unique_determined(keys: Seq<Seq<Seq<u8>>>, o1: Seq<usize>, o2: Seq<usize>)
    requires
        sorted_unique_of(keys, o1),
        sorted_unique_of(keys, o2),
    ensures
        o1 == o2,
{
    assert forall|a: int| 0 <= a < o1.len() implies o2.contains(#[trigger] o1[a]) by {
        assert(covered(keys, o2, o1[a] as int));
        let b = choose|b: int| 0 <= b < o2.len() && keys[#[trigger] o2[b] as int] == keys[o1[a] as int];
        if o1[a] < o2[b] {
            assert(keys[o1[a] as int] != keys[o2[b] as int]);
        } else if o2[b] < o1[a] {
            assert(keys[o2[b] as int] != keys[o1[a] as int]);
        }
        assert(o2[b] == o1[a]);
    }
    assert forall|b: int| 0 <= b < o2.len() implies o1.contains(#[trigger] o2[b]) by {
        assert(covered(keys, o1, o2[b] as int));
        let a = choose|a: int| 0 <= a < o1.len() && keys[#[trigger] o1[a] as int] == keys[o2[b] as int];
        if o1[a] < o2[b] {
            assert(keys[o1[a] as int] != keys[o2[b] as int]);
        } else if o2[b] < o1[a] {
            assert(keys[o2[b] as int] != keys[o1[a] as int]);
        }
        assert(o1[a] == o2[b]);
    }
    lemma_sorted_same_members(keys, o1, o2);
}

/// The paths that `out` keeps, in its order.
pub open spec fn kept_paths(keys: Seq<Seq<Seq<u8>>>, out: Seq<usize>) -> Seq<Seq<Seq<u8>>> {
    out.map_values(|i: usize| keys[i as int])
}

/// Two lists of paths, each strictly increasing in component order and each
/// holding the other's paths, are equal.
proof fn lemma_sorted_same_paths(s1: Seq<Seq<Seq<u8>>>, s2: Seq<Seq<Seq<u8>>>)
    requires
        forall|a: int, b: int| 0 <= a < b < s1.len() ==> key_lt(#[trigger] s1[a], #[trigger] s1[b]),
        forall|a: int, b: int| 0 <= a < b < s2.len() ==> key_lt(#[trigger] s2[a], #[trigger] s2[b]),
        forall|a: int| 0 <= a < s1.len() ==> s2.contains(#[trigger] s1[a]),
        forall|b: int| 0 <= b < s2.len() ==> s1.contains(#[trigger] s2[b]),
    ensures
        s1 == s2,
    decreases s1.len(),
{
    lemma_key_order();
    if s1.len() == 0 {
        if s2.len() > 0 {
            assert(s1.contains(s2[0]));
        }
        assert(s1 =~= s2);
    } else {
        assert(s2.contains(s1[0]));
        let j = choose|j: int| 0 <= j < s2.len() && s2[j] == s1[0];
        assert(s1.contains(s2[0]));
        let i = choose|i: int| 0 <= i < s1.len() && s1[i] == s2[0];
        if j > 0 {
            assert(key_lt(s2[0], s2[j]));
            if i > 0 {
                assert(key_lt(s1[0], s1[i]));
            }
        }
        assert(s1[0] == s2[0]);
        let t1 = s1.drop_first();
        let t2 = s2.drop_first();
        assert forall|a: int| 0 <= a < t1.len() implies t2.contains(#[trigger] t1[a]) by {
            assert(s2.contains(s1[a + 1]));
            let b = choose|b: int| 0 <= b < s2.len() && s2[b] == s1[a + 1];
            assert(key_lt(s1[0], s1[a + 1]));
            assert(b != 0);
            assert(t2[b - 1] == t1[a]);
        }
        assert forall|b: int| 0 <= b < t2.len() implies t1.contains(#[trigger] t2[b]) by {
            assert(s1.contains(s2[b + 1]));
            let a = choose|a: int| 0 <= a < s1.len() && s1[a] == s2[b + 1];
            assert(key_lt(s2[0], s2[b + 1]));
            assert(a != 0);
            assert(t1[a - 1] == t2[b]);
        }
        assert forall|a: int, b: int| 0 <= a < b < t1.len() implies key_lt(
            #[trigger] t1[a],
            #[trigger] t1[b],
        ) by {
            assert(t1[a] == s1[a + 1] && t1[b] == s1[b + 1]);
        }
        assert forall|a: int, b: int| 0 <= a < b < t2.len() implies key_lt(
            #[trigger] t2[a],
            #[trigger] t2[b],
        ) by {
            assert(t2[a] == s2[a + 1] && t2[b] == s2[b + 1]);
        }
        lemma_sorted_same_paths(t1, t2);
        assert forall|k: int| 0 <= k < s1.len() implies s1[k] == s2[k] by {
            if k > 0 {
                assert(s1[k] == t1[k - 1]);
                assert(s2[k] == t2[k - 1]);
            }
        }
        assert(s1 =~= s2);
    }
}

/// The paths kept depend only on which distinct paths occur: lists of paths
/// that hold the same paths, in any order and with any repetition, keep the
/// same paths in the same order.
pub proof fn lemma_kept_paths_ignore_order_and_repeats(
    k1: Seq<Seq<Seq<u8>>>,
    o1: Seq<usize>,
    k2: Seq<Seq<Seq<u8>>>,
    o2: Seq<usize>,
)
    requires
        sorted_unique_of(k1, o1),
        sorted_unique_of(k2, o2),
        k1.to_set() == k2.to_set(),
    ensures
        kept_paths(k1, o1) == kept_paths(k2, o2),
{
    let v1 = kept_paths(k1, o1);
    let v2 = kept_paths(k2, o2);
    assert forall|a: int| 0 <= a < v1.len() implies v2.contains(#[trigger] v1[a]) by {
        assert(k1.contains(k1[o1[a] as int]));
        assert(k2.to_set().contains(v1[a]));
        let q = choose|q: int| 0 <= q < k2.len() && k2[q] == v1[a];
        assert(covered(k2, o2, q));
        let b = choose|b: int| 0 <= b < o2.len() && k2[#[trigger] o2[b] as int] == k2[q];
        assert(v2[b] == v1[a]);
    }
    assert forall|b: int| 0 <= b < v2.len() implies v1.contains(#[trigger] v2[b]) by {
        assert(k2.contains(k2[o2[b] as int]));
        assert(k1.to_set().contains(v2[b]));
        let q = choose|q: int| 0 <= q < k1.len() && k1[q] == v2[b];
        assert(covered(k1, o1, q));
        let a = choose|a: int| 0 <= a < o1.len() && k1[#[trigger] o1[a] as int] == k1[q];
        assert(v1[a] == v2[b]);
    }
    assert forall|a: int, b: int| 0 <= a < b < v1.len() implies key_lt(
        #[trigger] v1[a],
        #[trigger] v1[b],
    ) by {
        assert(key_lt(k1[o1[a] as int], k1[o1[b] as int]));
    }
    assert forall|a: int, b: int| 0 <= a < b < v2.len() implies key_lt(
        #[trigger] v2[a],
        #[trigger] v2[b],
    ) by {
        assert(key_lt(k2[o2[a] as int], k2[o2[b] as int]));
    }
    lemma_sorted_same_paths(v1, v2);
}

} // verus!
