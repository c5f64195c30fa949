use vstd::prelude::*;
use crate::tables::{
    binding_entries, binding_view, bindings_entry, bindings_get, bindings_insert, bindings_len,
    bindings_new, distinct_keys, has_key, key_index, put, Bindings,
};

verus! {

/// A substitution: the class that each variable stands for.
pub type Subst = Map<Seq<char>, usize>;

/// The substitution that a list of entries stands for.
pub open spec fn bmap(es: Seq<(Seq<char>, usize)>) -> Subst {
    Map::new(|k: Seq<char>| has_key(es, k), |k: Seq<char>| es[key_index(es, k)].1)
}

/// The substitution that a set of bindings stands for.
pub open spec fn subst_of(b: Bindings) -> Subst {
    bmap(binding_entries(b))
}

/// Whether two substitutions give the same class to every variable they share.
pub open spec fn consistent(a: Subst, b: Subst) -> bool {
    forall|k: Seq<char>| a.contains_key(k) && b.contains_key(k) ==> a[k] == b[k]
}

/// Whether the first `n` substitutions agree pairwise.
pub open spec fn all_consistent(ds: Seq<Subst>, n: int) -> bool {
    forall|x: int, y: int| 0 <= x < y < n ==> consistent(#[trigger] ds[x], #[trigger] ds[y])
}

/// The union of the first `n` substitutions.
pub open spec fn joined(ds: Seq<Subst>, n: int) -> Subst
    decreases n,
{
    if n <= 0 {
        Map::empty()
    } else {
        joined(ds, n - 1).union_prefer_right(ds[n - 1])
    }
}

/// The substitutions that a list of bindings stands for.
pub open spec fn substs_of(bs: Seq<Bindings>) -> Seq<Subst> {
    Seq::new(bs.len(), |i: int| subst_of(bs[i]))
}

/// The key of an entry is bound, to the value of the entry where keys are distinct.
pub proof fn lemma_entry(es: Seq<(Seq<char>, usize)>, i: int)
    requires
        0 <= i < es.len(),
    ensures
        has_key(es, es[i].0),
        bmap(es).contains_key(es[i].0),
        distinct_keys(es) ==> bmap(es)[es[i].0] == es[i].1,
{
    let k = es[i].0;
    assert(has_key(es, k));
    let x = key_index(es, k);
    assert(0 <= x < es.len() && es[x].0 == k);
}

/// Storing a value under a key changes the substitution at that key alone.
pub proof fn lemma_put(es: Seq<(Seq<char>, usize)>, k: Seq<char>, v: usize)
    requires
        distinct_keys(es),
    ensures
        distinct_keys(put(es, k, v)),
        bmap(put(es, k, v)) == bmap(es).insert(k, v),
{
    let after = put(es, k, v);
    if has_key(es, k) {
        let x = key_index(es, k);
        assert(0 <= x < es.len() && es[x].0 == k);
        assert forall|i: int| 0 <= i < es.len() implies (#[trigger] after[i]).0 == es[i].0 by {}
        assert forall|i: int, j: int|
            0 <= i < after.len() && 0 <= j < after.len() && (#[trigger] after[i]).0
                == (#[trigger] after[j]).0 implies i == j by {
            assert(es[i].0 == es[j].0);
        }
        assert forall|q: Seq<char>| has_key(after, q) == has_key(es, q) by {
            if has_key(after, q) {
                let i = key_index(after, q);
                assert(es[i].0 == q);
            }
            if has_key(es, q) {
                let i = key_index(es, q);
                assert(after[i].0 == q);
            }
        }
        assert forall|q: Seq<char>| has_key(after, q) implies #[trigger] bmap(after)[q] == bmap(
            es,
        ).insert(k, v)[q] by {
            let i = key_index(after, q);
            let j = key_index(es, q);
            assert(0 <= i < after.len() && after[i].0 == q);
            assert(0 <= j < es.len() && es[j].0 == q);
            assert(es[i].0 == es[j].0);
        }
        assert(bmap(after) =~= bmap(es).insert(k, v));
    } else {
        assert forall|i: int| 0 <= i < es.len() implies #[trigger] after[i] == es[i] by {}
        assert(after[es.len() as int] == (k, v));
        assert forall|i: int, j: int|
            0 <= i < after.len() && 0 <= j < after.len() && (#[trigger] after[i]).0
                == (#[trigger] after[j]).0 implies i == j by {
            if i < es.len() && j < es.len() {
                assert(es[i].0 == es[j].0);
            } else if i < es.len() {
                assert(es[i].0 == k);
            } else if j < es.len() {
                assert(es[j].0 == k);
            }
        }
        assert forall|q: Seq<char>| has_key(after, q) == (has_key(es, q) || q == k) by {
            if has_key(after, q) {
                let i = key_index(after, q);
                if i < es.len() {
                    assert(es[i].0 == q);
                }
            }
            if has_key(es, q) {
                let i = key_index(es, q);
                assert(after[i].0 == q);
            }
            if q == k {
                assert(after[es.len() as int].0 == q);
            }
        }
        assert forall|q: Seq<char>| has_key(after, q) implies #[trigger] bmap(after)[q] == bmap(
            es,
        ).insert(k, v)[q] by {
            let i = key_index(after, q);
            assert(0 <= i < after.len() && after[i].0 == q);
            if q == k {
                assert(after[es.len() as int].0 == after[i].0);
            } else {
                let j = key_index(es, q);
                assert(0 <= j < es.len() && es[j].0 == q);
                assert(after[j].0 == after[i].0);
            }
        }
        assert(bmap(after) =~= bmap(es).insert(k, v));
    }
}

/// Whether one of the first `n` entries has the key `k`.
pub open spec fn seen(es: Seq<(Seq<char>, usize)>, n: int, k: Seq<char>) -> bool {
    exists|x: int| 0 <= x < n && (#[trigger] es[x]).0 == k
}

proof fn lemma_seen(es: Seq<(Seq<char>, usize)>, n: int, k: Seq<char>)
    requires
        0 <= n < es.len(),
    ensures
        seen(es, n + 1, k) <==> seen(es, n, k) || es[n].0 == k,
        seen(es, n, k) ==> has_key(es, k),
        has_key(es, k) <==> seen(es, es.len() as int, k),
{
    if seen(es, n + 1, k) {
        let x = choose|x: int| 0 <= x < n + 1 && (#[trigger] es[x]).0 == k;
        if x < n {
            assert(0 <= x < n && es[x].0 == k);
        }
    }
    if seen(es, n, k) {
        let x = choose|x: int| 0 <= x < n && (#[trigger] es[x]).0 == k;
        assert(0 <= x < n + 1 && es[x].0 == k);
    }
    if es[n].0 == k {
        assert(0 <= n < n + 1 && es[n].0 == k);
    }
    if has_key(es, k) {
        let x = key_index(es, k);
        assert(0 <= x < es.len() && es[x].0 == k);
    }
}

proof fn lemma_seen_all(es: Seq<(Seq<char>, usize)>, k: Seq<char>)
    ensures
        has_key(es, k) <==> seen(es, es.len() as int, k),
{
    if has_key(es, k) {
        let x = key_index(es, k);
        assert(0 <= x < es.len() && es[x].0 == k);
    }
}

/// The bindings of `a` and `b` together, where the two give the same class
/// to every variable they share; else `None`.
pub fn merge(a: &Bindings, b: &Bindings) -> (r: Option<Bindings>)
    ensures
        r.is_some() == consistent(subst_of(*a), subst_of(*b)),
        match r {
            Some(m) => subst_of(m) == subst_of(*a).union_prefer_right(subst_of(*b))
                && distinct_keys(binding_entries(m)),
            None => true,
        },
{
    let ghost ea = binding_entries(*a);
    let ghost eb = binding_entries(*b);
    let ghost sa = bmap(ea);
    let ghost sb = bmap(eb);
    let mut r = bindings_new();
    let na = bindings_len(a);
    let mut i: usize = 0;
    while i < na
        invariant
            i <= na,
            na == ea.len(),
            ea == binding_entries(*a),
            sa == bmap(ea),
            distinct_keys(binding_entries(r)),
            forall|k: Seq<char>| #[trigger]
                bmap(binding_entries(r)).contains_key(k) <==> seen(ea, i as int, k),
            forall|k: Seq<char>| #[trigger]
                bmap(binding_entries(r)).contains_key(k) ==> bmap(binding_entries(r))[k] == sa[k],
        decreases na - i,
    {
        let e = bindings_entry(a, i);
        let ghost before = binding_entries(r);
        let ghost k0 = ea[i as int].0;
        proof {
            lemma_entry(ea, i as int);
            assert(binding_view(e) == ea[i as int]);
        }
        let v = bindings_get(a, &e.0).unwrap();
        proof {
            assert(v == sa[k0]);
            lemma_put(before, k0, v);
        }
        bindings_insert(&mut r, e.0, v);
        proof {
            let after = bmap(binding_entries(r));
            assert(after == bmap(before).insert(k0, v));
            assert forall|k: Seq<char>| #[trigger] after.contains_key(k) <==> seen(
                ea,
                i + 1,
                k,
            ) by {
                lemma_seen(ea, i as int, k);
                assert(bmap(before).contains_key(k) <==> seen(ea, i as int, k));
            }
            assert forall|k: Seq<char>| #[trigger] after.contains_key(k) implies after[k]
                == sa[k] by {
                if k != k0 {
                    assert(bmap(before).contains_key(k));
                }
            }
        }
        i += 1;
    }
    proof {
        let now = bmap(binding_entries(r));
        assert forall|k: Seq<char>| now.contains_key(k) <==> sa.contains_key(k) by {
            lemma_seen_all(ea, k);
            assert(now.contains_key(k) <==> seen(ea, i as int, k));
        }
        assert(now =~= sa);
    }
    let nb = bindings_len(b);
    let mut j: usize = 0;
    while j < nb
        invariant
            j <= nb,
            nb == eb.len(),
            eb == binding_entries(*b),
            sb == bmap(eb),
            ea == binding_entries(*a),
            sa == bmap(ea),
            distinct_keys(binding_entries(r)),
            forall|k: Seq<char>| #[trigger]
                bmap(binding_entries(r)).contains_key(k) <==> sa.contains_key(k) || seen(
                    eb,
                    j as int,
                    k,
                ),
            forall|k: Seq<char>| #[trigger]
                bmap(binding_entries(r)).contains_key(k) ==> bmap(binding_entries(r))[k] == (if seen(
                    eb,
                    j as int,
                    k,
                ) {
                    sb[k]
                } else {
                    sa[k]
                }),
            forall|k: Seq<char>|
                sa.contains_key(k) && #[trigger] seen(eb, j as int, k) ==> sa[k] == sb[k],
        decreases nb - j,
    {
        let e = bindings_entry(b, j);
        let ghost before = binding_entries(r);
        let ghost k0 = eb[j as int].0;
        proof {
            lemma_entry(eb, j as int);
            assert(binding_view(e) == eb[j as int]);
        }
        let v = bindings_get(b, &e.0).unwrap();
        let there = bindings_get(&r, &e.0);
        proof {
            assert(v == sb[k0]);
            assert(there.is_some() == bmap(before).contains_key(k0));
            if there.is_some() {
                assert(there.unwrap() == bmap(before)[k0]);
            }
        }
        match there {
            Some(w) => {
                if w != v {
                    proof {
                        assert(bmap(before).contains_key(k0));
                        assert(!seen(eb, j as int, k0));
                        assert(sa.contains_key(k0) && sb.contains_key(k0) && sa[k0] != sb[k0]);
                        assert(subst_of(*a) == sa && subst_of(*b) == sb);
                        if consistent(sa, sb) {
                            assert(sa[k0] == sb[k0]);
                        }
                    }
                    return None;
                }
            },
            None => {},
        }
        proof {
            lemma_put(before, k0, v);
        }
        bindings_insert(&mut r, e.0, v);
        proof {
            let after = bmap(binding_entries(r));
            assert(after == bmap(before).insert(k0, v));
            assert forall|k: Seq<char>| #[trigger]
                after.contains_key(k) <==> sa.contains_key(k) || seen(eb, j + 1, k) by {
                lemma_seen(eb, j as int, k);
                assert(bmap(before).contains_key(k) <==> sa.contains_key(k) || seen(
                    eb,
                    j as int,
                    k,
                ));
            }
            assert forall|k: Seq<char>| #[trigger] after.contains_key(k) implies after[k] == (if seen(
                eb,
                j + 1,
                k,
            ) {
                sb[k]
            } else {
                sa[k]
            }) by {
                lemma_seen(eb, j as int, k);
                if k != k0 {
                    assert(bmap(before).contains_key(k));
                }
            }
            assert forall|k: Seq<char>|
                sa.contains_key(k) && #[trigger] seen(eb, j + 1, k) implies sa[k] == sb[k] by {
                lemma_seen(eb, j as int, k);
                if k == k0 {
                    assert(bmap(before).contains_key(k0));
                    if seen(eb, j as int, k0) {
                    } else {
                        assert(bmap(before)[k0] == sa[k0]);
                    }
                }
            }
        }
        j += 1;
    }
    proof {
        let now = bmap(binding_entries(r));
        assert forall|q: Seq<char>| sa.contains_key(q) && sb.contains_key(q) implies sa[q]
            == sb[q] by {
            lemma_seen_all(eb, q);
            assert(seen(eb, j as int, q));
        }
        assert forall|q: Seq<char>| now.contains_key(q) <==> sa.contains_key(q)
            || sb.contains_key(q) by {
            lemma_seen_all(eb, q);
            assert(now.contains_key(q) <==> sa.contains_key(q) || seen(eb, j as int, q));
        }
        assert forall|q: Seq<char>| now.contains_key(q) implies #[trigger] now[q]
            == sa.union_prefer_right(sb)[q] by {
            lemma_seen_all(eb, q);
        }
        assert(now =~= sa.union_prefer_right(sb));
    }
    Some(r)
}

/// A variable of the union of the first `n` substitutions is one of some
/// substitution among them, and where they agree pairwise it has the class
/// that each of them gives it.
pub proof fn lemma_joined(ds: Seq<Subst>, n: int, k: Seq<char>)
    requires
        0 <= n <= ds.len(),
    ensures
        joined(ds, n).contains_key(k) <==> exists|x: int|
            0 <= x < n && (#[trigger] ds[x]).contains_key(k),
        all_consistent(ds, n) ==> forall|x: int|
            0 <= x < n && (#[trigger] ds[x]).contains_key(k) ==> joined(ds, n)[k] == ds[x][k],
    decreases n,
{
    if n > 0 {
        lemma_joined(ds, n - 1, k);
        if joined(ds, n).contains_key(k) {
            if ds[n - 1].contains_key(k) {
            } else {
                let x = choose|x: int| 0 <= x < n - 1 && (#[trigger] ds[x]).contains_key(k);
                assert(0 <= x < n && ds[x].contains_key(k));
            }
        }
        if exists|x: int| 0 <= x < n && (#[trigger] ds[x]).contains_key(k) {
            let x = choose|x: int| 0 <= x < n && (#[trigger] ds[x]).contains_key(k);
            if x < n - 1 {
                assert(0 <= x < n - 1 && ds[x].contains_key(k));
            }
        }
        if all_consistent(ds, n) {
            assert(all_consistent(ds, n - 1));
            assert forall|x: int|
                0 <= x < n && (#[trigger] ds[x]).contains_key(k) implies joined(ds, n)[k]
                == ds[x][k] by {
                if ds[n - 1].contains_key(k) {
                    if x < n - 1 {
                        assert(consistent(ds[x], ds[n - 1]));
                    }
                }
            }
        }
    }
}

/// Whether `s` is the substitution of one of the bindings.
pub open spec fn covered(bs: Seq<Bindings>, s: Subst) -> bool {
    exists|x: int| 0 <= x < bs.len() && subst_of(#[trigger] bs[x]) == s
}

/// Whether the bindings at places `x` and `y` can be merged.
pub open spec fn pair_ok(left: Seq<Bindings>, right: Seq<Bindings>, x: int, y: int) -> bool {
    0 <= x < left.len() && 0 <= y < right.len() && consistent(
        subst_of(left[x]),
        subst_of(right[y]),
    )
}

/// The union of the substitutions at places `x` and `y`.
pub open spec fn pair_union(left: Seq<Bindings>, right: Seq<Bindings>, x: int, y: int) -> Subst {
    subst_of(left[x]).union_prefer_right(subst_of(right[y]))
}

/// Whether `m` is the union of one of `left` with one of `right` that agree.
pub open spec fn made_from(left: Seq<Bindings>, right: Seq<Bindings>, m: Bindings) -> bool {
    distinct_keys(binding_entries(m)) && exists|x: int, y: int| #[trigger]
        pair_ok(left, right, x, y) && subst_of(m) == pair_union(left, right, x, y)
}

/// The unions of `a` with those of the first `m` of `right` that agree with it, in order.
pub open spec fn merged_row(a: Subst, right: Seq<Subst>, m: nat) -> Seq<Subst>
    decreases m,
{
    if m == 0 || m > right.len() {
        Seq::empty()
    } else {
        let before = merged_row(a, right, (m - 1) as nat);
        if consistent(a, right[m - 1]) {
            before.push(a.union_prefer_right(right[m - 1]))
        } else {
            before
        }
    }
}

/// The consistent unions of each of the first `n` of `left` with each of
/// `right`: those of the first of `left` first, each in the order of `right`.
pub open spec fn products(left: Seq<Subst>, right: Seq<Subst>, n: nat) -> Seq<Subst>
    decreases n,
{
    if n == 0 || n > left.len() {
        Seq::empty()
    } else {
        products(left, right, (n - 1) as nat) + merged_row(left[n - 1], right, right.len())
    }
}

/// Every consistent union of one of `left` with one of `right`.
pub fn product(left: &Vec<Bindings>, right: &Vec<Bindings>) -> (r: Vec<Bindings>)
    ensures
        substs_of(r@) == products(substs_of(left@), substs_of(right@), left@.len()),
        forall|z: int| 0 <= z < r@.len() ==> made_from(left@, right@, #[trigger] r@[z]),
        forall|x: int, y: int| #[trigger]
            pair_ok(left@, right@, x, y) ==> covered(r@, pair_union(left@, right@, x, y)),
{
    let mut r: Vec<Bindings> = Vec::new();
    let mut x: usize = 0;
    let ghost ls = substs_of(left@);
    let ghost rs = substs_of(right@);
    assert(substs_of(r@) =~= products(ls, rs, 0));
    while x < left.len()
        invariant
            x <= left@.len(),
            ls == substs_of(left@),
            rs == substs_of(right@),
            substs_of(r@) == products(ls, rs, x as nat),
            forall|z: int| 0 <= z < r@.len() ==> made_from(left@, right@, #[trigger] r@[z]),
            forall|x1: int, y1: int|
                x1 < x && #[trigger] pair_ok(left@, right@, x1, y1) ==> covered(
                    r@,
                    pair_union(left@, right@, x1, y1),
                ),
        decreases left@.len() - x,
    {
        let mut y: usize = 0;
        assert(substs_of(r@) =~= products(ls, rs, x as nat) + merged_row(ls[x as int], rs, 0));
        while y < right.len()
            invariant
                x < left@.len(),
                y <= right@.len(),
                ls == substs_of(left@),
                rs == substs_of(right@),
                substs_of(r@) == products(ls, rs, x as nat) + merged_row(
                    ls[x as int],
                    rs,
                    y as nat,
                ),
                forall|z: int| 0 <= z < r@.len() ==> made_from(left@, right@, #[trigger] r@[z]),
                forall|x1: int, y1: int|
                    (x1 < x || (x1 == x && y1 < y)) && #[trigger] pair_ok(left@, right@, x1, y1)
                        ==> covered(r@, pair_union(left@, right@, x1, y1)),
            decreases right@.len() - y,
        {
            let ghost before = r@;
            match merge(&left[x], &right[y]) {
                Some(m) => {
                    r.push(m);
                    proof {
                        assert forall|z: int| 0 <= z < before.len() implies r@[z] == before[z] by {}
                        lemma_covered_grows(before, r@);
                        assert(r@[before.len() as int] == m);
                        assert(pair_ok(left@, right@, x as int, y as int));
                        assert(made_from(left@, right@, m));
                        assert(covered(r@, pair_union(left@, right@, x as int, y as int)));
                        assert(substs_of(r@) =~= substs_of(before).push(subst_of(m)));
                    }
                },
                None => {},
            }
            proof {
                assert(ls[x as int] == subst_of(left@[x as int]));
                assert(rs[y as int] == subst_of(right@[y as int]));
                assert(substs_of(r@) =~= products(ls, rs, x as nat) + merged_row(
                    ls[x as int],
                    rs,
                    (y + 1) as nat,
                ));
            }
            y += 1;
        }
        x += 1;
    }
    r
}

/// What a list covers, a longer list with the same beginning covers too.
pub proof fn lemma_covered_grows(before: Seq<Bindings>, after: Seq<Bindings>)
    requires
        before.len() <= after.len(),
        forall|z: int| 0 <= z < before.len() ==> after[z] == before[z],
    ensures
        forall|s: Subst| #[trigger] covered(before, s) ==> covered(after, s),
{
    assert forall|s: Subst| #[trigger] covered(before, s) implies covered(after, s) by {
        let x = choose|x: int| 0 <= x < before.len() && subst_of(#[trigger] before[x]) == s;
        assert(subst_of(after[x]) == s);
    }
}

} // verus!
