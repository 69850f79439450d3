use vstd::prelude::*;
use crate::model::{
    bump, edges_acc, edges_of, has_pair, lemma_edges_acc, lemma_party_order, lemma_users_of, names, oriented, party_lt, sorted,
    users_of, weight, EdgeView, Link,
};
use crate::repository::{PartyIndex, RecordRepository};

verus! {

/// Interaction counts between every two parties of a store. Row and column `i`
/// belong to `users[i]`; parties come in the canonical order.
#[derive(Debug)]
pub struct ConnectionMatrix {
    pub users: Vec<String>,
    pub counts: Vec<Vec<usize>>,
}

impl ConnectionMatrix {
    /// The matrix holds the interaction counts of `s`.
    pub open spec fn describes(&self, s: Seq<Link>) -> bool {
        &&& names(self.users@) == users_of(s)
        &&& self.counts@.len() == self.users@.len()
        &&& forall|i: int|
            0 <= i < self.users@.len() ==> #[trigger] self.counts@[i]@.len() == self.users@.len()
        &&& forall|i: int, j: int|
            0 <= i < self.users@.len() && 0 <= j < self.users@.len() ==> #[trigger] self.counts@[i]@[j]
                == weight(s, self.users@[i]@, self.users@[j]@)
    }
}

/// The row of party `a`: its interaction count with every party of the index.
fn row_counts(index: &PartyIndex, a: usize, Ghost(s): Ghost<Seq<Link>>) -> (row: Vec<usize>)
    requires
        index.resolves(s),
        a < index.users@.len(),
        s.len() <= usize::MAX,
    ensures
        row@.len() == index.users@.len(),
        forall|b: int|
            0 <= b < index.users@.len() ==> #[trigger] row@[b] == weight(
                s,
                index.users@[a as int]@,
                index.users@[b]@,
            ),
{
    let n = index.users.len();
    let ghost us = index.users@;
    proof {
        lemma_users_of(s);
    }
    let mut row: Vec<usize> = Vec::new();
    let mut b: usize = 0;
    while b < n
        invariant
            n == us.len(),
            0 <= b <= n,
            row@.len() == b,
            forall|c: int| 0 <= c < b ==> #[trigger] row@[c] == 0,
        decreases n - b,
    {
        row.push(0);
        b = b + 1;
    }
    let total = index.links.len();
    let mut k: usize = 0;
    while k < total
        invariant
            index.resolves(s),
            us == index.users@,
            names(us).no_duplicates(),
            n == us.len(),
            a < n,
            total == s.len(),
            0 <= k <= total,
            row@.len() == n,
            forall|c: int|
                0 <= c < n ==> #[trigger] row@[c] == weight(
                    s.subrange(0, k as int),
                    us[a as int]@,
                    us[c]@,
                ) && row@[c] <= k,
        decreases total - k,
    {
        let (i, j) = index.links[k];
        let ghost old_row = row@;
        if i == a && j != a {
            let v = row[j];
            row.set(j, v + 1);
        } else if j == a && i != a {
            let v = row[i];
            row.set(i, v + 1);
        }
        proof {
            let t = s.subrange(0, k + 1);
            assert(t.drop_last() =~= s.subrange(0, k as int));
            assert(t.last() == s[k as int]);
            assert(index.links@[k as int] == (i, j));
            assert forall|c: int| 0 <= c < n implies #[trigger] row@[c] == weight(
                t,
                us[a as int]@,
                us[c]@,
            ) && row@[c] <= k + 1 by {
                assert(names(us)[c] == us[c]@);
                assert(names(us)[a as int] == us[a as int]@);
                assert(names(us)[i as int] == us[i as int]@);
                assert(names(us)[j as int] == us[j as int]@);
                if c != a {
                    assert(us[c]@ != us[a as int]@);
                }
                if i != a {
                    assert(us[i as int]@ != us[a as int]@);
                }
                if j != a {
                    assert(us[j as int]@ != us[a as int]@);
                }
                if i != c {
                    assert(us[i as int]@ != us[c]@);
                }
                if j != c {
                    assert(us[j as int]@ != us[c]@);
                }
            }
        }
        k = k + 1;
    }
    assert(s.subrange(0, total as int) =~= s);
    row
}

/// One edge of the interaction graph: two distinct parties and how many records
/// are between them.
#[derive(Debug)]
pub struct Edge {
    pub user1: String,
    pub user2: String,
    pub weight: usize,
}

/// The parties and weight of each edge.
pub open spec fn edge_views(v: Seq<Edge>) -> Seq<EdgeView> {
    v.map_values(|e: Edge| (e.user1@, e.user2@, e.weight as nat))
}

/// The position of the entry of `hv` that joins handles `i` and `j`, or `hv.len()`.
fn find_pair(hv: &Vec<(usize, usize, usize)>, i: usize, j: usize) -> (r: usize)
    ensures
        r <= hv@.len(),
        r < hv@.len() ==> (hv@[r as int].0 == i && hv@[r as int].1 == j) || (hv@[r as int].0 == j
            && hv@[r as int].1 == i),
        r == hv@.len() ==> forall|f: int|
            0 <= f < hv@.len() ==> !((#[trigger] hv@[f]).0 == i && hv@[f].1 == j) && !(hv@[f].0
                == j && hv@[f].1 == i),
{
    let m = hv.len();
    let mut e: usize = 0;
    while e < m
        invariant
            m == hv@.len(),
            0 <= e <= m,
            forall|f: int|
                0 <= f < e ==> !((#[trigger] hv@[f]).0 == i && hv@[f].1 == j) && !(hv@[f].0 == j
                    && hv@[f].1 == i),
        decreases m - e,
    {
        let (a, b, _) = hv[e];
        if (a == i && b == j) || (a == j && b == i) {
            return e;
        }
        e = e + 1;
    }
    m
}

impl RecordRepository {
    /// The interaction count of every two parties of the store.
    pub fn get_connection_matrix(&self) -> (r: ConnectionMatrix)
        requires
            self.fits(),
        ensures
            r.describes(self.interactions()),
            sorted(names(r.users@)),
    {
        proof {
            lemma_users_of(self.interactions());
        }
        let ghost s = self.interactions();
        let index = self.party_index();
        let n = index.users.len();
        let mut counts: Vec<Vec<usize>> = Vec::new();
        let mut a: usize = 0;
        while a < n
            invariant
                s == self.interactions(),
                index.resolves(s),
                s.len() <= usize::MAX,
                n == index.users@.len(),
                0 <= a <= n,
                counts@.len() == a,
                forall|i: int| 0 <= i < a ==> #[trigger] counts@[i]@.len() == n,
                forall|i: int, j: int|
                    0 <= i < a && 0 <= j < n ==> #[trigger] counts@[i]@[j] == weight(
                        s,
                        index.users@[i]@,
                        index.users@[j]@,
                    ),
            decreases n - a,
        {
            let row = row_counts(&index, a, Ghost(s));
            counts.push(row);
            a = a + 1;
        }
        ConnectionMatrix { users: index.users, counts }
    }
}

} // verus!

verus! {

impl RecordRepository {
    /// The weighted edge list of the store: one edge for each pair of distinct parties
    /// that share at least one record.
    pub fn get_edges(&self) -> (r: Vec<Edge>)
        requires
            self.fits(),
        ensures
            edge_views(r@) == edges_of(self.interactions()),
            forall|k: int|
                0 <= k < r@.len() ==> party_lt(
                    (#[trigger] edge_views(r@)[k]).0,
                    edge_views(r@)[k].1,
                ) && edge_views(r@)[k].2 >= 1,
    {
        proof {
            crate::laws::law_edge_weights_exact(self);
        }
        let ghost s = self.interactions();
        let index = self.party_index();
        let ghost us = index.users@;
        let ghost un = names(us);
        proof {
            lemma_users_of(s);
        }
        let n = index.users.len();
        let total = index.links.len();
        let mut hv: Vec<(usize, usize, usize)> = Vec::new();
        let mut k: usize = 0;
        while k < total
            invariant
                index.resolves(s),
                us == index.users@,
                un == names(us),
                un == users_of(s),
                un.no_duplicates(),
                sorted(un),
                n == us.len(),
                total == s.len(),
                0 <= k <= total,
                hv@.len() == edges_acc(s.subrange(0, k as int)).len(),
                forall|e: int|
                    0 <= e < hv@.len() ==> {
                        let h = #[trigger] hv@[e];
                        &&& h.0 < n
                        &&& h.1 < n
                        &&& h.2 <= k
                        &&& (us[h.0 as int]@, us[h.1 as int]@, h.2 as nat) == edges_acc(s.subrange(0, k as int),
                        )[e]
                    },
            decreases total - k,
        {
            let ghost t = s.subrange(0, k + 1);
            let ghost es = edges_acc(s.subrange(0, k as int));
            let ghost x = s[k as int];
            proof {
                assert(t.drop_last() =~= s.subrange(0, k as int));
                assert(t.last() == x);
                lemma_edges_acc(s.subrange(0, k as int));
            }
            let (i, j) = index.links[k];
            proof {
                assert(index.links@[k as int] == (i, j));
                assert(un[i as int] == us[i as int]@);
                assert(un[j as int] == us[j as int]@);
                assert(x.0 == un[i as int] && x.1 == un[j as int]);
            }
            let ghost old_hv = hv@;
            if i != j {
                let f = find_pair(&hv, i, j);
                if f < hv.len() {
                    let (a, b, w) = hv[f];
                    proof {
                        assert(old_hv[f as int] == (a, b, w));
                        assert(es[f as int] == (us[a as int]@, us[b as int]@, w as nat));
                        assert(has_pair(es[f as int], x.0, x.1));
                        let c = choose|c: int| 0 <= c < es.len() && has_pair(#[trigger] es[c], x.0, x.1);
                        if c != f {
                            assert(!has_pair(es[c], es[f as int].0, es[f as int].1));
                        }
                        assert(bump(es, x) == es.update(f as int, (es[f as int].0, es[f as int].1, es[f as int].2 + 1)));
                    }
                    hv.set(f, (a, b, w + 1));
                } else {
                    proof {
                        assert forall|c: int| 0 <= c < es.len() implies !has_pair(#[trigger] es[c], x.0, x.1) by {
                            let h = old_hv[c];
                            assert(un[h.0 as int] == us[h.0 as int]@);
                            assert(un[h.1 as int] == us[h.1 as int]@);
                        }
                        assert(un[i as int] == x.0);
                        assert(un[j as int] == x.1);
                        lemma_party_order(x.0, x.1, x.0);
                        if i < j {
                            assert(party_lt(un[i as int], un[j as int]));
                        } else {
                            assert(party_lt(un[j as int], un[i as int]));
                        }
                        assert(oriented(x) == if i < j { x } else { (x.1, x.0) });
                    }
                    if i < j {
                        hv.push((i, j, 1));
                    } else {
                        hv.push((j, i, 1));
                    }
                }
            }
            k = k + 1;
        }
        assert(s.subrange(0, total as int) =~= s);
        let mut r: Vec<Edge> = Vec::new();
        let m = hv.len();
        let mut e: usize = 0;
        while e < m
            invariant
                index.resolves(s),
                us == index.users@,
                un == names(us),
                n == us.len(),
                m == hv@.len(),
                m == edges_of(s).len(),
                un == users_of(s),
                0 <= e <= m,
                r@.len() == e,
                forall|f: int|
                    0 <= f < m ==> {
                        let h = #[trigger] hv@[f];
                        &&& h.0 < n
                        &&& h.1 < n
                        &&& (us[h.0 as int]@, us[h.1 as int]@, h.2 as nat) == edges_of(s)[f]
                    },
                forall|f: int| 0 <= f < e ==> #[trigger] edge_views(r@)[f] == edges_of(s)[f],
            decreases m - e,
        {
            let (a, b, w) = hv[e];
            let ghost before = r@;
            proof {
                assert(hv@[e as int] == (a, b, w));
            }
            r.push(Edge { user1: index.users[a].clone(), user2: index.users[b].clone(), weight: w });
            proof {
                assert forall|f: int| 0 <= f < e + 1 implies #[trigger] edge_views(r@)[f] == edges_of(s)[f] by {
                    if f < e {
                        assert(edge_views(r@)[f] == edge_views(before)[f]);
                    }
                }
            }
            e = e + 1;
        }
        assert(edge_views(r@) =~= edges_of(s));
        r
    }
}

} // verus!
