use vstd::prelude::*;
use crate::aggregate::{edge_views, ConnectionMatrix, Edge};
use crate::model::{
    count_between, distinct_count, edges_acc, edges_of, has_pair, is_party, lemma_add_user, lemma_edges_acc, links,
    lemma_party_order, lemma_peers_of, lemma_sorted_unique, lemma_users_of, names, oriented, pairs_distinct,
    party_lt, peers_of, sorted, total_weight, users_of, Link,
};
use crate::repository::RecordRepository;

verus! {

proof fn lemma_count_symmetric(s: Seq<Link>, a: Seq<char>, b: Seq<char>)
    ensures
        count_between(s, a, b) == count_between(s, b, a),
    decreases s.len(),
{
    if s.len() > 0 {
        lemma_count_symmetric(s.drop_last(), a, b);
    }
}

/// The connection matrix is symmetric: the count of `u` with `v` is the count of
/// `v` with `u`.
pub proof fn law_matrix_symmetric(repo: &RecordRepository, m: &ConnectionMatrix)
    requires
        m.describes(repo.interactions()),
    ensures
        forall|i: int, j: int|
            0 <= i < m.users@.len() && 0 <= j < m.users@.len() ==> #[trigger] m.counts@[i]@[j]
                == m.counts@[j]@[i],
{
    let s = repo.interactions();
    assert forall|i: int, j: int|
        0 <= i < m.users@.len() && 0 <= j < m.users@.len() implies #[trigger] m.counts@[i]@[j]
        == m.counts@[j]@[i] by {
        lemma_count_symmetric(s, m.users@[i]@, m.users@[j]@);
    }
}

/// The connection matrix has zero on its diagonal: no party is counted with itself.
pub proof fn law_matrix_diagonal_zero(repo: &RecordRepository, m: &ConnectionMatrix)
    requires
        m.describes(repo.interactions()),
    ensures
        forall|i: int| 0 <= i < m.users@.len() ==> #[trigger] m.counts@[i]@[i] == 0,
{
}

/// The weights of the edge list add up to the number of records between two
/// distinct parties: nothing is counted twice and nothing is lost.
pub proof fn law_edge_weights_total(repo: &RecordRepository)
    ensures
        total_weight(edges_of(repo.interactions())) == distinct_count(repo.interactions()),
{
    lemma_edges_acc(repo.interactions());
}

/// No two edges of the edge list join the same unordered pair of parties.
pub proof fn law_edges_distinct(repo: &RecordRepository)
    ensures
        pairs_distinct(edges_of(repo.interactions())),
{
    lemma_edges_acc(repo.interactions());
}

/// The users of a store are sorted strictly in the canonical order, and are exactly
/// the parties that appear in some record.
pub proof fn law_users_canonical(repo: &RecordRepository)
    ensures
        sorted(users_of(repo.interactions())),
        forall|p: Seq<char>| #[trigger]
            users_of(repo.interactions()).contains(p) <==> exists|k: int|
                0 <= k < repo.interactions().len() && (repo.interactions()[k].0 == p
                    || repo.interactions()[k].1 == p),
{
    lemma_users_of(repo.interactions());
}

/// Two stores with the same parties have the same users in the same order, whatever
/// the order of their records or of the slots within them.
pub proof fn law_users_depend_on_parties_only(r1: &RecordRepository, r2: &RecordRepository)
    requires
        forall|p: Seq<char>|
            #[trigger] is_party(r1.interactions(), p) == is_party(r2.interactions(), p),
    ensures
        users_of(r1.interactions()) == users_of(r2.interactions()),
{
    lemma_users_of(r1.interactions());
    lemma_users_of(r2.interactions());
    assert forall|p: Seq<char>|
        users_of(r1.interactions()).contains(p) <==> users_of(r2.interactions()).contains(p) by {
        assert(is_party(r1.interactions(), p) == is_party(r2.interactions(), p));
    }
    lemma_sorted_unique(users_of(r1.interactions()), users_of(r2.interactions()));
}

/// The peers of a party never include the party itself.
pub proof fn law_peers_exclude_self(repo: &RecordRepository, u: Seq<char>)
    ensures
        !peers_of(repo.interactions(), u).contains(u),
{
    lemma_peers_of(repo.interactions(), u);
}

/// A party is a peer of `u` exactly when it is another party that shares a record with `u`.
pub proof fn law_peers_exact(repo: &RecordRepository, u: Seq<char>)
    ensures
        forall|p: Seq<char>| #[trigger]
            peers_of(repo.interactions(), u).contains(p) <==> p != u && exists|k: int|
                0 <= k < repo.interactions().len() && links(repo.interactions()[k], u, p),
{
    lemma_peers_exact(repo.interactions(), u);
}

proof fn lemma_peers_exact(s: Seq<Link>, u: Seq<char>)
    ensures
        forall|p: Seq<char>| #[trigger]
            peers_of(s, u).contains(p) <==> p != u && exists|k: int| 0 <= k < s.len() && links(s[k], u, p),
    decreases s.len(),
{
    if s.len() > 0 {
        let t = s.drop_last();
        let x = s.last();
        let ps = peers_of(t, u);
        lemma_peers_exact(t, u);
        lemma_add_user(ps, x.0);
        lemma_add_user(ps, x.1);
        assert forall|p: Seq<char>| #[trigger]
            peers_of(s, u).contains(p) <==> p != u && exists|k: int| 0 <= k < s.len() && links(s[k], u, p) by {
            if peers_of(s, u).contains(p) {
                if ps.contains(p) {
                    let k = choose|k: int| 0 <= k < t.len() && links(t[k], u, p);
                    assert(s[k] == t[k]);
                } else {
                    assert(s[s.len() - 1] == x);
                }
            }
            if p != u && exists|k: int| 0 <= k < s.len() && links(s[k], u, p) {
                let k = choose|k: int| 0 <= k < s.len() && links(s[k], u, p);
                if k < s.len() - 1 {
                    assert(t[k] == s[k]);
                }
            }
        }
    }
}

/// Two matrices and two edge lists of one store are the same: users in the same
/// order, the same counts, the same edges in the same order.
pub proof fn law_queries_deterministic(
    repo: &RecordRepository,
    m1: &ConnectionMatrix,
    m2: &ConnectionMatrix,
    e1: Seq<Edge>,
    e2: Seq<Edge>,
)
    requires
        m1.describes(repo.interactions()),
        m2.describes(repo.interactions()),
        edge_views(e1) == edges_of(repo.interactions()),
        edge_views(e2) == edges_of(repo.interactions()),
    ensures
        names(m1.users@) == names(m2.users@),
        m1.counts@.len() == m2.counts@.len(),
        forall|i: int| 0 <= i < m1.counts@.len() ==> #[trigger] m1.counts@[i]@ == m2.counts@[i]@,
        edge_views(e1) == edge_views(e2),
{
    let n = m1.users@.len();
    assert(names(m1.users@).len() == n);
    assert forall|i: int| 0 <= i < m1.counts@.len() implies #[trigger] m1.counts@[i]@ == m2.counts@[i]@ by {
        assert forall|j: int| 0 <= j < n implies m1.users@[j]@ == m2.users@[j]@ by {
            assert(names(m1.users@)[j] == names(m2.users@)[j]);
        }
        assert(m1.users@[i]@ == m2.users@[i]@) by {
            assert(names(m1.users@)[i] == names(m2.users@)[i]);
        }
        assert(m1.counts@[i]@ =~= m2.counts@[i]@);
    }
}

/// Each edge joins two parties with `user1` strictly before `user2` in the canonical
/// order, and its weight, at least one, is the number of records
/// between them; each pair of distinct parties with a record between them has an edge.
pub proof fn law_edge_weights_exact(repo: &RecordRepository)
    ensures
        forall|k: int|
            0 <= k < edges_of(repo.interactions()).len() ==> {
                let e = #[trigger] edges_of(repo.interactions())[k];
                &&& party_lt(e.0, e.1)
                &&& e.2 >= 1
                &&& e.2 == count_between(repo.interactions(), e.0, e.1)
            },
        forall|a: Seq<char>, b: Seq<char>|
            a != b && #[trigger] count_between(repo.interactions(), a, b) > 0 ==> exists|k: int|
                0 <= k < edges_of(repo.interactions()).len() && has_pair(
                    #[trigger] edges_of(repo.interactions())[k],
                    a,
                    b,
                ),
{
    let s = repo.interactions();
    let es = edges_acc(s);
    lemma_edges_exact(s);
    assert forall|a: Seq<char>, b: Seq<char>|
        a != b && #[trigger] count_between(s, a, b) > 0 implies exists|k: int|
            0 <= k < edges_of(s).len() && has_pair(#[trigger] edges_of(s)[k], a, b) by {
        let k = choose|k: int| 0 <= k < es.len() && has_pair(#[trigger] es[k], a, b);
        assert(has_pair(edges_of(s)[k], a, b));
    }
}

proof fn lemma_edges_exact(s: Seq<Link>)
    ensures
        forall|k: int|
            0 <= k < edges_acc(s).len() ==> {
                let e = #[trigger] edges_acc(s)[k];
                &&& party_lt(e.0, e.1)
                &&& e.2 >= 1
                &&& e.2 == count_between(s, e.0, e.1)
            },
        forall|a: Seq<char>, b: Seq<char>|
            a != b && #[trigger] count_between(s, a, b) > 0 ==> exists|k: int|
                0 <= k < edges_acc(s).len() && has_pair(#[trigger] edges_acc(s)[k], a, b),
    decreases s.len(),
{
    if s.len() > 0 {
        let t = s.drop_last();
        let x = s.last();
        let es = edges_acc(t);
        let r = edges_acc(s);
        lemma_edges_exact(t);
        lemma_edges_acc(t);
        assert forall|k: int| 0 <= k < r.len() implies {
            let e = #[trigger] r[k];
            &&& party_lt(e.0, e.1)
            &&& e.2 >= 1
            &&& e.2 == count_between(s, e.0, e.1)
        } by {
            if k < es.len() {
                lemma_party_order(es[k].0, es[k].1, es[k].0);
            }
            if x.0 == x.1 {
                assert(r[k] == es[k]);
            } else if exists|c: int| 0 <= c < es.len() && has_pair(#[trigger] es[c], x.0, x.1) {
                let c = choose|c: int| 0 <= c < es.len() && has_pair(#[trigger] es[c], x.0, x.1);
                if k != c {
                    assert(r[k] == es[k]);
                    assert(!has_pair(es[c], es[k].0, es[k].1));
                }
            } else {
                if k == es.len() {
                    let o = oriented(x);
                    lemma_party_order(x.0, x.1, x.0);
                    assert(r[k] == (o.0, o.1, 1nat));
                    lemma_count_symmetric(t, x.0, x.1);
                    if count_between(t, x.0, x.1) > 0 {
                        let c = choose|c: int| 0 <= c < es.len() && has_pair(#[trigger] es[c], x.0, x.1);
                    }
                    lemma_count_symmetric(s, x.0, x.1);
                } else {
                    assert(r[k] == es[k]);
                }
            }
        }
        assert forall|a: Seq<char>, b: Seq<char>|
            a != b && #[trigger] count_between(s, a, b) > 0 implies exists|k: int|
                0 <= k < r.len() && has_pair(#[trigger] r[k], a, b) by {
            if count_between(t, a, b) > 0 {
                let c = choose|c: int| 0 <= c < es.len() && has_pair(#[trigger] es[c], a, b);
                if x.0 == x.1 {
                    assert(has_pair(r[c], a, b));
                } else {
                    assert(has_pair(r[c], a, b));
                }
            } else {
                assert(links(x, a, b));
                if exists|c: int| 0 <= c < es.len() && has_pair(#[trigger] es[c], x.0, x.1) {
                    let c = choose|c: int| 0 <= c < es.len() && has_pair(#[trigger] es[c], x.0, x.1);
                    assert(has_pair(r[c], a, b));
                } else {
                    assert(has_pair(r[es.len() as int], a, b));
                }
            }
        }
    }
}

} // verus!
