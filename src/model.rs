use vstd::prelude::*;
use vstd::utf8::{encode_utf8, encode_utf8_decode_utf8};

verus! {

/// The two parties of one call or message, in the order the record holds them.
pub type Link = (Seq<char>, Seq<char>);

/// The text of each string of a sequence.
pub open spec fn names(v: Seq<String>) -> Seq<Seq<char>> {
    v.map_values(|u: String| u@)
}

/// Appends `p` unless it is already there.
pub open spec fn add_user(us: Seq<Seq<char>>, p: Seq<char>) -> Seq<Seq<char>> {
    if us.contains(p) {
        us
    } else {
        us.push(p)
    }
}

/// The peers of `u` never include `u`, and hold each party once.
pub proof fn lemma_peers_of(s: Seq<Link>, u: Seq<char>)
    ensures
        !peers_of(s, u).contains(u),
        peers_of(s, u).no_duplicates(),
    decreases s.len(),
{
    if s.len() > 0 {
        let ps = peers_of(s.drop_last(), u);
        lemma_peers_of(s.drop_last(), u);
        lemma_add_user(ps, s.last().0);
        lemma_add_user(ps, s.last().1);
    }
}

/// Byte-wise lexicographic order: `x` comes strictly before `y`.
pub open spec fn bytes_lt(x: Seq<u8>, y: Seq<u8>) -> bool
    decreases x.len(),
{
    if x.len() == 0 {
        y.len() > 0
    } else if y.len() == 0 {
        false
    } else if x[0] != y[0] {
        x[0] < y[0]
    } else {
        bytes_lt(x.drop_first(), y.drop_first())
    }
}

/// The canonical order of parties: `a` comes strictly before `b` when its UTF-8 text
/// is lexicographically smaller, byte by byte (the order in which `str` compares).
pub open spec fn party_lt(a: Seq<char>, b: Seq<char>) -> bool {
    bytes_lt(encode_utf8(a), encode_utf8(b))
}

/// Every party of `us` comes strictly before every later one.
pub open spec fn sorted(us: Seq<Seq<char>>) -> bool {
    forall|j: int, k: int| 0 <= j < k < us.len() ==> party_lt(#[trigger] us[j], #[trigger] us[k])
}

/// Puts `p` in its place in `us`, unless it is already there.
pub open spec fn sorted_insert(us: Seq<Seq<char>>, p: Seq<char>) -> Seq<Seq<char>>
    decreases us.len(),
{
    if us.len() == 0 {
        seq![p]
    } else if us[0] == p {
        us
    } else if party_lt(p, us[0]) {
        seq![p] + us
    } else {
        seq![us[0]] + sorted_insert(us.drop_first(), p)
    }
}

/// Every distinct party of `s`, in the canonical order.
pub open spec fn users_of(s: Seq<Link>) -> Seq<Seq<char>>
    decreases s.len(),
{
    if s.len() == 0 {
        Seq::empty()
    } else {
        let x = s.last();
        sorted_insert(sorted_insert(users_of(s.drop_last()), x.0), x.1)
    }
}

/// `p` takes part in some record of `s`.
pub open spec fn is_party(s: Seq<Link>, p: Seq<char>) -> bool {
    exists|k: int| 0 <= k < s.len() && (s[k].0 == p || s[k].1 == p)
}

/// The record `x` is between `a` and `b`, in either slot order.
pub open spec fn links(x: Link, a: Seq<char>, b: Seq<char>) -> bool {
    (x.0 == a && x.1 == b) || (x.0 == b && x.1 == a)
}

/// How many records of `s` are between `a` and `b`.
pub open spec fn count_between(s: Seq<Link>, a: Seq<char>, b: Seq<char>) -> nat
    decreases s.len(),
{
    if s.len() == 0 {
        0
    } else {
        count_between(s.drop_last(), a, b) + if links(s.last(), a, b) {
            1nat
        } else {
            0nat
        }
    }
}

/// The interaction count of two parties: zero for a party with itself.
pub open spec fn weight(s: Seq<Link>, a: Seq<char>, b: Seq<char>) -> nat {
    if a == b {
        0
    } else {
        count_between(s, a, b)
    }
}

/// How many records of `s` are between two distinct parties.
pub open spec fn distinct_count(s: Seq<Link>) -> nat
    decreases s.len(),
{
    if s.len() == 0 {
        0
    } else {
        distinct_count(s.drop_last()) + if s.last().0 != s.last().1 {
            1nat
        } else {
            0nat
        }
    }
}

/// The distinct other parties that share a record with `u`, in order of first appearance.
pub open spec fn peers_of(s: Seq<Link>, u: Seq<char>) -> Seq<Seq<char>>
    decreases s.len(),
{
    if s.len() == 0 {
        Seq::empty()
    } else {
        let x = s.last();
        let ps = peers_of(s.drop_last(), u);
        if x.0 == u && x.1 != u {
            add_user(ps, x.1)
        } else if x.1 == u && x.0 != u {
            add_user(ps, x.0)
        } else {
            ps
        }
    }
}

/// What `add_user` keeps, adds and preserves.
pub proof fn lemma_add_user(us: Seq<Seq<char>>, p: Seq<char>)
    ensures
        add_user(us, p).contains(p),
        forall|q: Seq<char>| #[trigger] add_user(us, p).contains(q) <==> (us.contains(q) || q == p),
        us.no_duplicates() ==> add_user(us, p).no_duplicates(),
        us.len() <= add_user(us, p).len(),
        forall|i: int| 0 <= i < us.len() ==> #[trigger] add_user(us, p)[i] == us[i],
{
    if !us.contains(p) {
        assert(us.push(p)[us.len() as int] == p);
        assert forall|q: Seq<char>| #[trigger] us.push(p).contains(q) <==> (us.contains(q) || q
            == p) by {
            if us.contains(q) {
                let i = choose|i: int| 0 <= i < us.len() && us[i] == q;
                assert(us.push(p)[i] == q);
            }
            if us.push(p).contains(q) && q != p {
                let i = choose|i: int| 0 <= i < us.len() + 1 && us.push(p)[i] == q;
                assert(us[i] == q);
            }
        }
    }
}

proof fn lemma_bytes_lt_irreflexive(x: Seq<u8>)
    ensures
        !bytes_lt(x, x),
    decreases x.len(),
{
    if x.len() > 0 {
        lemma_bytes_lt_irreflexive(x.drop_first());
    }
}

proof fn lemma_bytes_lt_transitive(x: Seq<u8>, y: Seq<u8>, z: Seq<u8>)
    requires
        bytes_lt(x, y),
        bytes_lt(y, z),
    ensures
        bytes_lt(x, z),
    decreases x.len(),
{
    if x.len() > 0 && y.len() > 0 && z.len() > 0 && x[0] == y[0] && y[0] == z[0] {
        lemma_bytes_lt_transitive(x.drop_first(), y.drop_first(), z.drop_first());
    }
}

proof fn lemma_bytes_lt_total(x: Seq<u8>, y: Seq<u8>)
    ensures
        x == y || bytes_lt(x, y) || bytes_lt(y, x),
        !(bytes_lt(x, y) && bytes_lt(y, x)),
    decreases x.len(),
{
    if x.len() > 0 && y.len() > 0 && x[0] == y[0] {
        lemma_bytes_lt_total(x.drop_first(), y.drop_first());
        if x.drop_first() == y.drop_first() {
            assert(x =~= seq![x[0]] + x.drop_first());
            assert(y =~= seq![y[0]] + y.drop_first());
        }
    } else if x.len() == 0 && y.len() == 0 {
        assert(x =~= y);
    }
}

/// The canonical order is a strict total order.
pub proof fn lemma_party_order(a: Seq<char>, b: Seq<char>, c: Seq<char>)
    ensures
        !party_lt(a, a),
        a == b || party_lt(a, b) || party_lt(b, a),
        !(party_lt(a, b) && party_lt(b, a)),
        party_lt(a, b) && party_lt(b, c) ==> party_lt(a, c),
{
    lemma_bytes_lt_irreflexive(encode_utf8(a));
    lemma_bytes_lt_total(encode_utf8(a), encode_utf8(b));
    if encode_utf8(a) == encode_utf8(b) {
        encode_utf8_decode_utf8(a);
        encode_utf8_decode_utf8(b);
    }
    if party_lt(a, b) && party_lt(b, c) {
        lemma_bytes_lt_transitive(encode_utf8(a), encode_utf8(b), encode_utf8(c));
    }
}

/// A sorted sequence holds each party once.
pub proof fn lemma_sorted_no_duplicates(us: Seq<Seq<char>>)
    requires
        sorted(us),
    ensures
        us.no_duplicates(),
{
    assert forall|i: int, j: int| 0 <= i < us.len() && 0 <= j < us.len() && i != j implies us[i] != us[j] by {
        lemma_party_order(us[i], us[j], us[i]);
        if i < j {
            assert(party_lt(us[i], us[j]));
        } else {
            assert(party_lt(us[j], us[i]));
        }
    }
}

/// Two sorted sequences that hold the same parties are equal.
pub proof fn lemma_sorted_unique(a: Seq<Seq<char>>, b: Seq<Seq<char>>)
    requires
        sorted(a),
        sorted(b),
        forall|p: Seq<char>| a.contains(p) <==> b.contains(p),
    ensures
        a == b,
    decreases a.len(),
{
    if a.len() == 0 {
        if b.len() > 0 {
            assert(b.contains(b[0]));
        }
        assert(a =~= b);
    } else {
        assert(a.contains(a[0]));
        assert(b.len() > 0);
        assert(b.contains(b[0]));
        let k = choose|k: int| 0 <= k < b.len() && b[k] == a[0];
        let m = choose|m: int| 0 <= m < a.len() && a[m] == b[0];
        lemma_party_order(a[0], b[0], a[0]);
        if k > 0 {
            assert(party_lt(b[0], b[k]));
            if m > 0 {
                assert(party_lt(a[0], a[m]));
            }
        }
        assert(a[0] == b[0]);
        lemma_sorted_no_duplicates(a);
        lemma_sorted_no_duplicates(b);
        let a1 = a.drop_first();
        let b1 = b.drop_first();
        assert forall|p: Seq<char>| a1.contains(p) <==> b1.contains(p) by {
            if a1.contains(p) {
                let i = choose|i: int| 0 <= i < a1.len() && a1[i] == p;
                assert(a[i + 1] == p);
                assert(b.contains(p));
                let j = choose|j: int| 0 <= j < b.len() && b[j] == p;
                assert(j != 0);
                assert(b1[j - 1] == p);
            }
            if b1.contains(p) {
                let i = choose|i: int| 0 <= i < b1.len() && b1[i] == p;
                assert(b[i + 1] == p);
                assert(a.contains(p));
                let j = choose|j: int| 0 <= j < a.len() && a[j] == p;
                assert(j != 0);
                assert(a1[j - 1] == p);
            }
        }
        lemma_sorted_unique(a1, b1);
        assert(a =~= seq![a[0]] + a1);
        assert(b =~= seq![b[0]] + b1);
    }
}

/// What `sorted_insert` keeps and adds.
pub proof fn lemma_sorted_insert(us: Seq<Seq<char>>, p: Seq<char>)
    requires
        sorted(us),
    ensures
        sorted(sorted_insert(us, p)),
        forall|q: Seq<char>| #[trigger]
            sorted_insert(us, p).contains(q) <==> (us.contains(q) || q == p),
    decreases us.len(),
{
    let r = sorted_insert(us, p);
    if us.len() == 0 {
        assert(r[0] == p);
    } else if us[0] == p {
        assert(us.contains(us[0]));
    } else if party_lt(p, us[0]) {
        assert forall|j: int, k: int| 0 <= j < k < r.len() implies party_lt(#[trigger] r[j], #[trigger] r[k]) by {
            if j == 0 {
                assert(r[k] == us[k - 1]);
                if k > 1 {
                    lemma_party_order(p, us[0], us[k - 1]);
                }
            } else {
                assert(r[j] == us[j - 1] && r[k] == us[k - 1]);
            }
        }
        assert forall|q: Seq<char>| #[trigger] r.contains(q) <==> (us.contains(q) || q == p) by {
            if r.contains(q) {
                let i = choose|i: int| 0 <= i < r.len() && r[i] == q;
                if i > 0 {
                    assert(us[i - 1] == q);
                }
            }
            if us.contains(q) {
                let i = choose|i: int| 0 <= i < us.len() && us[i] == q;
                assert(r[i + 1] == q);
            }
            if q == p {
                assert(r[0] == q);
            }
        }
    } else {
        let t = us.drop_first();
        assert forall|j: int, k: int| 0 <= j < k < t.len() implies party_lt(#[trigger] t[j], #[trigger] t[k]) by {
            assert(t[j] == us[j + 1] && t[k] == us[k + 1]);
        }
        lemma_sorted_insert(t, p);
        let rt = sorted_insert(t, p);
        lemma_party_order(us[0], p, us[0]);
        assert forall|k: int| 0 <= k < rt.len() implies party_lt(us[0], #[trigger] rt[k]) by {
            assert(rt.contains(rt[k]));
            if rt[k] != p {
                let i = choose|i: int| 0 <= i < t.len() && t[i] == rt[k];
                assert(us[i + 1] == rt[k]);
            }
        }
        assert forall|j: int, k: int| 0 <= j < k < r.len() implies party_lt(#[trigger] r[j], #[trigger] r[k]) by {
            if j == 0 {
                assert(r[k] == rt[k - 1]);
            } else {
                assert(r[j] == rt[j - 1] && r[k] == rt[k - 1]);
            }
        }
        assert forall|q: Seq<char>| #[trigger] r.contains(q) <==> (us.contains(q) || q == p) by {
            if r.contains(q) {
                let i = choose|i: int| 0 <= i < r.len() && r[i] == q;
                if i > 0 {
                    assert(rt[i - 1] == q);
                    if t.contains(q) {
                        let l = choose|l: int| 0 <= l < t.len() && t[l] == q;
                        assert(us[l + 1] == q);
                    }
                } else {
                    assert(us[0] == q);
                }
            }
            if us.contains(q) {
                let i = choose|i: int| 0 <= i < us.len() && us[i] == q;
                if i > 0 {
                    assert(t[i - 1] == q);
                    assert(rt.contains(q));
                    let l = choose|l: int| 0 <= l < rt.len() && rt[l] == q;
                    assert(r[l + 1] == q);
                } else {
                    assert(r[0] == q);
                }
            }
            if q == p {
                assert(rt.contains(q));
                let l = choose|l: int| 0 <= l < rt.len() && rt[l] == q;
                assert(r[l + 1] == q);
            }
        }
    }
}

/// The users of `s` are sorted and are exactly the parties that appear in some record.
pub proof fn lemma_users_of(s: Seq<Link>)
    ensures
        sorted(users_of(s)),
        users_of(s).no_duplicates(),
        forall|p: Seq<char>| #[trigger]
            users_of(s).contains(p) <==> exists|k: int|
                0 <= k < s.len() && (s[k].0 == p || s[k].1 == p),
    decreases s.len(),
{
    if s.len() > 0 {
        let t = s.drop_last();
        let x = s.last();
        lemma_users_of(t);
        lemma_sorted_insert(users_of(t), x.0);
        lemma_sorted_insert(sorted_insert(users_of(t), x.0), x.1);
        assert forall|p: Seq<char>| #[trigger]
            users_of(s).contains(p) <==> exists|k: int|
                0 <= k < s.len() && (s[k].0 == p || s[k].1 == p) by {
            if users_of(s).contains(p) {
                if users_of(t).contains(p) {
                    let k = choose|k: int| 0 <= k < t.len() && (t[k].0 == p || t[k].1 == p);
                    assert(s[k] == t[k]);
                } else {
                    assert(s[s.len() - 1] == x);
                }
            }
            if exists|k: int| 0 <= k < s.len() && (s[k].0 == p || s[k].1 == p) {
                let k = choose|k: int| 0 <= k < s.len() && (s[k].0 == p || s[k].1 == p);
                if k < s.len() - 1 {
                    assert(t[k] == s[k]);
                }
            }
        }
    }
    lemma_sorted_no_duplicates(users_of(s));
}

} // verus!

verus! {

/// The parties of `x` in the canonical order.
pub open spec fn oriented(x: Link) -> Link {
    if party_lt(x.0, x.1) {
        x
    } else {
        (x.1, x.0)
    }
}

/// An edge: two parties and their weight.
pub type EdgeView = (Seq<char>, Seq<char>, nat);

/// The edge `e` joins `a` and `b`, in either order.
pub open spec fn has_pair(e: EdgeView, a: Seq<char>, b: Seq<char>) -> bool {
    (e.0 == a && e.1 == b) || (e.0 == b && e.1 == a)
}

/// Counts record `x` in `es`: one more on the edge of its pair, or a new edge of
/// weight one, its parties in the canonical order.
pub open spec fn bump(es: Seq<EdgeView>, x: Link) -> Seq<EdgeView> {
    if exists|k: int| 0 <= k < es.len() && has_pair(#[trigger] es[k], x.0, x.1) {
        let k = choose|k: int| 0 <= k < es.len() && has_pair(#[trigger] es[k], x.0, x.1);
        es.update(k, (es[k].0, es[k].1, es[k].2 + 1))
    } else {
        let o = oriented(x);
        es.push((o.0, o.1, 1nat))
    }
}

/// The edges of the records of `s` between distinct parties, in order of the first
/// record of each pair.
pub open spec fn edges_acc(s: Seq<Link>) -> Seq<EdgeView>
    decreases s.len(),
{
    if s.len() == 0 {
        Seq::empty()
    } else {
        let es = edges_acc(s.drop_last());
        let x = s.last();
        if x.0 == x.1 {
            es
        } else {
            bump(es, x)
        }
    }
}

/// The weighted edge list of a store: one edge per pair of distinct parties that
/// share a record, its parties in the canonical order; edges come in the order of
/// the first record of each pair.
pub open spec fn edges_of(s: Seq<Link>) -> Seq<EdgeView> {
    edges_acc(s)
}

/// No two edges join the same pair.
pub open spec fn pairs_distinct(es: Seq<EdgeView>) -> bool {
    forall|k1: int, k2: int|
        0 <= k1 < es.len() && 0 <= k2 < es.len() && k1 != k2 ==> !has_pair(
            #[trigger] es[k1],
            (#[trigger] es[k2]).0,
            es[k2].1,
        )
}

/// The sum of the weights of `es`.
pub open spec fn total_weight(es: Seq<EdgeView>) -> nat
    decreases es.len(),
{
    if es.len() == 0 {
        0
    } else {
        total_weight(es.drop_last()) + es.last().2
    }
}

/// Counting one more record keeps the pairs of an edge list distinct.
pub proof fn lemma_bump_distinct(es: Seq<EdgeView>, x: Link)
    requires
        pairs_distinct(es),
    ensures
        pairs_distinct(bump(es, x)),
{
    let r = bump(es, x);
    if !(exists|k: int| 0 <= k < es.len() && has_pair(#[trigger] es[k], x.0, x.1)) {
        assert forall|k1: int, k2: int|
            0 <= k1 < r.len() && 0 <= k2 < r.len() && k1 != k2 implies !has_pair(
            #[trigger] r[k1],
            (#[trigger] r[k2]).0,
            r[k2].1,
        ) by {
            if k1 == es.len() {
                assert(!has_pair(es[k2], x.0, x.1));
            } else if k2 == es.len() {
                assert(!has_pair(es[k1], x.0, x.1));
            } else {
                assert(r[k1] == es[k1] && r[k2] == es[k2]);
            }
        }
    }
}

/// One more on a single edge adds one to the total weight.
pub proof fn lemma_total_weight_update(es: Seq<EdgeView>, k: int)
    requires
        0 <= k < es.len(),
    ensures
        total_weight(es.update(k, (es[k].0, es[k].1, es[k].2 + 1))) == total_weight(es) + 1,
    decreases es.len(),
{
    let r = es.update(k, (es[k].0, es[k].1, es[k].2 + 1));
    if k == es.len() - 1 {
        assert(r.drop_last() =~= es.drop_last());
    } else {
        lemma_total_weight_update(es.drop_last(), k);
        assert(r.drop_last() =~= es.drop_last().update(
            k,
            (es[k].0, es[k].1, es[k].2 + 1),
        ));
    }
}

/// The edges of `s` have distinct pairs and weigh as much as the records of `s`
/// between distinct parties.
pub proof fn lemma_edges_acc(s: Seq<Link>)
    ensures
        pairs_distinct(edges_acc(s)),
        total_weight(edges_acc(s)) == distinct_count(s),
    decreases s.len(),
{
    if s.len() > 0 {
        let es = edges_acc(s.drop_last());
        let x = s.last();
        lemma_edges_acc(s.drop_last());
        if x.0 != x.1 {
            lemma_bump_distinct(es, x);
            if exists|k: int| 0 <= k < es.len() && has_pair(#[trigger] es[k], x.0, x.1) {
                let k = choose|k: int| 0 <= k < es.len() && has_pair(#[trigger] es[k], x.0, x.1);
                lemma_total_weight_update(es, k);
            } else {
                let o = oriented(x);
                assert(es.push((o.0, o.1, 1nat)).drop_last() =~= es);
            }
        }
    }
}

} // verus!
