use vstd::prelude::*;
use crate::model::{
    add_user, bytes_lt, lemma_party_order, lemma_peers_of, lemma_sorted_unique, lemma_users_of, names, party_lt, peers_of,
    sorted, users_of, Link,
};
use vstd::string::StringExecFns;
use vstd::utf8::encode_utf8;
use crate::records::{CallRecord, CellRecord, MessageRecord};

verus! {

/// The parties of a call.
pub open spec fn call_link(c: CallRecord) -> Link {
    (c.party1@, c.party2@)
}

/// The parties of a message.
pub open spec fn message_link(m: MessageRecord) -> Link {
    (m.party1@, m.party2@)
}

/// Append-only store of calls, messages and cell towers.
#[derive(Debug)]
pub struct RecordRepository {
    pub cells: Vec<CellRecord>,
    pub calls: Vec<CallRecord>,
    pub messages: Vec<MessageRecord>,
}

/// Distinct parties, each named by its position (its handle), and every record
/// of a store written as a pair of handles.
pub struct PartyIndex {
    pub users: Vec<String>,
    pub links: Vec<(usize, usize)>,
}

/// A record with parties `a` and `b` is one that a query for `u1`, and for `u2`
/// when given, selects: each named party stands in one of the two slots.
pub open spec fn selects(a: Seq<char>, b: Seq<char>, u1: Seq<char>, u2: Option<Seq<char>>) -> bool {
    &&& (a == u1 || b == u1)
    &&& match u2 {
        Some(v) => a == v || b == v,
        None => true,
    }
}

/// The text of an optional string.
pub open spec fn opt_text(o: Option<&str>) -> Option<Seq<char>> {
    match o {
        Some(v) => Some(v@),
        None => None,
    }
}

/// The records behind a sequence of references to calls.
pub open spec fn deref_calls(v: Seq<&CallRecord>) -> Seq<CallRecord> {
    v.map_values(|c: &CallRecord| *c)
}

/// The records behind a sequence of references to messages.
pub open spec fn deref_messages(v: Seq<&MessageRecord>) -> Seq<MessageRecord> {
    v.map_values(|m: &MessageRecord| *m)
}

impl PartyIndex {
    /// The index resolves every record of `s`, in order.
    pub open spec fn resolves(&self, s: Seq<Link>) -> bool {
        &&& names(self.users@) == users_of(s)
        &&& self.links@.len() == s.len()
        &&& forall|k: int|
            0 <= k < s.len() ==> {
                let h = #[trigger] self.links@[k];
                &&& h.0 < self.users@.len()
                &&& h.1 < self.users@.len()
                &&& self.users@[h.0 as int]@ == s[k].0
                &&& self.users@[h.1 as int]@ == s[k].1
            }
    }
}

/// Finds `p` among `users`, appending it when absent; returns its position.
fn intern(users: &mut Vec<String>, p: &String) -> (r: usize)
    ensures
        names(final(users)@) == add_user(names(old(users)@), p@),
        r < final(users)@.len(),
        final(users)@[r as int]@ == p@,
{
    let n = users.len();
    let mut i: usize = 0;
    while i < n
        invariant
            n == users@.len(),
            0 <= i <= n,
            forall|j: int| 0 <= j < i ==> users@[j]@ != p@,
        decreases n - i,
    {
        if users[i] == *p {
            assert(names(users@)[i as int] == p@);
            return i;
        }
        i = i + 1;
    }
    proof {
        assert(!names(users@).contains(p@)) by {
            if names(users@).contains(p@) {
                let j = choose|j: int| 0 <= j < n && names(users@)[j] == p@;
                assert(users@[j]@ == p@);
            }
        }
    }
    users.push(p.clone());
    assert(names(users@) =~= names(old(users)@).push(p@));
    n
}

/// Whether `x` comes before `y` byte by byte, once the first `i` bytes agree.
proof fn lemma_bytes_lt_skip(x: Seq<u8>, y: Seq<u8>, i: int)
    requires
        0 <= i <= x.len(),
        i <= y.len(),
        forall|j: int| 0 <= j < i ==> x[j] == y[j],
    ensures
        bytes_lt(x, y) == bytes_lt(x.skip(i), y.skip(i)),
    decreases i,
{
    if i == 0 {
        assert(x.skip(0) =~= x);
        assert(y.skip(0) =~= y);
    } else {
        lemma_bytes_lt_skip(x.drop_first(), y.drop_first(), i - 1);
        assert(x.drop_first().skip(i - 1) =~= x.skip(i));
        assert(y.drop_first().skip(i - 1) =~= y.skip(i));
    }
}

/// Whether `a` comes strictly before `b` in the canonical order of parties.
pub fn text_lt(a: &String, b: &String) -> (r: bool)
    ensures
        r == party_lt(a@, b@),
{
    let x = a.as_str().as_bytes();
    let y = b.as_str().as_bytes();
    assert(x@ == encode_utf8(a@));
    assert(y@ == encode_utf8(b@));
    let n = x.len();
    let m = y.len();
    let mut i: usize = 0;
    while i < n && i < m
        invariant
            x@ == encode_utf8(a@),
            y@ == encode_utf8(b@),
            n == x@.len(),
            m == y@.len(),
            0 <= i <= n,
            i <= m,
            forall|j: int| 0 <= j < i ==> x@[j] == y@[j],
        decreases n - i,
    {
        if x[i] != y[i] {
            let r = x[i] < y[i];
            proof {
                lemma_bytes_lt_skip(x@, y@, i as int);
                let xs = x@.skip(i as int);
                let ys = y@.skip(i as int);
                assert(xs.len() > 0 && ys.len() > 0);
                assert(xs[0] == x@[i as int]);
                assert(ys[0] == y@[i as int]);
                assert(bytes_lt(xs, ys) == r);
            }
            return r;
        }
        i = i + 1;
    }
    let r = i == n && i < m;
    proof {
        lemma_bytes_lt_skip(x@, y@, i as int);
        assert(bytes_lt(x@.skip(i as int), y@.skip(i as int)) == r);
    }
    r
}

/// Puts `p` in its place among the sorted `users`, unless it is already there.
fn insert_sorted(users: &mut Vec<String>, p: &String)
    requires
        sorted(names(old(users)@)),
    ensures
        sorted(names(final(users)@)),
        forall|q: Seq<char>| #[trigger]
            names(final(users)@).contains(q) <==> (names(old(users)@).contains(q) || q == p@),
{
    let ghost us = names(users@);
    let n = users.len();
    let mut i: usize = 0;
    while i < n && text_lt(&users[i], p)
        invariant
            n == users@.len(),
            us == names(users@),
            0 <= i <= n,
            forall|j: int| 0 <= j < i ==> party_lt(#[trigger] us[j], p@),
        decreases n - i,
    {
        i = i + 1;
    }
    if i < n && users[i] == *p {
        assert(us[i as int] == p@);
        return;
    }
    proof {
        if i < n {
            assert(!party_lt(us[i as int], p@));
            lemma_party_order(us[i as int], p@, us[i as int]);
        }
    }
    users.insert(i, p.clone());
    let ghost r = names(users@);
    proof {
        assert(r =~= us.insert(i as int, p@));
        assert forall|j: int, k: int| 0 <= j < k < r.len() implies party_lt(#[trigger] r[j], #[trigger] r[k]) by {
            if k < i {
                assert(r[j] == us[j] && r[k] == us[k]);
            } else if k == i {
                assert(r[j] == us[j]);
            } else if j == i {
                assert(r[k] == us[k - 1]);
                if k - 1 > i {
                    assert(party_lt(us[i as int], us[k - 1]));
                    lemma_party_order(p@, us[i as int], us[k - 1]);
                }
            } else if j < i {
                assert(r[j] == us[j] && r[k] == us[k - 1]);
            } else {
                assert(r[j] == us[j - 1] && r[k] == us[k - 1]);
            }
        }
        assert forall|q: Seq<char>| #[trigger] r.contains(q) <==> (us.contains(q) || q == p@) by {
            if r.contains(q) {
                let l = choose|l: int| 0 <= l < r.len() && r[l] == q;
                if l < i {
                    assert(us[l] == q);
                } else if l > i {
                    assert(us[l - 1] == q);
                }
            }
            if us.contains(q) {
                let l = choose|l: int| 0 <= l < us.len() && us[l] == q;
                if l < i {
                    assert(r[l] == q);
                } else {
                    assert(r[l + 1] == q);
                }
            }
            if q == p@ {
                assert(r[i as int] == q);
            }
        }
    }
}

/// The position of `p` among `users`, where it stands.
fn position(users: &Vec<String>, p: &String) -> (r: usize)
    requires
        names(users@).contains(p@),
    ensures
        r < users@.len(),
        users@[r as int]@ == p@,
{
    let n = users.len();
    let mut i: usize = 0;
    while i < n
        invariant
            n == users@.len(),
            0 <= i <= n,
            names(users@).contains(p@),
            forall|j: int| 0 <= j < i ==> users@[j]@ != p@,
        decreases n - i,
    {
        if users[i] == *p {
            return i;
        }
        i = i + 1;
    }
    proof {
        let j = choose|j: int| 0 <= j < n && names(users@)[j] == p@;
        assert(users@[j]@ == p@);
    }
    0
}

impl RecordRepository {
    /// Every record of the store, calls first, then messages, each in order of insertion.
    pub open spec fn interactions(&self) -> Seq<Link> {
        self.calls@.map_values(|c: CallRecord| call_link(c)) + self.messages@.map_values(
            |m: MessageRecord| message_link(m),
        )
    }

    /// The number of records fits in a `usize`.
    pub open spec fn fits(&self) -> bool {
        self.calls@.len() + self.messages@.len() <= usize::MAX
    }

    /// An empty store.
    pub fn new() -> (r: RecordRepository)
        ensures
            r.cells@.len() == 0,
            r.calls@.len() == 0,
            r.messages@.len() == 0,
    {
        RecordRepository { cells: Vec::new(), calls: Vec::new(), messages: Vec::new() }
    }

    /// Appends a cell tower.
    pub fn add_cell(&mut self, cell: CellRecord)
        ensures
            final(self).cells@ == old(self).cells@.push(cell),
            final(self).calls@ == old(self).calls@,
            final(self).messages@ == old(self).messages@,
    {
        self.cells.push(cell);
    }

    /// Appends a call.
    pub fn add_call(&mut self, call: CallRecord)
        ensures
            final(self).calls@ == old(self).calls@.push(call),
            final(self).cells@ == old(self).cells@,
            final(self).messages@ == old(self).messages@,
    {
        self.calls.push(call);
    }

    /// Appends a message.
    pub fn add_message(&mut self, message: MessageRecord)
        ensures
            final(self).messages@ == old(self).messages@.push(message),
            final(self).cells@ == old(self).cells@,
            final(self).calls@ == old(self).calls@,
    {
        self.messages.push(message);
    }

    /// A store of `num_records` calls between two empty parties, where the call at
    /// position `i` has index, duration, timestamp and cell all equal to `i`.
    pub fn mocked(num_records: u32) -> (r: Self)
        ensures
            r.cells@.len() == 0,
            r.messages@.len() == 0,
            r.calls@.len() == num_records,
            forall|i: int|
                0 <= i < num_records ==> {
                    let c = #[trigger] r.calls@[i];
                    &&& c.index == i
                    &&& c.duration == i
                    &&& c.timestamp == i
                    &&& c.cell_id == i
                    &&& c.party1@ == Seq::<char>::empty()
                    &&& c.party2@ == Seq::<char>::empty()
                },
    {
        let mut repo = RecordRepository { cells: Vec::new(), calls: Vec::new(), messages: Vec::new() };
        let mut i: u32 = 0;
        while i < num_records
            invariant
                0 <= i <= num_records,
                repo.cells@.len() == 0,
                repo.messages@.len() == 0,
                repo.calls@.len() == i,
                forall|j: int|
                    0 <= j < i ==> {
                        let c = #[trigger] repo.calls@[j];
                        &&& c.index == j
                        &&& c.duration == j
                        &&& c.timestamp == j
                        &&& c.cell_id == j
                        &&& c.party1@ == Seq::<char>::empty()
                        &&& c.party2@ == Seq::<char>::empty()
                    },
            decreases num_records - i,
        {
            repo.add_call(
                CallRecord {
                    index: i,
                    party1: String::new(),
                    party2: String::new(),
                    duration: i,
                    timestamp: i,
                    cell_id: i,
                },
            );
            i = i + 1;
        }
        repo
    }

    /// The first cell tower with id `cell_id`, or `None` when the store knows no such
    /// tower: a call may name a tower that is not there.
    pub fn find_cell(&self, cell_id: u32) -> (r: Option<&CellRecord>)
        ensures
            match r {
                Some(c) => exists|i: int|
                    0 <= i < self.cells@.len() && self.cells@[i] == *c && c.cell_id == cell_id
                        && forall|j: int| 0 <= j < i ==> (#[trigger] self.cells@[j]).cell_id != cell_id,
                None => forall|j: int|
                    0 <= j < self.cells@.len() ==> (#[trigger] self.cells@[j]).cell_id != cell_id,
            },
    {
        let n = self.cells.len();
        let mut i: usize = 0;
        while i < n
            invariant
                n == self.cells@.len(),
                0 <= i <= n,
                forall|j: int| 0 <= j < i ==> (#[trigger] self.cells@[j]).cell_id != cell_id,
            decreases n - i,
        {
            if self.cells[i].cell_id == cell_id {
                return Some(&self.cells[i]);
            }
            i = i + 1;
        }
        None
    }

    /// The parties of the record at position `k` of `interactions()`.
    fn link_at(&self, k: usize) -> (r: (&String, &String))
        requires
            self.fits(),
            k < self.calls@.len() + self.messages@.len(),
        ensures
            r.0@ == self.interactions()[k as int].0,
            r.1@ == self.interactions()[k as int].1,
    {
        let n = self.calls.len();
        if k < n {
            let c = &self.calls[k];
            (&c.party1, &c.party2)
        } else {
            let m = &self.messages[k - n];
            (&m.party1, &m.party2)
        }
    }

    /// Resolves every party of the store to a handle: its position among the users
    /// in the canonical order.
    pub fn party_index(&self) -> (r: PartyIndex)
        requires
            self.fits(),
        ensures
            r.resolves(self.interactions()),
    {
        let ghost s = self.interactions();
        let total = self.calls.len() + self.messages.len();
        let mut users: Vec<String> = Vec::new();
        let mut k: usize = 0;
        while k < total
            invariant
                s == self.interactions(),
                self.fits(),
                total == s.len(),
                0 <= k <= total,
                sorted(names(users@)),
                forall|p: Seq<char>| #[trigger]
                    names(users@).contains(p) <==> exists|j: int|
                        0 <= j < k && (s[j].0 == p || s[j].1 == p),
            decreases total - k,
        {
            let (a, b) = self.link_at(k);
            let ghost before = names(users@);
            insert_sorted(&mut users, a);
            insert_sorted(&mut users, b);
            proof {
                assert forall|p: Seq<char>| #[trigger]
                    names(users@).contains(p) <==> exists|j: int|
                        0 <= j < k + 1 && (s[j].0 == p || s[j].1 == p) by {
                    if names(users@).contains(p) && !before.contains(p) {
                        assert(s[k as int].0 == p || s[k as int].1 == p);
                    }
                    if exists|j: int| 0 <= j < k + 1 && (s[j].0 == p || s[j].1 == p) {
                        let j = choose|j: int| 0 <= j < k + 1 && (s[j].0 == p || s[j].1 == p);
                        if j < k {
                            assert(before.contains(p));
                        }
                    }
                }
            }
            k = k + 1;
        }
        proof {
            lemma_users_of(s);
            lemma_sorted_unique(names(users@), users_of(s));
        }
        let mut hs: Vec<(usize, usize)> = Vec::new();
        let mut k: usize = 0;
        while k < total
            invariant
                s == self.interactions(),
                self.fits(),
                total == s.len(),
                0 <= k <= total,
                names(users@) == users_of(s),
                hs@.len() == k,
                forall|j: int|
                    0 <= j < k ==> {
                        let h = #[trigger] hs@[j];
                        &&& h.0 < users@.len()
                        &&& h.1 < users@.len()
                        &&& users@[h.0 as int]@ == s[j].0
                        &&& users@[h.1 as int]@ == s[j].1
                    },
            decreases total - k,
        {
            let (a, b) = self.link_at(k);
            proof {
                lemma_users_of(s);
                assert(users_of(s).contains(a@));
                assert(users_of(s).contains(b@));
            }
            let ha = position(&users, a);
            let hb = position(&users, b);
            hs.push((ha, hb));
            k = k + 1;
        }
        PartyIndex { users, links: hs }
    }

    /// Every distinct party of the store, in the canonical order.
    pub fn get_all_users(&self) -> (r: Vec<String>)
        requires
            self.fits(),
        ensures
            names(r@) == users_of(self.interactions()),
            sorted(names(r@)),
    {
        proof {
            lemma_users_of(self.interactions());
        }
        self.party_index().users
    }
}

impl RecordRepository {
    /// The calls and the messages, each in order of insertion, that `user1` takes part
    /// in, and, when `user2` is given, `user2` as well.
    pub fn get_records(&self, user1: &str, user2: Option<&str>) -> (r: (
        Vec<&CallRecord>,
        Vec<&MessageRecord>,
    ))
        ensures
            deref_calls(r.0@) == self.calls@.filter(
                |c: CallRecord| selects(c.party1@, c.party2@, user1@, opt_text(user2)),
            ),
            deref_messages(r.1@) == self.messages@.filter(
                |m: MessageRecord| selects(m.party1@, m.party2@, user1@, opt_text(user2)),
            ),
    {
        let u1 = String::from_str(user1);
        let u2: Option<String> = match user2 {
            Some(v) => Some(String::from_str(v)),
            None => None,
        };
        let ghost o2 = opt_text(user2);
        let ghost pc = |c: CallRecord| selects(c.party1@, c.party2@, user1@, o2);
        let ghost pm = |m: MessageRecord| selects(m.party1@, m.party2@, user1@, o2);
        let mut calls: Vec<&CallRecord> = Vec::new();
        let n = self.calls.len();
        let mut i: usize = 0;
        proof {
            reveal(Seq::filter);
            assert(self.calls@.subrange(0, 0).filter(pc) =~= Seq::<CallRecord>::empty());
            assert(deref_calls(calls@) =~= Seq::<CallRecord>::empty());
        }
        while i < n
            invariant
                n == self.calls@.len(),
                0 <= i <= n,
                u1@ == user1@,
                match u2 {
                    Some(v) => o2 == Some(v@),
                    None => o2 is None,
                },
                pc == (|c: CallRecord| selects(c.party1@, c.party2@, user1@, o2)),
                deref_calls(calls@) == self.calls@.subrange(0, i as int).filter(pc),
            decreases n - i,
        {
            let c = &self.calls[i];
            let hit = (c.party1 == u1 || c.party2 == u1) && match &u2 {
                Some(v) => c.party1 == *v || c.party2 == *v,
                None => true,
            };
            let ghost before = calls@;
            if hit {
                calls.push(c);
            }
            proof {
                reveal(Seq::filter);
                let t = self.calls@.subrange(0, i + 1);
                assert(t.drop_last() =~= self.calls@.subrange(0, i as int));
                assert(t.last() == *c);
                assert(hit == pc(*c));
                if hit {
                    assert(deref_calls(calls@) =~= deref_calls(before).push(*c));
                } else {
                    assert(deref_calls(calls@) =~= deref_calls(before));
                }
            }
            i = i + 1;
        }
        proof {
            assert(self.calls@.subrange(0, n as int) =~= self.calls@);
        }
        let mut messages: Vec<&MessageRecord> = Vec::new();
        let m = self.messages.len();
        let mut j: usize = 0;
        proof {
            reveal(Seq::filter);
            assert(self.messages@.subrange(0, 0).filter(pm) =~= Seq::<MessageRecord>::empty());
            assert(deref_messages(messages@) =~= Seq::<MessageRecord>::empty());
        }
        while j < m
            invariant
                m == self.messages@.len(),
                0 <= j <= m,
                u1@ == user1@,
                match u2 {
                    Some(v) => o2 == Some(v@),
                    None => o2 is None,
                },
                pm == (|x: MessageRecord| selects(x.party1@, x.party2@, user1@, o2)),
                deref_messages(messages@) == self.messages@.subrange(0, j as int).filter(pm),
            decreases m - j,
        {
            let x = &self.messages[j];
            let hit = (x.party1 == u1 || x.party2 == u1) && match &u2 {
                Some(v) => x.party1 == *v || x.party2 == *v,
                None => true,
            };
            let ghost before = messages@;
            if hit {
                messages.push(x);
            }
            proof {
                reveal(Seq::filter);
                let t = self.messages@.subrange(0, j + 1);
                assert(t.drop_last() =~= self.messages@.subrange(0, j as int));
                assert(t.last() == *x);
                assert(hit == pm(*x));
                if hit {
                    assert(deref_messages(messages@) =~= deref_messages(before).push(*x));
                } else {
                    assert(deref_messages(messages@) =~= deref_messages(before));
                }
            }
            j = j + 1;
        }
        proof {
            assert(self.messages@.subrange(0, m as int) =~= self.messages@);
        }
        (calls, messages)
    }

    /// Every distinct other party that shares a record with `user`, in order of first
    /// appearance. A record of `user` with itself adds nothing.
    pub fn get_peers_for_user(&self, user: String) -> (r: Vec<String>)
        requires
            self.fits(),
        ensures
            names(r@) == peers_of(self.interactions(), user@),
            names(r@).no_duplicates(),
            !names(r@).contains(user@),
    {
        let ghost s = self.interactions();
        let total = self.calls.len() + self.messages.len();
        let mut peers: Vec<String> = Vec::new();
        let mut k: usize = 0;
        assert(names(peers@) =~= peers_of(s.subrange(0, 0), user@));
        while k < total
            invariant
                s == self.interactions(),
                self.fits(),
                total == s.len(),
                0 <= k <= total,
                names(peers@) == peers_of(s.subrange(0, k as int), user@),
            decreases total - k,
        {
            let (a, b) = self.link_at(k);
            proof {
                let t = s.subrange(0, k + 1);
                assert(t.drop_last() =~= s.subrange(0, k as int));
                assert(t.last() == s[k as int]);
            }
            if *a == user && *b != user {
                intern(&mut peers, b);
            } else if *b == user && *a != user {
                intern(&mut peers, a);
            }
            k = k + 1;
        }
        assert(s.subrange(0, total as int) =~= s);
        proof {
            lemma_peers_of(s, user@);
        }
        peers
    }
}

} // verus!
