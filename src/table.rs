use vstd::prelude::*;
use vstd::string::StringExecFns;
use vstd::std_specs::iter::IteratorSpec;
use crate::value::{Val, Value};

verus! {

/// One round of FNV-1a: mix in a character, then multiply by the prime.
pub open spec fn fnv_step(h: usize, c: char) -> usize {
    (h ^ (c as usize)).wrapping_mul(16777619usize)
}

/// The FNV-1a hash of a string's characters.
pub open spec fn fnv(s: Seq<char>) -> usize
    decreases s.len(),
{
    if s.len() == 0 {
        2166136261usize
    } else {
        fnv_step(fnv(s.drop_last()), s.last())
    }
}

/// FNV-1a over the characters of `s`.
pub fn hash(s: &str) -> (r: usize)
    ensures
        r == fnv(s@),
{
    broadcast use vstd::string::group_string_axioms;

    let mut it = s.chars();
    let mut h: usize = 2166136261;
    let ghost mut seen: Seq<char> = Seq::empty();
    loop
        invariant_except_break
            seen + it.remaining() == s@,
            h == fnv(seen),
        ensures
            h == fnv(s@),
        decreases s@.len() - seen.len(),
    {
        match it.next() {
            Some(c) => {
                proof {
                    assert(seen.push(c).drop_last() == seen);
                }
                h = h ^ (c as usize);
                h = h.wrapping_mul(16777619);
                proof {
                    seen = seen.push(c);
                }
            },
            None => {
                proof {
                    assert(seen + Seq::<char>::empty() == seen);
                }
                break;
            },
        }
    }
    h
}

#[derive(Debug)]
struct Entry {
    key: String,
    value: Value,
}

#[derive(Debug)]
enum Slot {
    Empty,
    /// A deleted entry; probing goes on past it.
    Tombstone,
    Entry(Entry),
}

/// Slot `i` holds key `k`.
spec fn holds(s: Seq<Slot>, i: int, k: Seq<char>) -> bool {
    0 <= i < s.len() && s[i] is Entry && s[i]->Entry_0.key@ == k
}

spec fn unique(s: Seq<Slot>) -> bool {
    forall|i: int, j: int, k: Seq<char>| #[trigger] holds(s, i, k) && #[trigger] holds(s, j, k) ==> i == j
}

/// The entries held in the slots below `n`, by key.
spec fn view_upto(s: Seq<Slot>, n: int) -> Map<Seq<char>, Val> {
    Map::new(
        |k: Seq<char>| exists|i: int| 0 <= i < n && #[trigger] holds(s, i, k),
        |k: Seq<char>| s[choose|i: int| 0 <= i < n && #[trigger] holds(s, i, k)]->Entry_0.value@,
    )
}

spec fn view_of(s: Seq<Slot>) -> Map<Seq<char>, Val> {
    view_upto(s, s.len() as int)
}

/// The slot `i` places after `h`, wrapping around.
spec fn probe(h: int, i: int, cap: int) -> int {
    if h + i < cap {
        h + i
    } else {
        h + i - cap
    }
}

/// How many places after `h` slot `j` is, wrapping around.
spec fn dist(h: int, j: int, cap: int) -> int {
    if j >= h {
        j - h
    } else {
        j + cap - h
    }
}

/// The slot at which probing for `k` starts.
spec fn home(k: Seq<char>, cap: int) -> int {
    (fnv(k) as int) % cap
}

spec fn key_home(s: Seq<Slot>, j: int) -> int {
    home(s[j]->Entry_0.key@, s.len() as int)
}

/// No empty slot lies between an entry's home slot and the entry.
spec fn chain_ok(s: Seq<Slot>) -> bool {
    forall|j: int, i: int|
        0 <= j < s.len() && s[j] is Entry && 0 <= i < dist(key_home(s, j), j, s.len() as int)
            ==> !(#[trigger] s[probe(key_home(s, j), i, s.len() as int)] is Empty)
}

spec fn has_empty(s: Seq<Slot>) -> bool {
    exists|e: int| 0 <= e < s.len() && #[trigger] s[e] is Empty
}

/// The number of slots below `n` that are not empty.
spec fn used(s: Seq<Slot>, n: int) -> nat
    decreases n,
{
    if n <= 0 {
        0
    } else {
        used(s, n - 1) + if s[n - 1] is Empty {
            0nat
        } else {
            1nat
        }
    }
}

proof fn lemma_used_zero(s: Seq<Slot>, n: int)
    requires
        0 <= n <= s.len(),
        forall|i: int| 0 <= i < s.len() ==> #[trigger] s[i] is Empty,
    ensures
        used(s, n) == 0,
    decreases n,
{
    if n > 0 {
        lemma_used_zero(s, n - 1);
    }
}

proof fn lemma_used_prefix(s: Seq<Slot>, a: int, b: int)
    requires
        0 <= a <= b <= s.len(),
    ensures
        used(s, a) <= used(s, b),
    decreases b,
{
    if b > a {
        lemma_used_prefix(s, a, b - 1);
    }
}

/// One more slot of the prefix adds its entry, if any, to the prefix's view.
proof fn lemma_upto_step(s: Seq<Slot>, n: int)
    requires
        unique(s),
        0 <= n < s.len(),
    ensures
        s[n] is Entry ==> view_upto(s, n + 1) == view_upto(s, n).insert(
            s[n]->Entry_0.key@,
            s[n]->Entry_0.value@,
        ),
        !(s[n] is Entry) ==> view_upto(s, n + 1) == view_upto(s, n),
{
    let a = view_upto(s, n + 1);
    let b = view_upto(s, n);
    if s[n] is Entry {
        let k = s[n]->Entry_0.key@;
        let m = b.insert(k, s[n]->Entry_0.value@);
        assert forall|q: Seq<char>| #[trigger] a.contains_key(q) == m.contains_key(q) by {
            if q == k {
                assert(holds(s, n, q));
            } else if a.contains_key(q) {
                let i = choose|i: int| 0 <= i < n + 1 && #[trigger] holds(s, i, q);
                assert(i < n);
            } else if b.contains_key(q) {
                let i = choose|i: int| 0 <= i < n && #[trigger] holds(s, i, q);
                assert(0 <= i < n + 1 && holds(s, i, q));
            }
        }
        assert forall|q: Seq<char>| a.contains_key(q) implies #[trigger] a[q] == m[q] by {
            let i = choose|i: int| 0 <= i < n + 1 && #[trigger] holds(s, i, q);
            if q == k {
                assert(holds(s, n, q));
                assert(i == n);
            } else {
                assert(i < n);
                let i2 = choose|i: int| 0 <= i < n && #[trigger] holds(s, i, q);
                assert(i == i2);
            }
        }
        assert(a =~= m);
    } else {
        assert forall|q: Seq<char>| #[trigger] a.contains_key(q) == b.contains_key(q) by {
            if a.contains_key(q) {
                let i = choose|i: int| 0 <= i < n + 1 && #[trigger] holds(s, i, q);
                assert(i < n);
            } else if b.contains_key(q) {
                let i = choose|i: int| 0 <= i < n && #[trigger] holds(s, i, q);
                assert(0 <= i < n + 1 && holds(s, i, q));
            }
        }
        assert forall|q: Seq<char>| a.contains_key(q) implies #[trigger] a[q] == b[q] by {
            let i = choose|i: int| 0 <= i < n + 1 && #[trigger] holds(s, i, q);
            let i2 = choose|i: int| 0 <= i < n && #[trigger] holds(s, i, q);
            assert(i < n);
            assert(i == i2);
        }
        assert(a =~= b);
    }
}

/// Slots that probing can run through.
spec fn probe_ok(s: Seq<Slot>) -> bool {
    &&& s.len() > 0
    &&& s.len() <= usize::MAX / 4
    &&& unique(s)
    &&& chain_ok(s)
    &&& has_empty(s)
}

proof fn lemma_used_bound(s: Seq<Slot>, n: int)
    requires
        0 <= n <= s.len(),
    ensures
        used(s, n) <= n,
        used(s, n) < n ==> exists|e: int| 0 <= e < n && #[trigger] s[e] is Empty,
    decreases n,
{
    if n > 0 {
        lemma_used_bound(s, n - 1);
        if used(s, n) < n && s[n - 1] is Empty {
            assert(s[n - 1] is Empty);
        }
    }
}

proof fn lemma_used_update(s: Seq<Slot>, j: int, x: Slot, n: int)
    requires
        0 <= j < s.len(),
        0 <= n <= s.len(),
    ensures
        used(s.update(j, x), n) + (if j < n && !(s[j] is Empty) {
            1int
        } else {
            0int
        }) == used(s, n) + (if j < n && !(x is Empty) {
            1int
        } else {
            0int
        }),
    decreases n,
{
    if n > 0 {
        lemma_used_update(s, j, x, n - 1);
    }
}

proof fn lemma_view_has(s: Seq<Slot>, j: int, k: Seq<char>)
    requires
        unique(s),
        holds(s, j, k),
    ensures
        view_of(s).contains_key(k),
        view_of(s)[k] == s[j]->Entry_0.value@,
{
    assert(0 <= j < s.len() as int && holds(s, j, k));
    let i = choose|i: int| 0 <= i < s.len() as int && #[trigger] holds(s, i, k);
    assert(i == j);
}

/// Writing an entry for `k` into slot `j`, where `k` is either already or
/// nowhere else, adds `k` to the view.
proof fn lemma_view_insert(s: Seq<Slot>, j: int, x: Slot)
    requires
        unique(s),
        0 <= j < s.len(),
        x is Entry,
        holds(s, j, x->Entry_0.key@) || (!(s[j] is Entry) && forall|i: int|
            !#[trigger] holds(s, i, x->Entry_0.key@)),
    ensures
        unique(s.update(j, x)),
        view_of(s.update(j, x)) == view_of(s).insert(x->Entry_0.key@, x->Entry_0.value@),
{
    let s2 = s.update(j, x);
    let k = x->Entry_0.key@;
    assert forall|a: int, b: int, q: Seq<char>| #[trigger] holds(s2, a, q) && #[trigger] holds(
        s2,
        b,
        q,
    ) implies a == b by {
        if a != j && b != j {
            assert(holds(s, a, q) && holds(s, b, q));
        } else if a == j && b != j {
            assert(holds(s, b, k));
            if holds(s, j, k) {
                assert(b == j);
            }
        } else if b == j && a != j {
            assert(holds(s, a, k));
            if holds(s, j, k) {
                assert(a == j);
            }
        }
    }
    let m = view_of(s).insert(k, x->Entry_0.value@);
    assert forall|q: Seq<char>| #[trigger] view_of(s2).contains_key(q) == m.contains_key(q) by {
        if q == k {
            assert(holds(s2, j, q));
        } else if view_of(s).contains_key(q) {
            let i = choose|i: int| 0 <= i < s.len() as int && #[trigger] holds(s, i, q);
            assert(holds(s2, i, q));
        } else if view_of(s2).contains_key(q) {
            let i = choose|i: int| 0 <= i < s2.len() as int && #[trigger] holds(s2, i, q);
            assert(holds(s, i, q));
        }
    }
    assert forall|q: Seq<char>| view_of(s2).contains_key(q) implies #[trigger] view_of(s2)[q]
        == m[q] by {
        if q == k {
            lemma_view_has(s2, j, q);
        } else {
            let i = choose|i: int| 0 <= i < s2.len() as int && #[trigger] holds(s2, i, q);
            assert(holds(s, i, q));
            lemma_view_has(s2, i, q);
            lemma_view_has(s, i, q);
        }
    }
    assert(view_of(s2) =~= m);
}

/// Turning the entry for `k` in slot `j` into a tombstone removes `k` from
/// the view.
proof fn lemma_view_remove(s: Seq<Slot>, j: int, k: Seq<char>)
    requires
        unique(s),
        holds(s, j, k),
    ensures
        unique(s.update(j, Slot::Tombstone)),
        view_of(s.update(j, Slot::Tombstone)) == view_of(s).remove(k),
{
    let s2 = s.update(j, Slot::Tombstone);
    assert forall|a: int, b: int, q: Seq<char>| #[trigger] holds(s2, a, q) && #[trigger] holds(
        s2,
        b,
        q,
    ) implies a == b by {
        assert(holds(s, a, q) && holds(s, b, q));
    }
    let m = view_of(s).remove(k);
    assert forall|q: Seq<char>| #[trigger] view_of(s2).contains_key(q) == m.contains_key(q) by {
        if view_of(s2).contains_key(q) {
            let i = choose|i: int| 0 <= i < s2.len() as int && #[trigger] holds(s2, i, q);
            assert(holds(s, i, q));
            if q == k {
                assert(i == j);
            }
        } else if q != k && view_of(s).contains_key(q) {
            let i = choose|i: int| 0 <= i < s.len() as int && #[trigger] holds(s, i, q);
            if i == j {
                assert(q == k);
            }
            assert(holds(s2, i, q));
        }
    }
    assert forall|q: Seq<char>| view_of(s2).contains_key(q) implies #[trigger] view_of(s2)[q]
        == m[q] by {
        let i = choose|i: int| 0 <= i < s2.len() as int && #[trigger] holds(s2, i, q);
        assert(holds(s, i, q));
        lemma_view_has(s2, i, q);
        lemma_view_has(s, i, q);
    }
    assert(view_of(s2) =~= m);
}

/// Any non-empty slot may be written without breaking a probe chain, as long
/// as the written entry's own chain holds.
proof fn lemma_chain_write(s: Seq<Slot>, j: int, x: Slot)
    requires
        chain_ok(s),
        0 <= j < s.len(),
        !(x is Empty),
        x is Entry ==> forall|i: int|
            0 <= i < dist(home(x->Entry_0.key@, s.len() as int), j, s.len() as int) ==> !(
            #[trigger] s[probe(home(x->Entry_0.key@, s.len() as int), i, s.len() as int)] is Empty),
    ensures
        chain_ok(s.update(j, x)),
{
    let s2 = s.update(j, x);
    assert forall|a: int, i: int|
        0 <= a < s2.len() && s2[a] is Entry && 0 <= i < dist(key_home(s2, a), a, s2.len() as int)
            implies !(#[trigger] s2[probe(key_home(s2, a), i, s2.len() as int)] is Empty) by {
        let p = probe(key_home(s2, a), i, s2.len() as int);
        if a == j {
            assert(!(s[p] is Empty));
        } else {
            assert(key_home(s2, a) == key_home(s, a));
            assert(!(s[probe(key_home(s, a), i, s.len() as int)] is Empty));
        }
    }
}

/// Looks `key` up by probing from its home slot. Gives the slot that holds
/// it, or else the slot where it belongs: the first tombstone on its chain,
/// or the empty slot that ends the chain.
fn find_entry(entries: &Vec<Slot>, key: &String) -> (r: (usize, bool))
    requires
        probe_ok(entries@),
    ensures
        r.0 < entries@.len(),
        r.1 ==> holds(entries@, r.0 as int, key@),
        !r.1 ==> !(entries@[r.0 as int] is Entry),
        !r.1 ==> forall|i: int| !#[trigger] holds(entries@, i, key@),
        !r.1 ==> forall|i: int|
            0 <= i < dist(home(key@, entries@.len() as int), r.0 as int, entries@.len() as int)
                ==> #[trigger] entries@[probe(
                home(key@, entries@.len() as int),
                i,
                entries@.len() as int,
            )] is Entry,
{
    let ghost s = entries@;
    let cap = entries.len();
    let h = hash(key.as_str()) % cap;
    let ghost hh = h as int;
    assert(hh == home(key@, cap as int));
    let ghost e = choose|e: int| 0 <= e < s.len() && #[trigger] s[e] is Empty;
    let ghost de = dist(hh, e, cap as int);
    let mut d: usize = 0;
    let mut tomb: Option<usize> = None;
    loop
        invariant
            s == entries@,
            probe_ok(s),
            cap == s.len(),
            hh == h,
            h < cap,
            0 <= e < cap,
            s[e] is Empty,
            de == dist(hh, e, cap as int),
            d <= de,
            de < cap,
            hh == home(key@, cap as int),
            forall|i: int| 0 <= i < d ==> !(#[trigger] s[probe(hh, i, cap as int)] is Empty),
            forall|i: int| 0 <= i < d ==> !holds(s, #[trigger] probe(hh, i, cap as int), key@),
            forall|i: int|
                0 <= i < (if tomb is Some {
                    tomb->0 as int
                } else {
                    d as int
                }) ==> #[trigger] s[probe(hh, i, cap as int)] is Entry,
            tomb is Some ==> tomb->0 < d && s[probe(hh, tomb->0 as int, cap as int)] is Tombstone,
        decreases de - d,
    {
        let i = if h + d < cap {
            h + d
        } else {
            h + d - cap
        };
        assert(i == probe(hh, d as int, cap as int));
        match &entries[i] {
            Slot::Empty => {
                proof {
                    assert forall|j: int| !#[trigger] holds(s, j, key@) by {
                        if holds(s, j, key@) {
                            let dj = dist(hh, j, cap as int);
                            assert(probe(hh, dj, cap as int) == j);
                            if dj < d {
                                assert(!holds(s, probe(hh, dj, cap as int), key@));
                            } else if dj > d {
                                assert(key_home(s, j) == hh);
                                assert(!(s[probe(key_home(s, j), d as int, s.len() as int)] is Empty));
                            }
                        }
                    }
                }
                match tomb {
                    Some(t) => {
                        let ti = if h + t < cap {
                            h + t
                        } else {
                            h + t - cap
                        };
                        proof {
                            assert(dist(hh, ti as int, cap as int) == t);
                        }
                        return (ti, false);
                    },
                    None => {
                        proof {
                            assert(dist(hh, i as int, cap as int) == d);
                        }
                        return (i, false);
                    },
                }
            },
            Slot::Tombstone => {
                if tomb.is_none() {
                    tomb = Some(d);
                }
            },
            Slot::Entry(en) => {
                if en.key == *key {
                    return (i, true);
                }
            },
        }
        proof {
            if d == de {
                assert(probe(hh, de, cap as int) == e);
            }
        }
        d = d + 1;
    }
}

/// A string-keyed hash table with open addressing and linear probing.
pub struct Table {
    entries: Vec<Slot>,
    /// Slots that are not empty: entries and tombstones.
    count: usize,
    /// How many inserts the table has taken; bounds its capacity.
    inserts: Ghost<nat>,
}

impl Default for Table {
    /// An empty table with no slots; the first insert allocates eight.
    fn default() -> (r: Table)
        ensures
            r.wf(),
            r.view() == Map::<Seq<char>, Val>::empty(),
            r.capacity_view() == 0,
            r.insert_count() == 0,
    {
        let r = Table { entries: Vec::new(), count: 0, inserts: Ghost(0) };
        proof {
            assert(view_of(r.entries@) =~= Map::<Seq<char>, Val>::empty());
        }
        r
    }
}

impl Table {
    /// The entries, by key.
    pub closed spec fn view(&self) -> Map<Seq<char>, Val> {
        view_of(self.entries@)
    }

    /// The number of inserts the table has taken since it was made.
    pub closed spec fn insert_count(&self) -> nat {
        self.inserts@
    }

    pub closed spec fn capacity_view(&self) -> nat {
        self.entries@.len()
    }

    pub closed spec fn wf(&self) -> bool {
        &&& self.entries@.len() == 0 ==> self.count == 0
        &&& self.entries@.len() > 0 ==> probe_ok(self.entries@)
        &&& self.entries@.len() <= usize::MAX / 4
        &&& self.count == used(self.entries@, self.entries@.len() as int)
        &&& self.count * 4 <= self.entries@.len() * 3
        &&& self.count <= self.inserts@
        &&& self.entries@.len() <= 8 || self.entries@.len() * 3 <= 8 * self.inserts@
    }

    /// The number of slots.
    pub fn capacity(&self) -> (r: usize)
        ensures
            r == self.capacity_view(),
    {
        self.entries.len()
    }

    /// Replaces the slots with `cap` fresh ones and re-enters every entry;
    /// tombstones are dropped.
    fn adjust_capacity(&mut self, cap: usize)
        requires
            old(self).wf(),
            cap >= 8,
            cap <= usize::MAX / 4,
            used(old(self).entries@, old(self).entries@.len() as int) * 4 + 4 <= cap * 3,
            cap <= 8 || cap * 3 <= 8 * old(self).inserts@,
        ensures
            final(self).wf(),
            final(self).view() == old(self).view(),
            final(self).entries@.len() == cap,
            (final(self).count + 1) * 4 <= cap * 3,
            final(self).inserts == old(self).inserts,
            final(self).count <= old(self).count,
    {
        let mut fresh: Vec<Slot> = Vec::new();
        let mut k: usize = 0;
        while k < cap
            invariant
                k <= cap,
                fresh@.len() == k,
                forall|i: int| 0 <= i < k ==> #[trigger] fresh@[i] is Empty,
            decreases cap - k,
        {
            fresh.push(Slot::Empty);
            k = k + 1;
        }
        proof {
            let f = fresh@;
            assert(f[0] is Empty);
            assert forall|i: int, j: int, q: Seq<char>| #[trigger] holds(f, i, q) && #[trigger] holds(
                f,
                j,
                q,
            ) implies i == j by {}
            assert(view_of(f) =~= view_upto(self.entries@, 0));
            assert(used(f, cap as int) == 0) by {
                lemma_used_zero(f, cap as int);
            }
        }
        let mut count: usize = 0;
        let mut idx: usize = 0;
        let n = self.entries.len();
        while idx < n
            invariant
                n == self.entries@.len(),
                self.entries@ == old(self).entries@,
                old(self).wf(),
                idx <= n,
                fresh@.len() == cap,
                cap >= 8,
                cap <= usize::MAX / 4,
                used(old(self).entries@, n as int) * 4 + 4 <= cap * 3,
                unique(fresh@),
                chain_ok(fresh@),
                count == used(fresh@, cap as int),
                forall|i: int| 0 <= i < cap ==> !(#[trigger] fresh@[i] is Tombstone),
                count <= used(self.entries@, idx as int),
                view_of(fresh@) == view_upto(self.entries@, idx as int),
            decreases n - idx,
        {
            let ghost s = self.entries@;
            proof {
                lemma_used_prefix(s, idx as int, n as int);
                lemma_used_bound(fresh@, cap as int);
                lemma_upto_step(s, idx as int);
            }
            match &self.entries[idx] {
                Slot::Entry(e) => {
                    let (j, found) = find_entry(&fresh, &e.key);
                    proof {
                        if found {
                            lemma_view_has(fresh@, j as int, e.key@);
                            let i = choose|i: int| 0 <= i < idx && #[trigger] holds(s, i, e.key@);
                            assert(holds(s, idx as int, e.key@));
                        }
                    }
                    let slot = Slot::Entry(Entry { key: e.key.clone(), value: e.value.copy() });
                    proof {
                        lemma_view_insert(fresh@, j as int, slot);
                        lemma_chain_write(fresh@, j as int, slot);
                        lemma_used_update(fresh@, j as int, slot, cap as int);
                    }
                    fresh.set(j, slot);
                    count = count + 1;
                    proof {
                        assert(view_of(fresh@) =~= view_upto(s, idx + 1));
                    }
                },
                _ => {},
            }
            idx = idx + 1;
        }
        proof {
            lemma_used_bound(fresh@, cap as int);
            assert(view_upto(self.entries@, n as int) == view_of(self.entries@));
        }
        self.entries = fresh;
        self.count = count;
    }

    /// Sets `key` to `value`, growing the table first when one more used slot
    /// would take it past three quarters full. Gives the value that `key` had.
    pub fn insert(&mut self, key: &str, value: Value) -> (r: Option<Value>)
        requires
            old(self).wf(),
            old(self).insert_count() < usize::MAX / 32,
        ensures
            final(self).wf(),
            final(self).insert_count() == old(self).insert_count() + 1,
            final(self).view() == old(self).view().insert(key@, value@),
            r is Some <==> old(self).view().contains_key(key@),
            r is Some ==> r->0@ == old(self).view()[key@],
    {
        let ghost v = value@;
        proof {
            self.inserts = Ghost(self.inserts@ + 1);
        }
        if (self.count + 1) * 4 > self.entries.len() * 3 {
            let cap = Self::grow_capacity(self.entries.len());
            self.adjust_capacity(cap);
        }
        let ghost s = self.entries@;
        let cap = self.entries.len();
        proof {
            lemma_used_bound(s, cap as int);
        }
        let k = String::from_str(key);
        let (i, found) = find_entry(&self.entries, &k);
        let previous = match &self.entries[i] {
            Slot::Entry(e) => Some(e.value.copy()),
            _ => None,
        };
        let was_empty = match &self.entries[i] {
            Slot::Empty => true,
            _ => false,
        };
        let slot = Slot::Entry(Entry { key: k, value });
        proof {
            if found {
                lemma_view_has(s, i as int, key@);
                assert(key_home(s, i as int) == home(key@, cap as int));
                assert forall|d: int|
                    0 <= d < dist(home(key@, cap as int), i as int, cap as int) implies !(
                #[trigger] s[probe(home(key@, cap as int), d, cap as int)] is Empty) by {
                    assert(!(s[probe(key_home(s, i as int), d, s.len() as int)] is Empty));
                }
            } else {
                assert(!view_of(s).contains_key(key@));
            }
            lemma_view_insert(s, i as int, slot);
            lemma_chain_write(s, i as int, slot);
            lemma_used_update(s, i as int, slot, cap as int);
        }
        self.entries.set(i, slot);
        if was_empty {
            self.count = self.count + 1;
        }
        proof {
            let s2 = self.entries@;
            lemma_used_bound(s2, cap as int);
            assert(view_of(s2) == view_of(s).insert(key@, v));
        }
        previous
    }

    /// The value of `key`, if the table holds it.
    pub fn get(&self, key: &str) -> (r: Option<&Value>)
        requires
            self.wf(),
        ensures
            r is Some <==> self.view().contains_key(key@),
            r is Some ==> r->0@ == self.view()[key@],
    {
        if self.count == 0 {
            proof {
                assert forall|q: Seq<char>| !#[trigger] self.view().contains_key(q) by {
                    if self.view().contains_key(q) {
                        let s = self.entries@;
                        let i = choose|i: int| 0 <= i < s.len() as int && #[trigger] holds(s, i, q);
                        lemma_used_update(s, i, Slot::Empty, s.len() as int);
                        lemma_used_bound(s.update(i, Slot::Empty), s.len() as int);
                    }
                }
            }
            return None;
        }
        let k = String::from_str(key);
        let (i, found) = find_entry(&self.entries, &k);
        if found {
            proof {
                lemma_view_has(self.entries@, i as int, key@);
            }
            match &self.entries[i] {
                Slot::Entry(e) => Some(&e.value),
                _ => None,
            }
        } else {
            None
        }
    }

    /// Removes `key`, leaving a tombstone in its slot. Gives whether the table
    /// held it.
    pub fn delete(&mut self, key: &str) -> (r: bool)
        requires
            old(self).wf(),
        ensures
            final(self).wf(),
            final(self).view() == old(self).view().remove(key@),
            final(self).capacity_view() == old(self).capacity_view(),
            final(self).insert_count() == old(self).insert_count(),
            r == old(self).view().contains_key(key@),
    {
        if self.count == 0 {
            proof {
                let s = self.entries@;
                assert(!self.view().contains_key(key@)) by {
                    if self.view().contains_key(key@) {
                        let i = choose|i: int| 0 <= i < s.len() as int && #[trigger] holds(s, i, key@);
                        lemma_used_update(s, i, Slot::Empty, s.len() as int);
                        lemma_used_bound(s.update(i, Slot::Empty), s.len() as int);
                    }
                }
                assert(self.view().remove(key@) =~= self.view());
            }
            return false;
        }
        let k = String::from_str(key);
        let (i, found) = find_entry(&self.entries, &k);
        if found {
            let ghost s = self.entries@;
            proof {
                lemma_view_remove(s, i as int, key@);
                lemma_chain_write(s, i as int, Slot::Tombstone);
                lemma_used_update(s, i as int, Slot::Tombstone, s.len() as int);
                let s2 = s.update(i as int, Slot::Tombstone);
                let e = choose|e: int| 0 <= e < s.len() && #[trigger] s[e] is Empty;
                assert(s2[e] is Empty);
            }
            self.entries.set(i, Slot::Tombstone);
            true
        } else {
            proof {
                assert(!self.view().contains_key(key@));
                assert(self.view().remove(key@) =~= self.view());
            }
            false
        }
    }

    fn grow_capacity(cap: usize) -> (r: usize)
        requires
            cap <= usize::MAX / 8,
        ensures
            r == if cap < 8 {
                8
            } else {
                cap * 2
            },
    {
        if cap < 8 {
            8
        } else {
            cap * 2
        }
    }
}

/// Tables built by inserting distinct keys one after another into an empty
/// table (each table the result of the insert before it) hold every key with
/// the value inserted for it.
pub proof fn lemma_inserts_retrievable(
    tables: Seq<Table>,
    keys: Seq<Seq<char>>,
    vals: Seq<Val>,
)
    requires
        tables.len() == keys.len() + 1,
        vals.len() == keys.len(),
        tables[0].view() == Map::<Seq<char>, Val>::empty(),
        forall|i: int|
            0 <= i < keys.len() ==> #[trigger] tables[i + 1].view() == tables[i].view().insert(
                keys[i],
                vals[i],
            ),
        forall|i: int, j: int| 0 <= i < j < keys.len() ==> keys[i] != keys[j],
    ensures
        forall|i: int|
            0 <= i < keys.len() ==> #[trigger] tables.last().view().contains_key(keys[i])
                && tables.last().view()[keys[i]] == vals[i],
    decreases keys.len(),
{
    if keys.len() > 0 {
        let n = keys.len() - 1;
        lemma_inserts_retrievable(tables.drop_last(), keys.drop_last(), vals.drop_last());
        assert forall|i: int| 0 <= i < keys.len() implies #[trigger] tables.last().view().contains_key(
            keys[i],
        ) && tables.last().view()[keys[i]] == vals[i] by {
            assert(tables.last() == tables[n + 1]);
            if i < n {
                assert(tables.drop_last().last() == tables[n]);
                assert(keys.drop_last()[i] == keys[i]);
            }
        }
    }
}

/// Deleting a key makes it absent and leaves every other key as it was;
/// inserting it again makes it present with the new value.
pub proof fn lemma_delete_then_reinsert(
    t1: Table,
    t2: Table,
    t3: Table,
    k: Seq<char>,
    w: Val,
)
    requires
        t2.view() == t1.view().remove(k),
        t3.view() == t2.view().insert(k, w),
    ensures
        !t2.view().contains_key(k),
        forall|q: Seq<char>|
            q != k ==> (#[trigger] t2.view().contains_key(q) == t1.view().contains_key(q)) && (
            t1.view().contains_key(q) ==> t2.view()[q] == t1.view()[q]),
        t3.view().contains_key(k) && t3.view()[k] == w,
{
}

} // verus!
