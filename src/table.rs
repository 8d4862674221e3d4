//! The archived table: entries plus a bucket array of position-relative
//! slots, filled by linear probing from the archive hash of each key.
use vstd::prelude::*;
use vstd::relations::injective_on;
use vstd::set_lib::*;
use crate::hash::{hash_key, key_hash, keys_equal};
use crate::relptr::{relative_offset, resolve_offset, ArchiveError};
use crate::laws::lemma_listing_len;
use crate::source::SourceMap;

verus! {

/// The value of a bucket slot that references no entry.
pub const EMPTY_SLOT: i32 = -2147483648;

/// The most entries a table holds: with at most this many, every slot lies
/// within reach of an `i32` offset to any entry.
pub const MAX_ENTRIES: usize = 0x4000_0000;

/// One archived key and its value.
pub struct ArchivedEntry {
    pub key: String,
    pub value: i32,
}

impl View for ArchivedEntry {
    type V = (Seq<char>, i32);

    open spec fn view(&self) -> (Seq<char>, i32) {
        (self.key@, self.value)
    }
}

/// The map that a sequence of pairs describes, later pairs overriding
/// earlier ones.
pub open spec fn entries_map(s: Seq<(Seq<char>, i32)>) -> Map<Seq<char>, i32>
    decreases s.len(),
{
    if s.len() == 0 {
        Map::empty()
    } else {
        entries_map(s.drop_last()).insert(s.last().0, s.last().1)
    }
}

/// No key occurs twice in the pairs.
pub open spec fn keys_distinct(s: Seq<(Seq<char>, i32)>) -> bool {
    forall|i: int, j: int| 0 <= i < j < s.len() ==> s[i].0 != s[j].0
}

/// The characters-and-value view of native pairs.
pub open spec fn pairs_view(v: Seq<(String, i32)>) -> Seq<(Seq<char>, i32)> {
    v.map_values(|p: (String, i32)| (p.0@, p.1))
}

/// The number of buckets for `n` entries: none for an empty table, else
/// `n + n / 7 + 1`, which keeps the load under 7/8 and one bucket free.
pub open spec fn bucket_count(n: nat) -> nat {
    if n == 0 {
        0
    } else {
        n + n / 7 + 1
    }
}

/// The number of buckets for `n` entries.
pub fn buckets_for(n: usize) -> (r: usize)
    requires
        n <= MAX_ENTRIES,
    ensures
        r == bucket_count(n as nat),
{
    if n == 0 {
        0
    } else {
        n + n / 7 + 1
    }
}

/// What serializing a table leaves for the final, position-dependent write:
/// where its bucket array was placed.
#[derive(Debug, Clone, Copy, PartialEq, Eq, Structural)]
pub struct HashMapResolver {
    pub buckets_pos: usize,
}

/// A table's header: its length, its bucket count, and the offset from the
/// header's own position to its bucket array.
#[derive(Debug, Clone, Copy, PartialEq, Eq, Structural)]
pub struct ArchivedHeader {
    pub len: usize,
    pub bucket_count: usize,
    pub buckets_offset: i32,
}

/// Writes the header of a table of `len` entries placed at `pos`, once
/// that position is known. Refused with an offset overflow when the bucket
/// array lies out of an `i32` offset's reach.
pub fn resolve_from_len(len: usize, pos: usize, resolver: HashMapResolver) -> (r: Result<
    ArchivedHeader,
    ArchiveError,
>)
    requires
        len <= MAX_ENTRIES,
    ensures
        r is Ok <==> crate::relptr::offset_fits(pos as int, resolver.buckets_pos as int),
        r is Err ==> r->Err_0 == ArchiveError::OffsetOverflow,
        r is Ok ==> r->Ok_0.len == len && r->Ok_0.bucket_count == bucket_count(len as nat)
            && pos + r->Ok_0.buckets_offset == resolver.buckets_pos,
{
    match relative_offset(pos, resolver.buckets_pos) {
        Ok(off) => Ok(ArchivedHeader { len, bucket_count: buckets_for(len), buckets_offset: off }),
        Err(e) => Err(e),
    }
}

/// The bucket where probing for key `k` starts.
pub open spec fn home(k: Seq<char>, cap: nat) -> int {
    (key_hash(k) as nat % cap) as int
}

/// The `j`-th bucket probed from bucket `h`.
pub open spec fn probe(h: int, j: int, cap: nat) -> int {
    (h + j) % (cap as int)
}

/// How many probes from bucket `h` lead to bucket `b`.
pub open spec fn dist(h: int, b: int, cap: nat) -> int {
    if b >= h {
        b - h
    } else {
        b + cap - h
    }
}

/// Every bucket probed from `h` before the `d`-th is occupied.
pub open spec fn run_filled(slots: Seq<i32>, h: int, d: int, cap: nat) -> bool {
    forall|t: int| 0 <= t < d ==> #[trigger] slots[probe(h, t, cap)] != EMPTY_SLOT
}

/// The layout relation between slots and entries: each occupied slot refers
/// to one entry and each entry to one slot, reached from its key's home
/// bucket through occupied buckets only.
pub open spec fn table_ok(
    slots: Seq<i32>,
    entries: Seq<(Seq<char>, i32)>,
    slot_of: Seq<int>,
    cap: nat,
) -> bool {
    &&& slots.len() == cap
    &&& slot_of.len() == entries.len()
    &&& keys_distinct(entries)
    &&& forall|b: int|
        0 <= b < cap && #[trigger] slots[b] != EMPTY_SLOT ==> 0 <= b + slots[b] < entries.len()
            && slot_of[b + slots[b]] == b
    &&& forall|i: int|
        0 <= i < entries.len() ==> 0 <= #[trigger] slot_of[i] < cap && slots[slot_of[i]]
            != EMPTY_SLOT && slot_of[i] + slots[slot_of[i]] == i && run_filled(
            slots,
            home(entries[i].0, cap),
            dist(home(entries[i].0, cap), slot_of[i], cap),
            cap,
        )
}

/// The `t`-th probe from `h`, without the modulus.
pub proof fn lemma_probe_value(h: int, t: int, cap: nat)
    requires
        0 <= h < cap,
        0 <= t < cap,
    ensures
        probe(h, t, cap) == if h + t < cap {
            h + t
        } else {
            h + t - cap
        },
{
    if h + t < cap {
        vstd::arithmetic::div_mod::lemma_small_mod((h + t) as nat, cap);
    } else {
        vstd::arithmetic::div_mod::lemma_mod_add_multiples_vanish(h + t - cap, cap as int);
        vstd::arithmetic::div_mod::lemma_small_mod((h + t - cap) as nat, cap);
    }
}

/// Every bucket is reached from `h` within `cap` probes.
pub proof fn lemma_probe_dist(h: int, b: int, cap: nat)
    requires
        0 <= h < cap,
        0 <= b < cap,
    ensures
        0 <= dist(h, b, cap) < cap,
        probe(h, dist(h, b, cap), cap) == b,
{
    if b >= h {
        assert(h + (b - h) == b);
        vstd::arithmetic::div_mod::lemma_small_mod(b as nat, cap);
    } else {
        assert(h + (b + cap - h) == b + cap);
        vstd::arithmetic::div_mod::lemma_mod_add_multiples_vanish(b, cap as int);
        vstd::arithmetic::div_mod::lemma_small_mod(b as nat, cap);
    }
}

/// The next probe is the next bucket, wrapping to the first.
pub proof fn lemma_probe_next(h: int, j: int, cap: nat)
    requires
        0 <= h < cap,
        0 <= j,
    ensures
        0 <= probe(h, j, cap) < cap,
        probe(h, j + 1, cap) == if probe(h, j, cap) + 1 == cap {
            0
        } else {
            probe(h, j, cap) + 1
        },
{
    let c = cap as int;
    vstd::arithmetic::div_mod::lemma_mod_bound(h + j, c);
    vstd::arithmetic::div_mod::lemma_add_mod_noop(h + j, 1, c);
    if c == 1 {
        vstd::arithmetic::div_mod::lemma_mod_bound(h + j + 1, c);
    } else {
        vstd::arithmetic::div_mod::lemma_small_mod(1, cap);
        let x = (h + j) % c;
        if x + 1 == c {
            vstd::arithmetic::div_mod::lemma_mod_self_0(c);
        } else {
            vstd::arithmetic::div_mod::lemma_small_mod((x + 1) as nat, cap);
        }
    }
}

/// While fewer entries than buckets are placed, some bucket is free.
pub proof fn lemma_has_empty(
    slots: Seq<i32>,
    entries: Seq<(Seq<char>, i32)>,
    slot_of: Seq<int>,
    cap: nat,
)
    requires
        table_ok(slots, entries, slot_of, cap),
        entries.len() < cap,
    ensures
        exists|b: int| 0 <= b < cap && slots[b] == EMPTY_SLOT,
{
    if forall|b: int| 0 <= b < cap ==> slots[b] != EMPTY_SLOT {
        let all = set_int_range(0, cap as int);
        let f = |b: int| b + slots[b];
        lemma_int_range(0, cap as int);
        lemma_int_range(0, entries.len() as int);
        assert(injective_on(f, all)) by {
            assert forall|x: int, y: int|
                all.contains(x) && all.contains(y) && #[trigger] f(x) == #[trigger] f(y) implies x
                == y by {
                assert(slots[x] != EMPTY_SLOT && slots[y] != EMPTY_SLOT);
            }
        }
        lemma_map_size(all, all.map(f), f);
        assert(all.map(f).subset_of(set_int_range(0, entries.len() as int))) by {
            assert forall|v: int| #[trigger] all.map(f).contains(v) implies set_int_range(
                0,
                entries.len() as int,
            ).contains(v) by {
                let b = choose|b: int| all.contains(b) && f(b) == v;
                assert(slots[b] != EMPTY_SLOT);
            }
        }
        lemma_len_subset(all.map(f), set_int_range(0, entries.len() as int));
    }
}

/// With distinct keys, the map of a sequence of pairs holds exactly those
/// pairs, one key for each.
pub proof fn lemma_entries_map(s: Seq<(Seq<char>, i32)>)
    requires
        keys_distinct(s),
    ensures
        entries_map(s).dom().finite(),
        entries_map(s).len() == s.len(),
        forall|i: int|
            0 <= i < s.len() ==> #[trigger] entries_map(s).contains_key(s[i].0) && entries_map(
                s,
            )[s[i].0] == s[i].1,
        forall|k: Seq<char>|
            #[trigger] entries_map(s).contains_key(k) ==> exists|i: int|
                0 <= i < s.len() && s[i].0 == k,
    decreases s.len(),
{
    if s.len() > 0 {
        let p = s.drop_last();
        assert(keys_distinct(p));
        lemma_entries_map(p);
        if entries_map(p).contains_key(s.last().0) {
            let i = choose|i: int| 0 <= i < p.len() && p[i].0 == s.last().0;
            assert(s[i].0 == s[s.len() - 1].0);
        }
        assert forall|i: int| 0 <= i < s.len() implies #[trigger] entries_map(s).contains_key(
            s[i].0,
        ) && entries_map(s)[s[i].0] == s[i].1 by {
            if i < s.len() - 1 {
                assert(p[i] == s[i]);
            }
        }
        assert forall|k: Seq<char>| #[trigger] entries_map(s).contains_key(k) implies exists|
            i: int,
        | 0 <= i < s.len() && s[i].0 == k by {
            if k != s.last().0 {
                let i = choose|i: int| 0 <= i < p.len() && p[i].0 == k;
                assert(s[i] == p[i]);
            } else {
                assert(s[s.len() - 1].0 == k);
            }
        }
    }
}

/// Placing a new entry in the first free bucket of its probe run keeps the
/// layout relation.
proof fn lemma_place(
    slots: Seq<i32>,
    done: Seq<(Seq<char>, i32)>,
    slot_of: Seq<int>,
    cap: nat,
    k: Seq<char>,
    v: i32,
    s: int,
    j: int,
)
    requires
        table_ok(slots, done, slot_of, cap),
        keys_distinct(done.push((k, v))),
        0 <= s < cap,
        0 <= j < cap,
        0 <= home(k, cap) < cap,
        slots[s] == EMPTY_SLOT,
        s == probe(home(k, cap), j, cap),
        run_filled(slots, home(k, cap), j, cap),
        i32::MIN < done.len() - s <= i32::MAX,
    ensures
        table_ok(
            slots.update(s, (done.len() - s) as i32),
            done.push((k, v)),
            slot_of.push(s),
            cap,
        ),
{
    let i = done.len() as int;
    let ns = slots.update(s, (i - s) as i32);
    let now = done.push((k, v));
    let so = slot_of.push(s);
    let hh = home(k, cap);
    assert(dist(hh, s, cap) == j) by {
        lemma_probe_value(hh, j, cap);
    }
    assert forall|b: int| 0 <= b < cap && #[trigger] ns[b] != EMPTY_SLOT implies 0 <= b + ns[b]
        < now.len() && so[b + ns[b]] == b by {
        if b != s {
            assert(slots[b] != EMPTY_SLOT);
        }
    }
    assert forall|x: int| 0 <= x < now.len() implies 0 <= #[trigger] so[x] < cap && ns[so[x]]
        != EMPTY_SLOT && so[x] + ns[so[x]] == x && run_filled(
        ns,
        home(now[x].0, cap),
        dist(home(now[x].0, cap), so[x], cap),
        cap,
    ) by {
        if x < i {
            assert(now[x] == done[x]);
            assert(so[x] == slot_of[x]);
            let hx = home(now[x].0, cap);
            let dx = dist(hx, so[x], cap);
            assert forall|t: int| 0 <= t < dx implies #[trigger] ns[probe(hx, t, cap)]
                != EMPTY_SLOT by {
                assert(slots[probe(hx, t, cap)] != EMPTY_SLOT);
            }
        } else {
            assert(now[x] == (k, v) && so[x] == s);
            assert forall|t: int| 0 <= t < j implies #[trigger] ns[probe(hh, t, cap)]
                != EMPTY_SLOT by {
                assert(slots[probe(hh, t, cap)] != EMPTY_SLOT);
            }
        }
    }
}

/// `r` lists the pairs of `m`, each key once, in some order.
pub open spec fn lists_entries(r: Seq<(Seq<char>, i32)>, m: Map<Seq<char>, i32>) -> bool {
    &&& keys_distinct(r)
    &&& forall|x: int| 0 <= x < r.len() ==> #[trigger] m.contains_key(r[x].0) && m[r[x].0] == r[x].1
    &&& forall|k: Seq<char>| #[trigger] m.contains_key(k) ==> exists|x: int| 0 <= x < r.len() && r[x].0 == k
}

/// The characters-and-value view of borrowed pairs.
pub open spec fn borrowed_view(v: Seq<(&str, i32)>) -> Seq<(Seq<char>, i32)> {
    v.map_values(|p: (&str, i32)| (p.0@, p.1))
}

/// `a` is a well-formed archive of the pairs `m`: what `serialize` returns.
pub open spec fn archives(a: ArchivedHashMap, m: Map<Seq<char>, i32>) -> bool {
    a.wf() && a@ == m
}

/// An archived hash map: its entries, and a bucket array whose occupied
/// slots hold the offset from the slot's index to its entry's index.
pub struct ArchivedHashMap {
    entries: Vec<ArchivedEntry>,
    slots: Vec<i32>,
    slot_of: Ghost<Seq<int>>,
}

impl View for ArchivedHashMap {
    type V = Map<Seq<char>, i32>;

    open spec fn view(&self) -> Map<Seq<char>, i32> {
        entries_map(self.entry_seq())
    }
}

impl ArchivedHashMap {
    /// The archived pairs, in the order they were archived.
    pub closed spec fn entry_seq(&self) -> Seq<(Seq<char>, i32)> {
        self.entries@.map_values(|e: ArchivedEntry| e@)
    }

    /// The table's layout invariant.
    pub closed spec fn wf(&self) -> bool {
        &&& self.entries@.len() <= MAX_ENTRIES
        &&& table_ok(
            self.slots@,
            self.entry_seq(),
            self.slot_of@,
            bucket_count(self.entries@.len()),
        )
    }

    /// Archives the given pairs, whose keys must be distinct. Refused with
    /// an offset overflow when there are more than `MAX_ENTRIES` of them.
    #[verifier::loop_isolation(false)]
    pub fn from_pairs(pairs: &Vec<(String, i32)>) -> (r: Result<ArchivedHashMap, ArchiveError>)
        requires
            keys_distinct(pairs_view(pairs@)),
        ensures
            r is Err <==> pairs@.len() > MAX_ENTRIES,
            r is Err ==> r->Err_0 == ArchiveError::OffsetOverflow,
            r is Ok ==> r->Ok_0.wf() && r->Ok_0@ == entries_map(pairs_view(pairs@)),
    {
        let n = pairs.len();
        if n > MAX_ENTRIES {
            return Err(ArchiveError::OffsetOverflow);
        }
        let cap = buckets_for(n);
        let mut slots: Vec<i32> = Vec::new();
        let mut b: usize = 0;
        while b < cap
            invariant
                b <= cap,
                slots@.len() == b,
                forall|x: int| 0 <= x < b ==> slots@[x] == EMPTY_SLOT,
            decreases cap - b,
        {
            slots.push(EMPTY_SLOT);
            b = b + 1;
        }
        let mut entries: Vec<ArchivedEntry> = Vec::new();
        let ghost mut slot_of: Seq<int> = Seq::empty();
        let ghost pv = pairs_view(pairs@);
        let mut i: usize = 0;
        while i < n
            invariant
                i <= n,
                entries@.len() == i,
                entries@.map_values(|e: ArchivedEntry| e@) == pv.take(i as int),
                table_ok(slots@, pv.take(i as int), slot_of, cap as nat),
            decreases n - i,
        {
            let key = pairs[i].0.clone();
            let value = pairs[i].1;
            let ghost old_slots = slots@;
            let ghost done = pv.take(i as int);
            proof {
                assert(pv[i as int] == (key@, value));
                lemma_has_empty(slots@, done, slot_of, cap as nat);
            }
            let hv = hash_key(key.as_str());
            let h: usize = (hv % (cap as u64)) as usize;
            let ghost hh = h as int;
            assert(hh == home(key@, cap as nat));
            let mut s: usize = h;
            let mut j: usize = 0;
            proof {
                vstd::arithmetic::div_mod::lemma_small_mod(h as nat, cap as nat);
            }
            while slots[s] != EMPTY_SLOT
                invariant
                    s < cap,
                    j < cap,
                    s as int == probe(hh, j as int, cap as nat),
                    run_filled(slots@, hh, j as int, cap as nat),
                decreases cap - j,
            {
                proof {
                    lemma_probe_next(hh, j as int, cap as nat);
                    if j + 1 == cap {
                        let e = choose|e: int| 0 <= e < cap && slots@[e] == EMPTY_SLOT;
                        lemma_probe_dist(hh, e, cap as nat);
                        assert(slots@[probe(hh, dist(hh, e, cap as nat), cap as nat)] != EMPTY_SLOT);
                    }
                }
                s = if s + 1 == cap {
                    0
                } else {
                    s + 1
                };
                j = j + 1;
            }
            let off = match relative_offset(s, i) {
                Ok(o) => o,
                Err(e) => {
                    return Err(e);
                },
            };
            slots.set(s, off);
            proof {
                slot_of = slot_of.push(s as int);
            }
            entries.push(ArchivedEntry { key, value });
            proof {
                let now = pv.take(i as int + 1);
                assert(now =~= done.push((key@, value)));
                assert(entries@.map_values(|e: ArchivedEntry| e@) =~= now);
                lemma_place(old_slots, done, slot_of.drop_last(), cap as nat, key@, value, s as int, j as int);
                assert(slot_of.drop_last().push(s as int) == slot_of);
            }
            i = i + 1;
        }
        assert(pv.take(n as int) =~= pv);
        Ok(ArchivedHashMap { entries, slots, slot_of: Ghost(slot_of) })
    }
    /// The archive's map has finitely many keys, one for each entry.
    pub proof fn lemma_view_finite(&self)
        requires
            self.wf(),
        ensures
            self@.dom().finite(),
            self@.len() == self.entry_seq().len(),
    {
        lemma_entries_map(self.entry_seq());
    }

    /// The number of entries.
    pub fn len(&self) -> (r: usize)
        requires
            self.wf(),
        ensures
            r == self@.len(),
    {
        proof {
            lemma_entries_map(self.entry_seq());
        }
        self.entries.len()
    }

    /// The index of the entry whose key is `key`, found by walking the
    /// probe run from the key's home bucket up to the first free bucket.
    fn find(&self, key: &str) -> (r: Option<usize>)
        requires
            self.wf(),
        ensures
            r is Some ==> r->Some_0 < self.entries@.len() && self.entries@[r->Some_0 as int].key@
                == key@,
            r is None ==> !self@.contains_key(key@),
    {
        let cap = self.slots.len();
        let ghost n = self.entries@.len();
        let ghost es = self.entry_seq();
        proof {
            lemma_entries_map(es);
        }
        if cap == 0 {
            return None;
        }
        let hv = hash_key(key);
        let h: usize = (hv % (cap as u64)) as usize;
        let ghost hh = h as int;
        let mut s: usize = h;
        let mut j: usize = 0;
        proof {
            vstd::arithmetic::div_mod::lemma_small_mod(h as nat, cap as nat);
        }
        while j < cap
            invariant
                self.wf(),
                cap == self.slots@.len(),
                cap == bucket_count(n),
                es == self.entry_seq(),
                hh == home(key@, cap as nat),
                0 <= hh < cap,
                j <= cap,
                j < cap ==> s < cap && s as int == probe(hh, j as int, cap as nat),
                forall|t: int|
                    0 <= t < j ==> #[trigger] self.slots@[probe(hh, t, cap as nat)] != EMPTY_SLOT
                        && es[probe(hh, t, cap as nat) + self.slots@[probe(hh, t, cap as nat)]].0
                        != key@,
            decreases cap - j,
        {
            let off = self.slots[s];
            if off == EMPTY_SLOT {
                proof {
                    self.lemma_absent_before_free(key@, hh, j as int);
                }
                return None;
            }
            let e = resolve_offset(s, off);
            assert(es[e as int] == self.entries@[e as int]@);
            if keys_equal(self.entries[e].key.as_str(), key) {
                return Some(e);
            }
            proof {
                lemma_probe_next(hh, j as int, cap as nat);
            }
            s = if s + 1 == cap {
                0
            } else {
                s + 1
            };
            j = j + 1;
        }
        proof {
            self.lemma_absent_before_free(key@, hh, cap as int);
        }
        None
    }

    /// A key is absent when the first `j` buckets of its probe run hold
    /// other keys and the run then meets a free bucket or ends.
    proof fn lemma_absent_before_free(&self, k: Seq<char>, hh: int, j: int)
        requires
            self.wf(),
            self.slots@.len() > 0,
            hh == home(k, self.slots@.len() as nat),
            0 <= j <= self.slots@.len(),
            j < self.slots@.len() ==> self.slots@[probe(hh, j, self.slots@.len() as nat)]
                == EMPTY_SLOT,
            forall|t: int|
                0 <= t < j ==> #[trigger] self.slots@[probe(hh, t, self.slots@.len() as nat)]
                    != EMPTY_SLOT && self.entry_seq()[probe(hh, t, self.slots@.len() as nat)
                    + self.slots@[probe(hh, t, self.slots@.len() as nat)]].0 != k,
        ensures
            !self@.contains_key(k),
    {
        let es = self.entry_seq();
        let cap = self.slots@.len() as nat;
        lemma_entries_map(es);
        vstd::arithmetic::div_mod::lemma_mod_bound(key_hash(k) as int, cap as int);
        if self@.contains_key(k) {
            let i = choose|i: int| 0 <= i < es.len() && es[i].0 == k;
            let b = self.slot_of@[i];
            let d = dist(hh, b, cap);
            lemma_probe_dist(hh, b, cap);
            assert(run_filled(self.slots@, hh, d, cap));
            if d < j {
                assert(self.slots@[probe(hh, d, cap)] != EMPTY_SLOT);
            } else if d > j {
                assert(self.slots@[probe(hh, j, cap)] != EMPTY_SLOT);
            }
        }
    }

    /// The value stored under `key`, if any.
    pub fn get(&self, key: &str) -> (r: Option<i32>)
        requires
            self.wf(),
        ensures
            r == (if self@.contains_key(key@) {
                Some(self@[key@])
            } else {
                None
            }),
    {
        match self.find(key) {
            Some(e) => {
                proof {
                    lemma_entries_map(self.entry_seq());
                    assert(self.entry_seq()[e as int] == self.entries@[e as int]@);
                    assert(self@.contains_key(self.entry_seq()[e as int].0));
                }
                Some(self.entries[e].value)
            },
            None => None,
        }
    }

    /// The archived key and value stored under `key`, if any.
    pub fn get_key_value(&self, key: &str) -> (r: Option<(&str, i32)>)
        requires
            self.wf(),
        ensures
            r is Some <==> self@.contains_key(key@),
            r is Some ==> r->Some_0.0@ == key@ && r->Some_0.1 == self@[key@],
    {
        match self.find(key) {
            Some(e) => {
                proof {
                    lemma_entries_map(self.entry_seq());
                    assert(self.entry_seq()[e as int] == self.entries@[e as int]@);
                    assert(self@.contains_key(self.entry_seq()[e as int].0));
                }
                Some((self.entries[e].key.as_str(), self.entries[e].value))
            },
            None => None,
        }
    }

    /// Whether some entry has the key `key`.
    pub fn contains_key(&self, key: &str) -> (r: bool)
        requires
            self.wf(),
        ensures
            r == self@.contains_key(key@),
    {
        match self.find(key) {
            Some(e) => {
                proof {
                    lemma_entries_map(self.entry_seq());
                    assert(self.entry_seq()[e as int] == self.entries@[e as int]@);
                    assert(self@.contains_key(self.entry_seq()[e as int].0));
                }
                true
            },
            None => false,
        }
    }
    /// The archived pairs, read in bucket order.
    pub fn iter(&self) -> (r: Vec<(&str, i32)>)
        requires
            self.wf(),
        ensures
            lists_entries(borrowed_view(r@), self@),
            r@.len() == self@.len(),
    {
        let ghost es = self.entry_seq();
        let ghost n = es.len();
        let ghost so = self.slot_of@;
        let cap = self.slots.len();
        let mut out: Vec<(&str, i32)> = Vec::new();
        let ghost mut src: Seq<int> = Seq::empty();
        let mut b: usize = 0;
        while b < cap
            invariant
                self.wf(),
                es == self.entry_seq(),
                so == self.slot_of@,
                n == es.len(),
                cap == self.slots@.len(),
                b <= cap,
                src.len() == out@.len(),
                forall|x: int|
                    0 <= x < src.len() ==> 0 <= #[trigger] src[x] < b && self.slots@[src[x]]
                        != EMPTY_SLOT && (out@[x].0@, out@[x].1) == es[src[x]
                        + self.slots@[src[x]]],
                forall|x: int, y: int| 0 <= x < y < src.len() ==> src[x] < src[y],
                forall|i: int|
                    0 <= i < n && #[trigger] so[i] < b ==> exists|x: int|
                        0 <= x < src.len() && src[x] == so[i],
            decreases cap - b,
        {
            let off = self.slots[b];
            if off != EMPTY_SLOT {
                let e = resolve_offset(b, off);
                assert(es[e as int] == self.entries@[e as int]@);
                out.push((self.entries[e].key.as_str(), self.entries[e].value));
                proof {
                    let ghost old_src = src;
                    src = src.push(b as int);
                    assert forall|i: int| 0 <= i < n && #[trigger] so[i] < b + 1 implies exists|
                        x: int,
                    | 0 <= x < src.len() && src[x] == so[i] by {
                        if so[i] == b {
                            assert(src[src.len() - 1] == so[i]);
                        } else {
                            let x = choose|x: int| 0 <= x < old_src.len() && old_src[x] == so[i];
                            assert(src[x] == old_src[x]);
                        }
                    }
                }
            } else {
                proof {
                    assert forall|i: int| 0 <= i < n && #[trigger] so[i] < b + 1 implies exists|
                        x: int,
                    | 0 <= x < src.len() && src[x] == so[i] by {
                        assert(so[i] != b);
                    }
                }
            }
            b = b + 1;
        }
        proof {
            let rv = borrowed_view(out@);
            lemma_entries_map(es);
            assert forall|x: int| 0 <= x < rv.len() implies #[trigger] self@.contains_key(rv[x].0)
                && self@[rv[x].0] == rv[x].1 by {
                assert(rv[x] == es[src[x] + self.slots@[src[x]]]);
            }
            assert forall|x: int, y: int| 0 <= x < y < rv.len() implies rv[x].0 != rv[y].0 by {
                let ex = src[x] + self.slots@[src[x]];
                let ey = src[y] + self.slots@[src[y]];
                assert(so[ex] == src[x] && so[ey] == src[y]);
                assert(rv[x] == es[ex] && rv[y] == es[ey]);
            }
            assert forall|k: Seq<char>| #[trigger] self@.contains_key(k) implies exists|x: int|
                0 <= x < rv.len() && rv[x].0 == k by {
                let i = choose|i: int| 0 <= i < es.len() && es[i].0 == k;
                assert(so[i] < cap);
                let x = choose|x: int| 0 <= x < src.len() && src[x] == so[i];
                assert(rv[x] == es[i]);
            }
            lemma_listing_len(rv, self@);
        }
        out
    }

    /// Rebuilds a native map holding the archived pairs.
    pub fn deserialize(&self) -> (r: SourceMap)
        requires
            self.wf(),
        ensures
            r@ == self@,
    {
        let ghost es = self.entry_seq();
        let n = self.entries.len();
        let mut m = SourceMap::with_capacity(n);
        let mut i: usize = 0;
        while i < n
            invariant
                es == self.entry_seq(),
                n == es.len(),
                i <= n,
                m@ == entries_map(es.take(i as int)),
            decreases n - i,
        {
            assert(es[i as int] == self.entries@[i as int]@);
            assert(es.take(i as int + 1).drop_last() =~= es.take(i as int));
            m.insert(self.entries[i].key.clone(), self.entries[i].value);
            i = i + 1;
        }
        assert(es.take(n as int) =~= es);
        m
    }

    /// Whether the archive holds exactly the pairs of the native map,
    /// decided by lookups in the native map.
    pub fn eq_native(&self, other: &SourceMap) -> (r: bool)
        requires
            self.wf(),
        ensures
            r == (self@ == other@),
    {
        let ghost es = self.entry_seq();
        proof {
            lemma_entries_map(es);
        }
        let n = self.entries.len();
        if n != other.len() {
            return false;
        }
        let mut i: usize = 0;
        while i < n
            invariant
                self.wf(),
                es == self.entry_seq(),
                n == es.len(),
                i <= n,
                forall|x: int|
                    0 <= x < i ==> #[trigger] other@.contains_key(es[x].0) && other@[es[x].0]
                        == es[x].1,
            decreases n - i,
        {
            assert(es[i as int] == self.entries@[i as int]@);
            proof {
                lemma_entries_map(es);
            }
            match other.get(self.entries[i].key.as_str()) {
                Some(v) => {
                    assert(self@.contains_key(es[i as int].0));
                    if v != self.entries[i].value {
                        assert(self@[es[i as int].0] == es[i as int].1);
                        return false;
                    }
                    assert(other@.contains_key(es[i as int].0) && other@[es[i as int].0]
                        == es[i as int].1);
                },
                None => {
                    assert(self@.contains_key(es[i as int].0));
                    return false;
                },
            }
            i = i + 1;
        }
        proof {
            assert(self@.dom().subset_of(other@.dom())) by {
                assert forall|k: Seq<char>| self@.contains_key(k) implies other@.contains_key(k) by {
                    let x = choose|x: int| 0 <= x < es.len() && es[x].0 == k;
                }
            }
            lemma_subset_equality(self@.dom(), other@.dom());
            assert forall|k: Seq<char>| self@.contains_key(k) implies self@[k] == other@[k] by {
                let x = choose|x: int| 0 <= x < es.len() && es[x].0 == k;
            }
            assert(self@ =~= other@);
        }
        true
    }

    /// Archives a native map: its pairs are placed by the archive hash, so
    /// the result depends on the pairs alone, not on the map's iteration
    /// order. Refused with an offset overflow beyond `MAX_ENTRIES` pairs.
    pub fn serialize(map: &SourceMap) -> (r: Result<ArchivedHashMap, ArchiveError>)
        ensures
            r is Err <==> map@.len() > MAX_ENTRIES,
            r is Err ==> r->Err_0 == ArchiveError::OffsetOverflow,
            r is Ok ==> archives(r->Ok_0, map@),
    {
        let pairs = map.to_pairs();
        let ghost pv = pairs_view(pairs@);
        proof {
            assert forall|i: int, j: int| 0 <= i < j < pv.len() implies pv[i].0 != pv[j].0 by {
                assert(pairs@[i].0@ != pairs@[j].0@);
            }
            lemma_entries_map(pv);
            assert forall|k: Seq<char>| #[trigger] map@.contains_key(k) implies entries_map(
                pv,
            ).contains_key(k) && entries_map(pv)[k] == map@[k] by {
                let i = choose|i: int| 0 <= i < pairs@.len() && pairs@[i].0@ == k;
                assert(pv[i] == (pairs@[i].0@, pairs@[i].1));
                assert(map@.contains_key(pairs@[i].0@));
            }
            assert forall|k: Seq<char>| #[trigger] entries_map(pv).contains_key(k) implies map@.contains_key(k) by {
                let i = choose|i: int| 0 <= i < pv.len() && pv[i].0 == k;
                assert(map@.contains_key(pairs@[i].0@));
            }
            assert(entries_map(pv) =~= map@);
        }
        ArchivedHashMap::from_pairs(&pairs)
    }
}

impl SourceMap {
    /// Whether this native map holds exactly the pairs of the archive.
    pub fn eq_archived(&self, other: &ArchivedHashMap) -> (r: bool)
        requires
            other.wf(),
        ensures
            r == (self@ == other@),
    {
        other.eq_native(self)
    }

    /// Writes the header of this map's archive, placed at `pos`, from the
    /// resolver that serializing it left.
    pub fn resolve(&self, pos: usize, resolver: HashMapResolver) -> (r: Result<
        ArchivedHeader,
        ArchiveError,
    >)
        ensures
            r is Ok <==> self@.len() <= MAX_ENTRIES && crate::relptr::offset_fits(
                pos as int,
                resolver.buckets_pos as int,
            ),
            r is Err ==> r->Err_0 == ArchiveError::OffsetOverflow,
            r is Ok ==> r->Ok_0.len == self@.len() && r->Ok_0.bucket_count == bucket_count(
                self@.len(),
            ) && pos + r->Ok_0.buckets_offset == resolver.buckets_pos,
    {
        let n = self.len();
        if n > MAX_ENTRIES {
            return Err(ArchiveError::OffsetOverflow);
        }
        resolve_from_len(n, pos, resolver)
    }
}

} // verus!
