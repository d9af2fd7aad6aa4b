use vstd::prelude::*;

use crate::arena::{Allocator, Arena};
use crate::error::Error;
use crate::keys::KeyComparator;
use crate::skiplist::ordering::{
    count_le, count_lt, inserted, lemma_count_le_at, lemma_count_le_char, lemma_count_lt_at, lemma_count_lt_char,
    lemma_insert_sorted, lemma_key_eq_subst, lemma_key_order, lookup, near_index, sorted_keys, Entries,
};

pub mod ordering;

verus! {

/// Number of levels a tower can have.
pub const MAX_HEIGHT: usize = 20;

/// A tower grows one more level with probability `HEIGHT_INCREASE / u32::MAX`, one in three.
pub const HEIGHT_INCREASE: u32 = 0x5555_5555;

/// Alignment of a node in the arena.
pub const NODE_ALIGN: usize = 8;

/// Arena bytes of a node besides its tower: the key and value handles and the height.
pub const NODE_BASE: usize = 72;

/// Arena bytes taken by a node whose tower reaches level `height`.
pub open spec fn node_size(height: int) -> int {
    NODE_BASE + 4 * (height + 1)
}

/// One key/value pair of a list, with the top level of its tower.
#[derive(Debug)]
pub struct Node {
    pub key: Vec<u8>,
    pub value: Vec<u8>,
    pub height: usize,
}

/// An ordered map from keys to values. Nodes are numbered by the order in which
/// they were added, node `0` being the head; a link holds the number of the next
/// node on its level, `0` meaning none. `links[id * MAX_HEIGHT + level]` is the
/// link of node `id` on `level`.
pub struct Skiplist<C: KeyComparator> {
    nodes: Vec<Node>,
    links: Vec<u32>,
    height: usize,
    arena: Arena,
    cmp: C,
    /// The nodes in level-0 order, head excluded.
    order: Ghost<Seq<int>>,
    /// The position of each node in `order`; `-1` for the head.
    rank: Ghost<Seq<int>>,
}

/// Slot `level` of node `id` lies inside the links of `n` nodes.
proof fn lemma_slot(id: int, level: int, n: int)
    requires
        0 <= id < n,
        0 <= level < MAX_HEIGHT,
    ensures
        0 <= id * MAX_HEIGHT + level < n * MAX_HEIGHT,
        (id + 1) * MAX_HEIGHT == id * MAX_HEIGHT + MAX_HEIGHT,
{
    assert(0 <= id * MAX_HEIGHT + level < n * MAX_HEIGHT) by (nonlinear_arith)
        requires
            0 <= id < n,
            0 <= level < MAX_HEIGHT,
    ;
    assert((id + 1) * MAX_HEIGHT == id * MAX_HEIGHT + MAX_HEIGHT) by (nonlinear_arith);
}

/// The link of node `id` on `level`, in a table of links.
spec fn slot(links: Seq<u32>, id: int, level: int) -> int {
    links[id * MAX_HEIGHT + level] as int
}

/// Distinct (node, level) pairs have distinct slots.
proof fn lemma_slot_unique(id: int, level: int, id2: int, level2: int)
    requires
        0 <= level < MAX_HEIGHT,
        0 <= level2 < MAX_HEIGHT,
        id * MAX_HEIGHT + level == id2 * MAX_HEIGHT + level2,
    ensures
        id == id2,
        level == level2,
{
    assert(id == id2) by (nonlinear_arith)
        requires
            0 <= level < MAX_HEIGHT,
            0 <= level2 < MAX_HEIGHT,
            id * MAX_HEIGHT + level == id2 * MAX_HEIGHT + level2,
    ;
}

/// Relies on rand's `Rng::gen_ratio` on the thread-local generator: `true` with
/// probability `numerator / denominator`. It panics when the denominator is zero
/// or below the numerator, which `requires` rules out.
#[verifier::external_body]
fn gen_ratio(numerator: u32, denominator: u32) -> (r: bool)
    requires
        0 < denominator,
        numerator <= denominator,
{
    rand::Rng::gen_ratio(&mut rand::thread_rng(), numerator, denominator)
}

/// A random tower height: each further level is taken with probability
/// `HEIGHT_INCREASE / u32::MAX`, up to `MAX_HEIGHT - 1`.
fn random_height() -> (h: usize)
    ensures
        h < MAX_HEIGHT,
{
    let mut h: usize = 0;
    while h < MAX_HEIGHT - 1
        invariant
            h < MAX_HEIGHT,
        decreases MAX_HEIGHT - h,
    {
        if !gen_ratio(HEIGHT_INCREASE, u32::MAX) {
            return h;
        }
        h = h + 1;
    }
    MAX_HEIGHT - 1
}

/// Whether two byte strings are equal.
fn bytes_eq(a: &[u8], b: &[u8]) -> (r: bool)
    ensures
        r == (a@ == b@),
{
    let o = crate::keys::compare_bytes(a, b);
    proof {
        crate::keys::lemma_lex_trichotomy(a@, b@);
    }
    match o {
        std::cmp::Ordering::Equal => true,
        _ => false,
    }
}

impl<C: KeyComparator> Skiplist<C> {
    pub closed spec fn link(&self, id: int, level: int) -> int {
        slot(self.links@, id, level)
    }

    pub closed spec fn key_of(&self, id: int) -> Seq<u8> {
        self.nodes@[id].key@
    }

    pub closed spec fn rank_of(&self, id: int) -> int {
        self.rank@[id]
    }

    pub closed spec fn num_nodes(&self) -> int {
        self.nodes@.len() as int
    }

    /// The entries in key order, as a walk along level 0 meets them.
    pub closed spec fn entries(&self) -> Entries {
        Seq::new(self.order@.len(), |k: int| (self.nodes@[self.order@[k]].key@, self.nodes@[self.order@[k]].value@))
    }

    pub closed spec fn comparator(&self) -> C {
        self.cmp
    }

    /// Arena bytes in use.
    pub closed spec fn used(&self) -> int {
        self.arena.used()
    }

    /// Arena bytes in all.
    pub closed spec fn arena_cap(&self) -> int {
        self.arena.cap()
    }

    /// The node at position `k` of level 0, or `0` past either end.
    pub closed spec fn node_at(&self, k: int) -> int {
        if 0 <= k < self.order@.len() { self.order@[k] } else { 0 }
    }

    pub closed spec fn wf(&self) -> bool {
        let n = self.nodes@.len();
        &&& 1 <= n < self.arena.used()
        &&& self.arena.wf()
        &&& self.links@.len() == n * MAX_HEIGHT
        &&& self.height < MAX_HEIGHT
        &&& self.order@.len() == n - 1
        &&& self.rank@.len() == n
        &&& self.rank@[0] == -1
        &&& forall|k: int| 0 <= k < self.order@.len() ==> 1 <= #[trigger] self.order@[k] < n && self.rank@[self.order@[k]] == k
        &&& forall|id: int| 1 <= id < n ==> 0 <= #[trigger] self.rank@[id] < n - 1 && self.order@[self.rank@[id]] == id
        &&& forall|id: int| 0 <= id < n ==> #[trigger] self.link(id, 0) == self.node_at(self.rank@[id] + 1)
        &&& forall|id: int, l: int| 0 <= id < n && 0 <= l < MAX_HEIGHT ==> {
            &&& 0 <= #[trigger] self.link(id, l) < n
            &&& self.link(id, l) != 0 ==> self.rank@[self.link(id, l)] > self.rank@[id]
        }
        &&& sorted_keys(self.cmp, self.entries())
    }

    proof fn lemma_node_at(&self, k: int)
        requires
            self.wf(),
            0 <= k < self.order@.len(),
        ensures
            self.node_at(k) == self.order@[k],
            self.entries()[k].0 == self.key_of(self.order@[k]),
            self.entries()[k].1 == self.nodes@[self.order@[k]].value@,
            1 <= self.order@[k] < self.nodes@.len(),
            self.rank@[self.order@[k]] == k,
    {
    }

    proof fn lemma_rank(&self, id: int)
        requires
            self.wf(),
            1 <= id < self.nodes@.len(),
        ensures
            0 <= self.rank@[id] < self.entries().len(),
            self.order@[self.rank@[id]] == id,
            self.entries()[self.rank@[id]].0 == self.key_of(id),
            self.entries()[self.rank@[id]].1 == self.nodes@[id].value@,
    {
    }

    /// The link of node `id` on `level`.
    fn link_at(&self, id: u32, level: usize) -> (r: u32)
        requires
            self.wf(),
            (id as int) < self.nodes@.len(),
            level < MAX_HEIGHT,
        ensures
            r as int == self.link(id as int, level as int),
            (r as int) < self.nodes@.len(),
            r != 0 ==> self.rank@[r as int] > self.rank@[id as int] && 1 <= r,
    {
        let ln = self.links.len();
        proof {
            lemma_slot(id as int, level as int, self.nodes@.len() as int);
            assert(id * MAX_HEIGHT + level < ln);
            assert(0 <= self.link(id as int, level as int) < self.nodes@.len());
        }
        self.links[id as usize * MAX_HEIGHT + level]
    }

    /// Walks right on `level` from `before` while the next key is below `key`.
    /// Returns the last node passed, the next one, and whether that next one
    /// holds a key equal to `key`.
    fn find_splice_for_level(&self, key: &[u8], before: u32, level: usize) -> (r: (u32, u32, bool))
        requires
            self.wf(),
            (before as int) < self.nodes@.len(),
            before == 0 || self.cmp.key_lt(self.key_of(before as int), key@),
            level < MAX_HEIGHT,
        ensures
            (r.0 as int) < self.nodes@.len(),
            r.0 == 0 || self.cmp.key_lt(self.key_of(r.0 as int), key@),
            r.1 as int == self.link(r.0 as int, level as int),
            r.2 ==> r.1 != 0 && self.cmp.key_eq(self.key_of(r.1 as int), key@),
            !r.2 ==> r.1 == 0 || self.cmp.key_lt(key@, self.key_of(r.1 as int)),
    {
        let mut cur = before;
        loop
            invariant
                self.wf(),
                (cur as int) < self.nodes@.len(),
                cur == 0 || self.cmp.key_lt(self.key_of(cur as int), key@),
                level < MAX_HEIGHT,
            decreases self.nodes@.len() - self.rank@[cur as int],
        {
            let next = self.link_at(cur, level);
            if next == 0 {
                return (cur, next, false);
            }
            proof {
                lemma_key_order(self.cmp, key@, self.key_of(next as int));
                self.lemma_rank(next as int);
            }
            match self.cmp.compare_key(key, self.nodes[next as usize].key.as_slice()) {
                std::cmp::Ordering::Equal => {
                    return (cur, next, true);
                },
                std::cmp::Ordering::Less => {
                    return (cur, next, false);
                },
                std::cmp::Ordering::Greater => {
                    cur = next;
                },
            }
        }
    }

    /// The node that `find_near` lands on, or `0`.
    fn find_near_id(&self, key: &[u8], less: bool, allow_equal: bool) -> (r: u32)
        requires
            self.wf(),
        ensures
            r as int == self.node_at(near_index(self.cmp, self.entries(), key@, less, allow_equal)),
    {
        let ghost es = self.entries();
        let ghost c = self.cmp;
        let mut cursor: u32 = 0;
        let mut level: usize = self.height;
        loop
            invariant
                self.wf(),
                es == self.entries(),
                c == self.cmp,
                (cursor as int) < self.nodes@.len(),
                cursor == 0 || c.key_lt(self.key_of(cursor as int), key@),
                level < MAX_HEIGHT,
            decreases level, self.nodes@.len() - self.rank@[cursor as int],
        {
            let next = self.link_at(cursor, level);
            let ghost rc = self.rank@[cursor as int];
            proof {
                if cursor != 0 {
                    self.lemma_rank(cursor as int);
                    lemma_key_order(c, self.key_of(cursor as int), key@);
                }
                lemma_count_lt_char(c, es, key@);
                lemma_count_le_char(c, es, key@);
            }
            if next == 0 {
                if level > 0 {
                    level = level - 1;
                    continue;
                }
                proof {
                    lemma_count_lt_at(c, es, key@, rc + 1);
                    lemma_count_le_at(c, es, key@, rc + 1);
                }
                if !less || cursor == 0 {
                    return 0;
                }
                return cursor;
            }
            let ghost rn = self.rank@[next as int];
            proof {
                self.lemma_rank(next as int);
                lemma_key_order(c, key@, self.key_of(next as int));
            }
            match self.cmp.compare_key(key, self.nodes[next as usize].key.as_slice()) {
                std::cmp::Ordering::Greater => {
                    cursor = next;
                    continue;
                },
                std::cmp::Ordering::Equal => {
                    proof {
                        if rn > 0 {
                            lemma_key_order(c, es[rn - 1].0, key@);
                            assert(c.key_lt(es[rn - 1].0, es[rn].0));
                            lemma_key_eq_subst(c, key@, self.key_of(next as int), es[rn - 1].0);
                        }
                        lemma_count_lt_at(c, es, key@, rn);
                        if rn + 1 < es.len() {
                            assert(c.key_lt(es[rn].0, es[rn + 1].0));
                            lemma_key_eq_subst(c, key@, self.key_of(next as int), es[rn + 1].0);
                        }
                        lemma_count_le_at(c, es, key@, rn + 1);
                    }
                    if allow_equal {
                        return next;
                    }
                    if !less {
                        return self.link_at(next, 0);
                    }
                    if level > 0 {
                        level = level - 1;
                        continue;
                    }
                    if cursor == 0 {
                        return 0;
                    }
                    return cursor;
                },
                std::cmp::Ordering::Less => {
                    if level > 0 {
                        level = level - 1;
                        continue;
                    }
                    proof {
                        lemma_count_lt_at(c, es, key@, rc + 1);
                        lemma_count_le_at(c, es, key@, rc + 1);
                    }
                    if !less {
                        return next;
                    }
                    if cursor == 0 {
                        return 0;
                    }
                    return cursor;
                },
            }
        }
    }
}


impl<C: KeyComparator> Skiplist<C> {
    /// The state that `put` leaves after linking a new node `n` at position `pos`
    /// of level 0 and on levels `0..=h` between `prev[l]` and `next[l]` is a
    /// well-formed list holding the new entry in its place.
    proof fn lemma_put_linked(
        &self,
        o: &Skiplist<C>,
        key: Seq<u8>,
        value: Seq<u8>,
        prev: Seq<u32>,
        next: Seq<u32>,
        h: int,
        top: int,
        pos: int,
    )
        requires
            o.wf(),
            0 <= h <= top < MAX_HEIGHT,
            prev.len() == MAX_HEIGHT,
            next.len() == MAX_HEIGHT,
            forall|l: int| 0 <= l <= top ==> {
                &&& (#[trigger] prev[l] as int) < o.nodes@.len()
                &&& prev[l] == 0 || o.cmp.key_lt(o.key_of(prev[l] as int), key)
                &&& next[l] as int == o.link(prev[l] as int, l)
                &&& next[l] == 0 || o.cmp.key_lt(key, o.key_of(next[l] as int))
            },
            pos == o.rank@[prev[0] as int] + 1,
            pos == count_lt(o.cmp, o.entries(), key),
            lookup(o.cmp, o.entries(), key).is_none(),
            self.cmp == o.cmp,
            self.height < MAX_HEIGHT,
            self.arena.wf(),
            o.nodes@.len() + 1 < self.arena.used(),
            self.nodes@.len() == o.nodes@.len() + 1,
            forall|id: int| 0 <= id < o.nodes@.len() ==> #[trigger] self.nodes@[id] == o.nodes@[id],
            self.nodes@[o.nodes@.len() as int].key@ == key,
            self.nodes@[o.nodes@.len() as int].value@ == value,
            self.order@ == o.order@.insert(pos, o.nodes@.len() as int),
            self.rank@ == Seq::new(
                (o.nodes@.len() + 1) as nat,
                |id: int| if id == o.nodes@.len() { pos } else if o.rank@[id] >= pos { o.rank@[id] + 1 } else { o.rank@[id] },
            ),
            self.links@.len() == (o.nodes@.len() + 1) * MAX_HEIGHT,
            forall|id: int, l: int| 0 <= id <= o.nodes@.len() && 0 <= l < MAX_HEIGHT ==> #[trigger] self.link(id, l) == (
                if l <= h && id == prev[l] {
                    o.nodes@.len() as int
                } else if l <= h && id == o.nodes@.len() {
                    next[l] as int
                } else if id < o.nodes@.len() {
                    o.link(id, l)
                } else {
                    0
                }),
        ensures
            self.wf(),
            self.entries() == o.entries().insert(pos, (key, value)),
    {
        let n = o.nodes@.len() as int;
        let c = o.cmp;
        let es = o.entries();
        lemma_count_lt_char(c, es, key);
        lemma_insert_sorted(c, es, key, value);
        o.order@.insert_ensures(pos, n);
        es.insert_ensures(pos, (key, value));
        // which positions the splice nodes hold
        assert forall|l: int| 0 <= l <= top implies o.rank@[#[trigger] prev[l] as int] < pos by {
            if prev[l] != 0 {
                o.lemma_rank(prev[l] as int);
            }
        }
        assert forall|l: int| 0 <= l <= top && #[trigger] next[l] != 0 implies o.rank@[next[l] as int] >= pos && 1 <= next[l] by {
            assert(0 <= o.link(prev[l] as int, l) < n);
            o.lemma_rank(next[l] as int);
            lemma_key_order(c, key, o.key_of(next[l] as int));
        }
        assert(self.entries() =~= es.insert(pos, (key, value))) by {
            assert forall|k: int| 0 <= k < n implies #[trigger] self.entries()[k] == es.insert(pos, (key, value))[k] by {
                if k < pos {
                    o.lemma_node_at(k);
                } else if k > pos {
                    o.lemma_node_at(k - 1);
                }
            }
        }
        assert forall|k: int| 0 <= k < self.order@.len() implies 1 <= #[trigger] self.order@[k] < n + 1
            && self.rank@[self.order@[k]] == k by {
            if k < pos {
                o.lemma_node_at(k);
            } else if k > pos {
                o.lemma_node_at(k - 1);
            }
        }
        assert forall|id: int| 1 <= id < n + 1 implies 0 <= #[trigger] self.rank@[id] < n && self.order@[self.rank@[id]] == id by {
            if id < n {
                o.lemma_rank(id);
            }
        }
        assert forall|id: int| 0 <= id < n + 1 implies #[trigger] self.link(id, 0) == self.node_at(self.rank@[id] + 1) by {
            let r = self.rank@[id];
            if id == prev[0] {
                assert(self.link(id, 0) == n);
            } else if id == n {
                assert(self.link(id, 0) == next[0]);
                assert(o.link(prev[0] as int, 0) == o.node_at(pos));
                if pos < n - 1 {
                    o.lemma_node_at(pos);
                }
            } else {
                assert(self.link(id, 0) == o.link(id, 0));
                assert(o.link(id, 0) == o.node_at(o.rank@[id] + 1));
                if id != 0 {
                    o.lemma_rank(id);
                }
                let orr = o.rank@[id];
                if orr + 1 < n - 1 {
                    o.lemma_node_at(orr + 1);
                }
            }
        }
        assert forall|id: int, l: int| 0 <= id < n + 1 && 0 <= l < MAX_HEIGHT implies {
            &&& 0 <= #[trigger] self.link(id, l) < n + 1
            &&& self.link(id, l) != 0 ==> self.rank@[self.link(id, l)] > self.rank@[id]
        } by {
            if l <= h && id == prev[l] {
            } else if l <= h && id == n {
                if next[l] != 0 {
                    assert(o.rank@[next[l] as int] >= pos);
                }
            } else if id < n {
                assert(0 <= o.link(id, l) < n);
            }
        }
    }

    /// An empty list over an arena of `arena_size` bytes, with a head node of
    /// full height.
    pub fn with_capacity(c: C, arena_size: u32) -> (l: Self)
        requires
            arena_size < u32::MAX,
            arena_size >= NODE_ALIGN + node_size(MAX_HEIGHT - 1),
        ensures
            l.wf(),
            l.entries().len() == 0,
            l.comparator() == c,
            l.arena_cap() == arena_size + 1,
            l.used() == NODE_ALIGN + node_size(MAX_HEIGHT - 1),
    {
        let mut arena = Arena::with_capacity(arena_size as usize);
        let off = arena.allocate(NODE_ALIGN, NODE_BASE + 4 * MAX_HEIGHT);
        assert(1int % 8int == 1);
        assert(off == 8);
        let mut links: Vec<u32> = Vec::new();
        let mut z: usize = 0;
        while z < MAX_HEIGHT
            invariant
                z <= MAX_HEIGHT,
                links@.len() == z,
                forall|j: int| 0 <= j < z ==> links@[j] == 0,
            decreases MAX_HEIGHT - z,
        {
            links.push(0);
            z = z + 1;
        }
        let mut nodes: Vec<Node> = Vec::new();
        nodes.push(Node { key: Vec::new(), value: Vec::new(), height: MAX_HEIGHT - 1 });
        let ghost head_rank = seq![-1int];
        let l = Skiplist {
            nodes,
            links,
            height: 0,
            arena,
            cmp: c,
            order: Ghost(Seq::empty()),
            rank: Ghost(head_rank),
        };
        proof {
            assert forall|id: int, lv: int| 0 <= id < 1 && 0 <= lv < MAX_HEIGHT implies 0 <= #[trigger] l.link(id, lv) < 1 by {
                assert(id == 0);
            }
            assert(l.entries() =~= Seq::empty());
        }
        l
    }

    /// Puts `(key, value)`. An empty key gives `EmptyKey`. Where no key equal
    /// to `key` is present the pair is linked in its place and `None` comes back;
    /// where an equal key holds the same value nothing changes and `None` comes
    /// back; where it holds another value nothing changes and the pair comes back.
    /// A new node takes at most `NODE_ALIGN + node_size(MAX_HEIGHT - 1)` arena
    /// bytes; where the arena may not have them, `ArenaOutOfSpace` can come back.
    pub fn put(&mut self, key: Vec<u8>, value: Vec<u8>) -> (r: Result<Option<(Vec<u8>, Vec<u8>)>, Error>)
        requires
            old(self).wf(),
        ensures
            final(self).wf(),
            final(self).comparator() == old(self).comparator(),
            final(self).arena_cap() == old(self).arena_cap(),
            key@.len() == 0 ==> r == Err::<Option<(Vec<u8>, Vec<u8>)>, Error>(Error::EmptyKey)
                && final(self).entries() == old(self).entries() && final(self).used() == old(self).used(),
            key@.len() > 0 && lookup(old(self).comparator(), old(self).entries(), key@) == Some(value@) ==> r == Ok::<
                Option<(Vec<u8>, Vec<u8>)>,
                Error,
            >(None) && final(self).entries() == old(self).entries() && final(self).used() == old(self).used(),
            key@.len() > 0 && lookup(old(self).comparator(), old(self).entries(), key@) is Some && lookup(
                old(self).comparator(),
                old(self).entries(),
                key@,
            ) != Some(value@) ==> (r matches Ok(Some(kv)) && kv.0@ == key@ && kv.1@ == value@
                && final(self).entries() == old(self).entries() && final(self).used() == old(self).used()),
            key@.len() > 0 && lookup(old(self).comparator(), old(self).entries(), key@) is None ==> match r {
                Ok(None) => final(self).entries() == inserted(old(self).comparator(), old(self).entries(), key@, value@)
                    && old(self).used() < final(self).used() <= old(self).used() + NODE_ALIGN + node_size(MAX_HEIGHT - 1),
                Err(e) => e == Error::ArenaOutOfSpace && final(self).entries() == old(self).entries()
                    && final(self).used() == old(self).used()
                    && old(self).used() + node_size(MAX_HEIGHT - 1) + NODE_ALIGN > old(self).arena_cap() + 1,
                _ => false,
            },
    {
        if key.len() == 0 {
            return Err(Error::EmptyKey);
        }
        let ghost es = self.entries();
        let ghost c = self.cmp;
        let ghost n = self.nodes@.len() as int;
        let list_height = self.height;
        let h = random_height();
        let top = if h > list_height { h } else { list_height };
        let mut prev: Vec<u32> = Vec::new();
        let mut next: Vec<u32> = Vec::new();
        let mut z: usize = 0;
        while z < MAX_HEIGHT
            invariant
                z <= MAX_HEIGHT,
                prev@.len() == z,
                next@.len() == z,
            decreases MAX_HEIGHT - z,
        {
            prev.push(0);
            next.push(0);
            z = z + 1;
        }
        let mut before: u32 = 0;
        let mut lvl: usize = top + 1;
        while lvl > 0
            invariant
                key@.len() > 0,
                self.wf(),
                *self == *old(self),
                es == self.entries(),
                c == self.cmp,
                n == self.nodes@.len(),
                top < MAX_HEIGHT,
                lvl <= top + 1,
                prev@.len() == MAX_HEIGHT,
                next@.len() == MAX_HEIGHT,
                (before as int) < n,
                before == 0 || c.key_lt(self.key_of(before as int), key@),
                forall|l: int| lvl <= l <= top ==> {
                    &&& (#[trigger] prev@[l] as int) < n
                    &&& prev@[l] == 0 || c.key_lt(self.key_of(prev@[l] as int), key@)
                    &&& next@[l] as int == self.link(prev@[l] as int, l)
                    &&& next@[l] == 0 || c.key_lt(key@, self.key_of(next@[l] as int))
                },
            decreases lvl,
        {
            lvl = lvl - 1;
            let (p, nx, eq) = self.find_splice_for_level(key.as_slice(), before, lvl);
            if eq {
                proof {
                    self.lemma_rank(nx as int);
                    let rn = self.rank@[nx as int];
                    lemma_key_order(c, self.key_of(nx as int), key@);
                    if rn > 0 {
                        assert(c.key_lt(es[rn - 1].0, es[rn].0));
                        lemma_key_eq_subst(c, self.key_of(nx as int), key@, es[rn - 1].0);
                    }
                    lemma_count_lt_at(c, es, key@, rn);
                }
                let same = bytes_eq(self.nodes[nx as usize].value.as_slice(), value.as_slice());
                if same {
                    return Ok(None);
                } else {
                    return Ok(Some((key, value)));
                }
            }
            prev.set(lvl, p);
            next.set(lvl, nx);
            before = p;
        }
        let ghost p0 = prev@[0] as int;
        let ghost pos = self.rank@[p0] + 1;
        proof {
            if p0 != 0 {
                self.lemma_rank(p0);
                lemma_key_order(c, self.key_of(p0), key@);
            }
            assert(self.link(p0, 0) == self.node_at(pos));
            if next@[0] != 0 {
                self.lemma_rank(next@[0] as int);
                lemma_key_order(c, key@, self.key_of(next@[0] as int));
            }
            lemma_count_lt_at(c, es, key@, pos);
            lemma_insert_sorted(c, es, key@, value@);
            lemma_count_lt_char(c, es, key@);
        }
        let off = self.arena.allocate(NODE_ALIGN, NODE_BASE + 4 * (h + 1));
        if off == 0 {
            proof {
                assert forall|id: int, l: int| #[trigger] self.link(id, l) == old(self).link(id, l) by {}
                assert(self.entries() == es);
            }
            return Err(Error::ArenaOutOfSpace);
        }
        if h > self.height {
            self.height = h;
        }
        let ghost old_links = self.links@;
        let ghost old_rank = self.rank@;
        let ghost old_order = self.order@;
        let ghost old_nodes = self.nodes@;
        let x = self.nodes.len() as u32;
        self.nodes.push(Node { key, value, height: h });
        let ghost nodes_after = self.nodes@;
        let ghost arena_used = self.arena.used();
        let mut z2: usize = 0;
        while z2 < MAX_HEIGHT
            invariant
                self.cmp == old(self).cmp,
                self.height < MAX_HEIGHT,
                self.arena.wf(),
                self.arena.used() == arena_used,
                self.arena.cap() == old(self).arena.cap(),
                self.nodes@ == nodes_after,
                self.order@ == old_order,
                self.rank@ == old_rank,
                z2 <= MAX_HEIGHT,
                self.links@.len() == n * MAX_HEIGHT + z2,
                forall|j: int| 0 <= j < n * MAX_HEIGHT ==> self.links@[j] == old_links[j],
                forall|j: int| n * MAX_HEIGHT <= j < n * MAX_HEIGHT + z2 ==> self.links@[j] == 0,
            decreases MAX_HEIGHT - z2,
        {
            self.links.push(0);
            z2 = z2 + 1;
        }
        let ghost new_rank = Seq::new(
            (n + 1) as nat,
            |id: int| if id == n { pos } else if old_rank[id] >= pos { old_rank[id] + 1 } else { old_rank[id] },
        );
        self.order = Ghost(old_order.insert(pos, n));
        self.rank = Ghost(new_rank);
        let mut i: usize = 0;
        while i <= h
            invariant
                self.cmp == old(self).cmp,
                self.height < MAX_HEIGHT,
                self.arena.wf(),
                self.arena.used() == arena_used,
                self.arena.cap() == old(self).arena.cap(),
                self.nodes@ == nodes_after,
                self.order@ == old_order.insert(pos, n),
                self.rank@ == new_rank,
                0 <= i <= h + 1,
                h < MAX_HEIGHT,
                h <= top,
                x == n,
                self.links@.len() == (n + 1) * MAX_HEIGHT,
                prev@.len() == MAX_HEIGHT,
                next@.len() == MAX_HEIGHT,
                forall|l: int| 0 <= l <= top ==> (#[trigger] prev@[l] as int) < n,
                forall|id: int, l: int| 0 <= id <= n && 0 <= l < MAX_HEIGHT ==> #[trigger] slot(self.links@, id, l) == (
                    if l < i && id == prev@[l] {
                        n
                    } else if l < i && id == n {
                        next@[l] as int
                    } else if id < n {
                        old(self).link(id, l)
                    } else {
                        0
                    }),
            decreases h + 1 - i,
        {
            let ln = self.links.len();
            let ghost pre = self.links@;
            proof {
                lemma_slot(n, i as int, n + 1);
                lemma_slot(prev@[i as int] as int, i as int, n + 1);
                assert(n * MAX_HEIGHT + i < ln);
            }
            self.links.set(x as usize * MAX_HEIGHT + i, next[i]);
            self.links.set(prev[i] as usize * MAX_HEIGHT + i, x);
            proof {
                assert forall|id: int, l: int| 0 <= id <= n && 0 <= l < MAX_HEIGHT implies #[trigger] slot(self.links@, id, l) == (
                    if l < i + 1 && id == prev@[l] {
                        n
                    } else if l < i + 1 && id == n {
                        next@[l] as int
                    } else if id < n {
                        old(self).link(id, l)
                    } else {
                        0
                    }) by {
                    assert(slot(pre, id, l) == pre[id * MAX_HEIGHT + l] as int);
                    lemma_slot(id, l, n + 1);
                    if id * MAX_HEIGHT + l == n * MAX_HEIGHT + i {
                        lemma_slot_unique(id, l, n, i as int);
                    }
                    if id * MAX_HEIGHT + l == prev@[i as int] * MAX_HEIGHT + i {
                        lemma_slot_unique(id, l, prev@[i as int] as int, i as int);
                    }
                    let a = n * MAX_HEIGHT + i;
                    let b = prev@[i as int] * MAX_HEIGHT + i;
                    assert(a != b);
                    assert(self.links@ == pre.update(a, next@[i as int]).update(b, x));
                    if l == i && id == prev@[l] {
                        assert(slot(self.links@, id, l) == n);
                    } else if l == i && id == n {
                        assert(slot(self.links@, id, l) == next@[l]);
                    } else {
                        assert(id * MAX_HEIGHT + l != a);
                        assert(id * MAX_HEIGHT + l != b);
                        assert(slot(self.links@, id, l) == slot(pre, id, l));
                    }
                }
            }
            i = i + 1;
        }
        proof {
            self.lemma_put_linked(old(self), key@, value@, prev@, next@, h as int, top as int, pos);
        }
        Ok(None)
    }
}


impl<C: KeyComparator> Skiplist<C> {
    /// The node `find_near` lands on: the first node whose key is above `key`
    /// (at or above, with `allow_equal`), or with `less` the last one below
    /// (at or below) it; `None` where there is no such node.
    pub fn find_near(&self, key: &[u8], less: bool, allow_equal: bool) -> (r: Option<&Node>)
        requires
            self.wf(),
        ensures
            ({
                let i = near_index(self.comparator(), self.entries(), key@, less, allow_equal);
                &&& r is Some <==> 0 <= i < self.entries().len()
                &&& r is Some ==> r.unwrap().key@ == self.entries()[i].0 && r.unwrap().value@ == self.entries()[i].1
            }),
    {
        let id = self.find_near_id(key, less, allow_equal);
        proof {
            let i = near_index(self.cmp, self.entries(), key@, less, allow_equal);
            if 0 <= i < self.entries().len() {
                self.lemma_node_at(i);
            }
        }
        if id == 0 {
            None
        } else {
            Some(&self.nodes[id as usize])
        }
    }

    /// The value of the node that `find_near` lands on.
    pub fn find_near_value(&self, key: &[u8], less: bool, allow_equal: bool) -> (r: Option<&Vec<u8>>)
        requires
            self.wf(),
        ensures
            ({
                let i = near_index(self.comparator(), self.entries(), key@, less, allow_equal);
                &&& r is Some <==> 0 <= i < self.entries().len()
                &&& r is Some ==> r.unwrap()@ == self.entries()[i].1
            }),
    {
        match self.find_near(key, less, allow_equal) {
            Some(node) => Some(&node.value),
            None => None,
        }
    }

    /// The value stored under a key equal to `key`.
    pub fn get(&self, key: &[u8]) -> (r: Option<&Vec<u8>>)
        requires
            self.wf(),
        ensures
            r is Some <==> lookup(self.comparator(), self.entries(), key@) is Some,
            r is Some ==> Some(r.unwrap()@) == lookup(self.comparator(), self.entries(), key@),
    {
        let ghost es = self.entries();
        let ghost p = count_lt(self.cmp, es, key@);
        proof {
            lemma_count_lt_char(self.cmp, es, key@);
            if 0 <= p < es.len() {
                self.lemma_node_at(p);
            }
        }
        let id = self.find_near_id(key, false, true);
        if id == 0 {
            return None;
        }
        let node = &self.nodes[id as usize];
        if self.cmp.same_key(node.key.as_slice(), key) {
            Some(&node.value)
        } else {
            None
        }
    }

    /// Whether the list holds no entry.
    pub fn is_empty(&self) -> (r: bool)
        requires
            self.wf(),
        ensures
            r == (self.entries().len() == 0),
    {
        let next = self.link_at(0, 0);
        proof {
            if self.entries().len() > 0 {
                self.lemma_node_at(0);
            }
        }
        next == 0
    }

    /// The number of entries, counted along level 0.
    pub fn len(&self) -> (r: usize)
        requires
            self.wf(),
        ensures
            r == self.entries().len(),
    {
        let mut node: u32 = 0;
        let mut count: usize = 0;
        loop
            invariant
                self.wf(),
                (node as int) < self.nodes@.len(),
                count == self.rank@[node as int] + 1,
            decreases self.nodes@.len() - self.rank@[node as int],
        {
            let next = self.link_at(node, 0);
            if next == 0 {
                proof {
                    if node != 0 {
                        self.lemma_rank(node as int);
                    }
                    if self.rank@[node as int] + 1 < self.entries().len() {
                        self.lemma_node_at(self.rank@[node as int] + 1);
                    }
                }
                return count;
            }
            proof {
                self.lemma_rank(next as int);
                if node != 0 {
                    self.lemma_rank(node as int);
                }
                self.lemma_node_at(self.rank@[node as int] + 1);
                self.arena.lemma_bounds();
            }
            count = count + 1;
            node = next;
        }
    }

    /// The last node, found by walking right on each level from the top down.
    fn find_last(&self) -> (r: u32)
        requires
            self.wf(),
        ensures
            r as int == self.node_at(self.entries().len() - 1),
    {
        let mut node: u32 = 0;
        let mut level: usize = self.height;
        loop
            invariant
                self.wf(),
                (node as int) < self.nodes@.len(),
                level < MAX_HEIGHT,
            decreases level, self.nodes@.len() - self.rank@[node as int],
        {
            let next = self.link_at(node, level);
            if next != 0 {
                node = next;
                continue;
            }
            if level == 0 {
                proof {
                    if node != 0 {
                        self.lemma_rank(node as int);
                    }
                    let r = self.rank@[node as int];
                    if r + 1 < self.entries().len() {
                        self.lemma_node_at(r + 1);
                    }
                    if self.entries().len() > 0 {
                        self.lemma_node_at(self.entries().len() - 1);
                    }
                }
                return node;
            }
            level = level - 1;
        }
    }

    /// The keys met by a walk along `level` from the head; on level 0, every
    /// key in order.
    pub fn level_keys(&self, level: usize) -> (r: Vec<Vec<u8>>)
        requires
            self.wf(),
            level < MAX_HEIGHT,
        ensures
            level == 0 ==> r@.len() == self.entries().len(),
            level == 0 ==> forall|i: int| 0 <= i < r@.len() ==> (#[trigger] r@[i])@ == self.entries()[i].0,
    {
        let mut out: Vec<Vec<u8>> = Vec::new();
        let mut node: u32 = 0;
        loop
            invariant
                self.wf(),
                level < MAX_HEIGHT,
                (node as int) < self.nodes@.len(),
                level == 0 ==> out@.len() == self.rank@[node as int] + 1,
                level == 0 ==> forall|i: int| 0 <= i < out@.len() ==> (#[trigger] out@[i])@ == self.entries()[i].0,
            decreases self.nodes@.len() - self.rank@[node as int],
        {
            let next = self.link_at(node, level);
            if next == 0 {
                proof {
                    if node != 0 {
                        self.lemma_rank(node as int);
                    }
                    if level == 0 && self.rank@[node as int] + 1 < self.entries().len() {
                        self.lemma_node_at(self.rank@[node as int] + 1);
                    }
                }
                return out;
            }
            proof {
                self.lemma_rank(next as int);
                if node != 0 {
                    self.lemma_rank(node as int);
                }
                if level == 0 {
                    self.lemma_node_at(self.rank@[node as int] + 1);
                }
            }
            let k = crate::keys::copy_range(self.nodes[next as usize].key.as_slice(), 0, self.nodes[next as usize].key.len());
            proof {
                assert(self.nodes@[next as int].key@.subrange(0, self.nodes@[next as int].key@.len() as int) =~= self.nodes@[next as int].key@);
            }
            out.push(k);
            node = next;
        }
    }

    /// Arena bytes in use.
    pub fn mem_size(&self) -> (r: u32)
        requires
            self.wf(),
        ensures
            r == self.used(),
    {
        self.arena.len()
    }
}


impl<C: KeyComparator> Skiplist<C> {
    /// An iterator over the list, not yet placed.
    pub fn iter_ref(&self) -> (it: IterRef<'_, C>)
        requires
            self.wf(),
        ensures
            it.wf(),
            it.list() == *self,
            it.index() is None,
    {
        IterRef { list: self, cursor: 0 }
    }

    /// An iterator over the entries that lie within `lower` and `upper`.
    pub fn range_ref(&self, lower: KeyBound, upper: KeyBound) -> (it: RangeRef<'_, C>)
        requires
            self.wf(),
        ensures
            it.wf(),
            it.list() == *self,
            it.lower() == lower@,
            it.upper() == upper@,
            it.head_index() == match lower@ {
                BoundView::Unbounded => self.entries().len() as int,
                _ => range_start(self.comparator(), self.entries(), lower@, upper@),
            },
            it.tail_index() == tail_index(self.comparator(), self.entries(), upper@),
    {
        RangeRef::create(self, lower, upper)
    }

    /// A walk along level 0 meets the keys in strictly increasing order.
    pub proof fn lemma_level0_sorted(&self)
        requires
            self.wf(),
        ensures
            sorted_keys(self.comparator(), self.entries()),
    {
    }

    /// The node at a position of level 0, or `0` at the end, and its rank.
    proof fn lemma_rank_of_node_at(&self, i: int)
        requires
            self.wf(),
            0 <= i <= self.entries().len(),
        ensures
            self.node_at(i) == 0 <==> i == self.entries().len(),
            i < self.entries().len() ==> self.rank@[self.node_at(i)] == i,
            (self.node_at(i) as int) < self.nodes@.len(),
    {
        if i < self.entries().len() {
            self.lemma_node_at(i);
        }
    }
}

/// One end of a key range.
pub enum KeyBound {
    Included(Vec<u8>),
    Excluded(Vec<u8>),
    Unbounded,
}

/// One end of a key range, as a value of specifications.
pub enum BoundView {
    Included(Seq<u8>),
    Excluded(Seq<u8>),
    Unbounded,
}

impl View for KeyBound {
    type V = BoundView;

    open spec fn view(&self) -> BoundView {
        match self {
            KeyBound::Included(k) => BoundView::Included(k@),
            KeyBound::Excluded(k) => BoundView::Excluded(k@),
            KeyBound::Unbounded => BoundView::Unbounded,
        }
    }
}

/// Whether `key` satisfies a lower bound.
pub open spec fn above_lower<C: KeyComparator>(c: C, lower: BoundView, key: Seq<u8>) -> bool {
    match lower {
        BoundView::Included(s) => !c.key_lt(key, s),
        BoundView::Excluded(s) => c.key_lt(s, key),
        BoundView::Unbounded => true,
    }
}

/// Whether `key` satisfies an upper bound.
pub open spec fn below_upper<C: KeyComparator>(c: C, upper: BoundView, key: Seq<u8>) -> bool {
    match upper {
        BoundView::Included(s) => !c.key_lt(s, key),
        BoundView::Excluded(s) => c.key_lt(key, s),
        BoundView::Unbounded => true,
    }
}

/// The position of the first entry that satisfies `lower`.
pub open spec fn head_index<C: KeyComparator>(c: C, es: Entries, lower: BoundView) -> int {
    match lower {
        BoundView::Included(s) => count_lt(c, es, s),
        BoundView::Excluded(s) => count_le(c, es, s),
        BoundView::Unbounded => 0,
    }
}

/// The position of the first entry past `upper`.
pub open spec fn tail_index<C: KeyComparator>(c: C, es: Entries, upper: BoundView) -> int {
    match upper {
        BoundView::Included(s) => count_le(c, es, s),
        BoundView::Excluded(s) => count_lt(c, es, s),
        BoundView::Unbounded => es.len() as int,
    }
}

/// Where a range iteration starts: the first entry within `lower`, but never
/// past the end of the range.
pub open spec fn range_start<C: KeyComparator>(c: C, es: Entries, lower: BoundView, upper: BoundView) -> int {
    let h = head_index(c, es, lower);
    let t = tail_index(c, es, upper);
    if h <= t { h } else { t }
}

/// The entries at positions `range_start..tail_index` of a sorted list are
/// exactly those whose keys satisfy both bounds.
pub proof fn lemma_range_bounds<C: KeyComparator>(c: C, es: Entries, lower: BoundView, upper: BoundView)
    requires
        sorted_keys(c, es),
    ensures
        0 <= range_start(c, es, lower, upper) <= tail_index(c, es, upper) <= es.len(),
        forall|i: int| 0 <= i < es.len() ==> (above_lower(c, lower, #[trigger] es[i].0) && below_upper(c, upper, es[i].0)
            <==> range_start(c, es, lower, upper) <= i < tail_index(c, es, upper)),
{
    match lower {
        BoundView::Included(s) => lemma_count_lt_char(c, es, s),
        BoundView::Excluded(s) => lemma_count_le_char(c, es, s),
        BoundView::Unbounded => {},
    }
    match upper {
        BoundView::Included(s) => lemma_count_le_char(c, es, s),
        BoundView::Excluded(s) => lemma_count_lt_char(c, es, s),
        BoundView::Unbounded => {},
    }
    assert forall|i: int| 0 <= i < es.len() implies (above_lower(c, lower, #[trigger] es[i].0) && below_upper(c, upper, es[i].0)
        <==> range_start(c, es, lower, upper) <= i < tail_index(c, es, upper)) by {
        match lower {
            BoundView::Included(s) => lemma_key_order(c, es[i].0, s),
            BoundView::Excluded(s) => lemma_key_order(c, es[i].0, s),
            BoundView::Unbounded => {},
        }
        match upper {
            BoundView::Included(s) => lemma_key_order(c, es[i].0, s),
            BoundView::Excluded(s) => lemma_key_order(c, es[i].0, s),
            BoundView::Unbounded => {},
        }
    }
}

/// A cursor on the nodes of a list.
pub struct IterRef<'a, C: KeyComparator> {
    list: &'a Skiplist<C>,
    cursor: u32,
}

impl<'a, C: KeyComparator> IterRef<'a, C> {
    pub closed spec fn list(&self) -> Skiplist<C> {
        *self.list
    }

    /// The position of the current entry, or `None` when the cursor is on no node.
    pub closed spec fn index(&self) -> Option<int> {
        if self.cursor == 0 { None } else { Some(self.list.rank@[self.cursor as int]) }
    }

    pub closed spec fn wf(&self) -> bool {
        self.list.wf() && (self.cursor as int) < self.list.nodes@.len()
    }

    /// The list under a well-formed cursor is well-formed.
    pub proof fn lemma_list_wf(&self)
        requires
            self.wf(),
        ensures
            self.list().wf(),
    {
    }

    /// Places the cursor on the node at position `i`, if there is one.
    proof fn lemma_index(&self, i: int)
        requires
            self.wf(),
            0 <= i <= self.list.entries().len(),
            self.cursor as int == self.list.node_at(i),
        ensures
            self.index() == if i < self.list.entries().len() { Some(i) } else { None::<int> },
    {
        self.list.lemma_rank_of_node_at(i);
    }

    pub fn valid(&self) -> (r: bool)
        requires
            self.wf(),
        ensures
            r == self.index() is Some,
    {
        self.cursor != 0
    }

    pub fn key(&self) -> (r: &Vec<u8>)
        requires
            self.wf(),
            self.index() is Some,
        ensures
            0 <= self.index().unwrap() < self.list().entries().len(),
            r@ == self.list().entries()[self.index().unwrap()].0,
    {
        proof {
            self.list.lemma_rank(self.cursor as int);
        }
        &self.list.nodes[self.cursor as usize].key
    }

    pub fn value(&self) -> (r: &Vec<u8>)
        requires
            self.wf(),
            self.index() is Some,
        ensures
            0 <= self.index().unwrap() < self.list().entries().len(),
            r@ == self.list().entries()[self.index().unwrap()].1,
    {
        proof {
            self.list.lemma_rank(self.cursor as int);
        }
        &self.list.nodes[self.cursor as usize].value
    }

    /// Moves to the next entry; past the last one the cursor is on no node.
    pub fn next(&mut self)
        requires
            old(self).wf(),
            old(self).index() is Some,
        ensures
            final(self).wf(),
            final(self).list() == old(self).list(),
            final(self).index() == if old(self).index().unwrap() + 1 < old(self).list().entries().len() {
                Some(old(self).index().unwrap() + 1)
            } else {
                None::<int>
            },
    {
        proof {
            self.list.lemma_rank(self.cursor as int);
        }
        let ghost r = self.list.rank@[self.cursor as int];
        self.cursor = self.list.link_at(self.cursor, 0);
        proof {
            self.lemma_index(r + 1);
        }
    }

    /// Moves to the previous entry, found by a search from the head.
    pub fn prev(&mut self)
        requires
            old(self).wf(),
            old(self).index() is Some,
        ensures
            final(self).wf(),
            final(self).list() == old(self).list(),
            final(self).index() == if old(self).index().unwrap() > 0 {
                Some(old(self).index().unwrap() - 1)
            } else {
                None::<int>
            },
    {
        let ghost l = *self.list;
        let ghost r = l.rank@[self.cursor as int];
        proof {
            l.lemma_rank(self.cursor as int);
            let es = l.entries();
            lemma_key_order(l.cmp, es[r].0, es[r].0);
            if r > 0 {
                assert(l.cmp.key_lt(es[r - 1].0, es[r].0));
            }
            lemma_count_lt_at(l.cmp, es, es[r].0, r);
        }
        let list = self.list;
        let key = list.nodes[self.cursor as usize].key.as_slice();
        self.cursor = list.find_near_id(key, true, false);
        proof {
            if r > 0 {
                self.lemma_index(r - 1);
            }
        }
    }

    /// Moves to the first entry whose key is at or above `target`.
    pub fn seek(&mut self, target: &[u8])
        requires
            old(self).wf(),
        ensures
            final(self).wf(),
            final(self).list() == old(self).list(),
            ({
                let i = count_lt(old(self).list().comparator(), old(self).list().entries(), target@);
                final(self).index() == if i < old(self).list().entries().len() { Some(i) } else { None::<int> }
            }),
    {
        proof {
            lemma_count_lt_char(self.list.cmp, self.list.entries(), target@);
        }
        self.cursor = self.list.find_near_id(target, false, true);
        proof {
            self.lemma_index(count_lt(self.list.cmp, self.list.entries(), target@));
        }
    }

    /// Moves to the last entry whose key is at or below `target`.
    pub fn seek_for_prev(&mut self, target: &[u8])
        requires
            old(self).wf(),
        ensures
            final(self).wf(),
            final(self).list() == old(self).list(),
            ({
                let i = count_le(old(self).list().comparator(), old(self).list().entries(), target@) - 1;
                final(self).index() == if i >= 0 { Some(i) } else { None::<int> }
            }),
    {
        proof {
            lemma_count_le_char(self.list.cmp, self.list.entries(), target@);
        }
        self.cursor = self.list.find_near_id(target, true, true);
        proof {
            let i = count_le(self.list.cmp, self.list.entries(), target@) - 1;
            if i >= 0 {
                self.lemma_index(i);
            }
        }
    }

    /// Moves to the first entry.
    pub fn seek_to_first(&mut self)
        requires
            old(self).wf(),
        ensures
            final(self).wf(),
            final(self).list() == old(self).list(),
            final(self).index() == if old(self).list().entries().len() > 0 { Some(0int) } else { None::<int> },
    {
        self.cursor = self.list.link_at(0, 0);
        proof {
            self.lemma_index(0);
        }
    }

    /// Moves to the last entry.
    pub fn seek_to_last(&mut self)
        requires
            old(self).wf(),
        ensures
            final(self).wf(),
            final(self).list() == old(self).list(),
            ({
                let n = old(self).list().entries().len();
                final(self).index() == if n > 0 { Some(n - 1) } else { None::<int> }
            }),
    {
        self.cursor = self.list.find_last();
        proof {
            let n = self.list.entries().len();
            if n > 0 {
                self.lemma_index(n - 1);
            } else {
                self.list.lemma_rank_of_node_at(0);
            }
        }
    }
}

/// A cursor over the entries of a list that lie within two bounds.
pub struct RangeRef<'a, C: KeyComparator> {
    list: &'a Skiplist<C>,
    head: u32,
    tail: u32,
    start: KeyBound,
    end: KeyBound,
}

impl<'a, C: KeyComparator> RangeRef<'a, C> {
    pub closed spec fn list(&self) -> Skiplist<C> {
        *self.list
    }

    pub closed spec fn lower(&self) -> BoundView {
        self.start@
    }

    pub closed spec fn upper(&self) -> BoundView {
        self.end@
    }

    /// The position of the current entry; the entry count where there is none.
    pub closed spec fn head_index(&self) -> int {
        if self.head == 0 { self.list.entries().len() as int } else { self.list.rank@[self.head as int] }
    }

    /// The position of the first entry past the range; the entry count where
    /// the range runs to the end.
    pub closed spec fn tail_index(&self) -> int {
        if self.tail == 0 { self.list.entries().len() as int } else { self.list.rank@[self.tail as int] }
    }

    pub closed spec fn wf(&self) -> bool {
        &&& self.list.wf()
        &&& (self.head as int) < self.list.nodes@.len()
        &&& (self.tail as int) < self.list.nodes@.len()
        &&& self.tail_index() == tail_index(self.list.cmp, self.list.entries(), self.end@)
        &&& self.head == 0 || self.head_index() <= self.tail_index()
    }

    /// The list under a well-formed range is well-formed, and the range ends
    /// where its upper bound says.
    pub proof fn lemma_wf(&self)
        requires
            self.wf(),
        ensures
            self.list().wf(),
            self.tail_index() == tail_index(self.list().comparator(), self.list().entries(), self.upper()),
    {
    }

    /// The first node within the lower bound, not past the tail.
    fn head_for(list: &Skiplist<C>, start: &KeyBound) -> (r: u32)
        requires
            list.wf(),
        ensures
            r as int == list.node_at(head_index(list.cmp, list.entries(), start@)),
    {
        match start {
            KeyBound::Included(k) => list.find_near_id(k.as_slice(), false, true),
            KeyBound::Excluded(k) => list.find_near_id(k.as_slice(), false, false),
            KeyBound::Unbounded => list.link_at(0, 0),
        }
    }

    /// Builds the cursor: its tail is the first node past `end`, its head the first
    /// node within `start`, never past the tail. An unbounded start leaves the
    /// head on no node until `seek_to_first`.
    pub fn create(list: &'a Skiplist<C>, start: KeyBound, end: KeyBound) -> (it: Self)
        requires
            list.wf(),
        ensures
            it.wf(),
            it.list() == *list,
            it.lower() == start@,
            it.upper() == end@,
            it.head_index() == match start@ {
                BoundView::Unbounded => list.entries().len() as int,
                _ => range_start(list.comparator(), list.entries(), start@, end@),
            },
            it.tail_index() == tail_index(list.comparator(), list.entries(), end@),
    {
        let ghost es = list.entries();
        let ghost c = list.cmp;
        let tail = match &end {
            KeyBound::Included(k) => list.find_near_id(k.as_slice(), false, false),
            KeyBound::Excluded(k) => list.find_near_id(k.as_slice(), false, true),
            KeyBound::Unbounded => 0,
        };
        let ghost t = tail_index(c, es, end@);
        proof {
            match end@ {
                BoundView::Included(s) => lemma_count_le_char(c, es, s),
                BoundView::Excluded(s) => lemma_count_lt_char(c, es, s),
                BoundView::Unbounded => {},
            }
            list.lemma_rank_of_node_at(t);
        }
        let mut it = RangeRef { list, head: 0, tail, start, end };
        match &it.start {
            KeyBound::Unbounded => {},
            _ => {
                it.seek_to_first();
            },
        }
        it
    }

    /// Places the head on the first entry within the lower bound, or on the
    /// tail where that entry lies past it.
    pub fn seek_to_first(&mut self)
        requires
            old(self).wf(),
        ensures
            final(self).wf(),
            final(self).list() == old(self).list(),
            final(self).lower() == old(self).lower(),
            final(self).upper() == old(self).upper(),
            final(self).head_index() == range_start(old(self).list().comparator(), old(self).list().entries(), old(self).lower(), old(self).upper()),
            final(self).tail_index() == old(self).tail_index(),
            final(self).tail_index() == tail_index(old(self).list().comparator(), old(self).list().entries(), old(self).upper()),
    {
        let ghost es = self.list.entries();
        let ghost c = self.list.cmp;
        let ghost h = head_index(c, es, self.start@);
        proof {
            match self.start@ {
                BoundView::Included(s) => lemma_count_lt_char(c, es, s),
                BoundView::Excluded(s) => lemma_count_le_char(c, es, s),
                BoundView::Unbounded => {},
            }
            self.list.lemma_rank_of_node_at(h);
            self.list.lemma_rank_of_node_at(self.tail_index());
        }
        let head = Self::head_for(self.list, &self.start);
        let ahead = if head == 0 {
            true
        } else if self.tail == 0 {
            false
        } else {
            let hk = self.list.nodes[head as usize].key.as_slice();
            let tk = self.list.nodes[self.tail as usize].key.as_slice();
            proof {
                self.list.lemma_rank(head as int);
                self.list.lemma_rank(self.tail as int);
                let rh = self.list.rank@[head as int];
                let rt = self.list.rank@[self.tail as int];
                lemma_key_order(c, es[rh].0, es[rt].0);
                if rh < rt {
                    assert(c.key_lt(es[rh].0, es[rt].0));
                } else if rt < rh {
                    assert(c.key_lt(es[rt].0, es[rh].0));
                }
            }
            match self.list.cmp.compare_key(hk, tk) {
                std::cmp::Ordering::Greater => true,
                _ => false,
            }
        };
        if ahead {
            self.head = self.tail;
        } else {
            self.head = head;
        }
    }

    /// Whether the head is on an entry of the range.
    pub fn valid(&self) -> (r: bool)
        requires
            self.wf(),
        ensures
            r == (self.head_index() < self.tail_index()),
    {
        proof {
            if self.head != 0 {
                self.list.lemma_rank(self.head as int);
            }
            if self.tail != 0 {
                self.list.lemma_rank(self.tail as int);
            }
        }
        self.head != 0 && self.head != self.tail
    }

    pub fn key(&self) -> (r: &Vec<u8>)
        requires
            self.wf(),
            self.head_index() < self.tail_index(),
        ensures
            r@ == self.list().entries()[self.head_index()].0,
    {
        proof {
            if self.head != 0 {
                self.list.lemma_rank(self.head as int);
            }
        }
        &self.list.nodes[self.head as usize].key
    }

    pub fn value(&self) -> (r: &Vec<u8>)
        requires
            self.wf(),
            self.head_index() < self.tail_index(),
        ensures
            r@ == self.list().entries()[self.head_index()].1,
    {
        proof {
            if self.head != 0 {
                self.list.lemma_rank(self.head as int);
            }
        }
        &self.list.nodes[self.head as usize].value
    }

    /// Moves the head to the next entry.
    pub fn next(&mut self)
        requires
            old(self).wf(),
            old(self).head_index() < old(self).tail_index(),
        ensures
            final(self).wf(),
            final(self).list() == old(self).list(),
            final(self).lower() == old(self).lower(),
            final(self).upper() == old(self).upper(),
            final(self).head_index() == old(self).head_index() + 1,
            final(self).tail_index() == old(self).tail_index(),
    {
        proof {
            if self.head != 0 {
                self.list.lemma_rank(self.head as int);
            }
        }
        let ghost r = self.head_index();
        self.head = self.list.link_at(self.head, 0);
        proof {
            self.list.lemma_rank_of_node_at(r + 1);
        }
    }
}

} // verus!
