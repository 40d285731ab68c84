//! The skip list itself: an arena of nodes, a per-level array of head links,
//! and the index of the highest occupied level. Each node carries one
//! key/value pair and one forward link per level it participates in; a node of
//! height `h` participates in exactly the levels `0 .. h`.

use vstd::prelude::*;

verus! {

/// Number of levels in the structure: level indices run from `0` to
/// `MAX_LEVEL - 1`, so no node's height ever exceeds `MAX_LEVEL`.
pub const MAX_LEVEL: usize = 21;

/// Error returned by `insert` when the key is already present. The structure
/// is left unmodified and the stored value is preserved.
#[derive(Debug, PartialEq, Eq)]
pub struct DuplicateKeyError;

/// One key/value pair; immutable once constructed.
pub struct KVPair<V> {
    key: i64,
    value: V,
}

/// One node of the structure: its pair, and one forward link per level it
/// participates in. `nexts[l]` is the next node on level `l`, or `None` at the
/// end of that level's chain. A link is an index into the owning list's arena.
pub struct Node<V> {
    elem: KVPair<V>,
    nexts: Vec<Option<usize>>,
}

/// The skip list. `heads[l]` is the first node on level `l` (or `None` when no
/// node reaches that level); `top_level` is the highest occupied level index,
/// or `None` when the structure is empty. All nodes are owned by `nodes`.
pub struct Skiplist<V> {
    nodes: Vec<Node<V>>,
    heads: Vec<Option<usize>>,
    top_level: Option<usize>,
}

impl<V> KVPair<V> {
    /// The pair's key.
    pub closed spec fn spec_key(self) -> i64 {
        self.key
    }

    /// The pair's value.
    pub closed spec fn spec_value(self) -> V {
        self.value
    }
}

impl<V: Copy> KVPair<V> {
    pub fn new(key: i64, value: V) -> (p: Self)
        ensures
            p.spec_key() == key,
            p.spec_value() == value,
    {
        KVPair { key, value }
    }

    pub fn greater(&self, other: &KVPair<V>) -> (r: bool)
        ensures
            r == (self.spec_key() > other.spec_key()),
    {
        self.key > other.key
    }
}

impl<V> Node<V> {
    /// The node's key/value pair.
    pub closed spec fn spec_elem(self) -> KVPair<V> {
        self.elem
    }

    /// The node's forward links; their number is the node's height.
    pub closed spec fn spec_nexts(self) -> Seq<Option<usize>> {
        self.nexts@
    }
}

impl<V: Copy> Node<V> {
    /// A fresh, unlinked node of height `height`: every forward link is `None`
    /// until the node is spliced into a list.
    pub fn new(elem: KVPair<V>, height: usize) -> (n: Self)
        ensures
            n.spec_elem() == elem,
            n.spec_nexts().len() == height,
            forall|l: int| 0 <= l < height ==> n.spec_nexts()[l] is None,
    {
        let mut nexts: Vec<Option<usize>> = Vec::new();
        let mut l: usize = 0;
        while l < height
            invariant
                l <= height,
                nexts@.len() == l,
                forall|j: int| 0 <= j < l ==> nexts@[j] is None,
            decreases height - l,
        {
            nexts.push(None);
            l = l + 1;
        }
        Node { elem, nexts }
    }
}

impl<V> Skiplist<V> {
    /// Number of nodes the structure holds.
    pub closed spec fn node_count(self) -> int {
        self.nodes@.len() as int
    }

    /// Height of node `i`: the number of levels it participates in.
    pub closed spec fn node_height(self, i: int) -> int {
        self.nodes@[i].nexts@.len() as int
    }

    /// Key of node `i`.
    pub closed spec fn node_key(self, i: int) -> i64 {
        self.nodes@[i].elem.key
    }

    /// Value of node `i`.
    pub closed spec fn node_value(self, i: int) -> V {
        self.nodes@[i].elem.value
    }

    /// Node `i` participates in level `l`.
    pub closed spec fn on_level(self, l: int, i: int) -> bool {
        0 <= i < self.node_count() && 0 <= l < self.node_height(i)
    }

    /// Some key in the structure equals `k` at level `l`.
    pub closed spec fn key_on_level(self, l: int, k: i64) -> bool {
        exists|i: int| self.on_level(l, i) && self.node_key(i) == k
    }

    /// Key `k` participates in exactly the levels `0 ..= lv`: it is present on
    /// each of them and on no level above — its node has height `lv + 1`.
    pub open spec fn key_on_levels_up_to(self, k: i64, lv: int) -> bool {
        &&& forall|l: int| 0 <= l <= lv ==> self.key_on_level(l, k)
        &&& forall|l: int| lv < l ==> !self.key_on_level(l, k)
    }

    /// The forward link of node `i` at level `l`.
    spec fn link_of(self, l: int, i: int) -> Option<usize> {
        self.nodes@[i].nexts@[l]
    }

    /// The head link of level `l`.
    spec fn head_of(self, l: int) -> Option<usize> {
        self.heads@[l]
    }

    /// There is one head link per level.
    spec fn heads_len_ok(self) -> bool {
        self.heads@.len() == MAX_LEVEL
    }

    /// Every node has at least one level and at most `MAX_LEVEL`.
    spec fn heights_ok(self) -> bool {
        forall|i: int|
            0 <= i < self.node_count() ==> 1 <= #[trigger] self.node_height(i) <= MAX_LEVEL
    }

    /// At most one node per key.
    spec fn keys_unique(self) -> bool {
        forall|i: int, j: int|
            0 <= i < self.node_count() && 0 <= j < self.node_count() && i != j ==> #[trigger] self.node_key(
                i,
            ) != #[trigger] self.node_key(j)
    }

    /// `heads[l]` points at the level-`l` member with the least key, or is
    /// `None` exactly when no node reaches level `l`.
    spec fn head_ok(self, l: int) -> bool {
        match self.head_of(l) {
            Option::Some(h) => self.on_level(l, h as int) && forall|m: int|
                #[trigger] self.on_level(l, m) ==> self.node_key(h as int) <= self.node_key(m),
            Option::None => forall|m: int| !self.on_level(l, m),
        }
    }

    /// The link of node `i` at level `l` points at the level-`l` member with
    /// the least key above node `i`'s, or is `None` exactly when node `i` has
    /// the greatest key on the level.
    spec fn link_ok(self, l: int, i: int) -> bool {
        match self.link_of(l, i) {
            Option::Some(j) => self.on_level(l, j as int) && self.node_key(i) < self.node_key(
                j as int,
            ) && forall|m: int|
                #[trigger] self.on_level(l, m) && self.node_key(i) < self.node_key(m)
                    ==> self.node_key(j as int) <= self.node_key(m),
            Option::None => forall|m: int|
                #[trigger] self.on_level(l, m) ==> self.node_key(m) <= self.node_key(i),
        }
    }

    /// Every link of every node is correct for its level.
    spec fn links_ok(self) -> bool {
        forall|l: int, i: int| #[trigger] self.on_level(l, i) ==> self.link_ok(l, i)
    }

    /// `top_level` is the highest occupied level index, or `None` exactly when
    /// the structure is empty.
    spec fn top_ok(self) -> bool {
        match self.top_level {
            Option::Some(t) => t < MAX_LEVEL && (exists|i: int| self.on_level(t as int, i))
                && forall|i: int|
                0 <= i < self.node_count() ==> #[trigger] self.node_height(i) <= t as int + 1,
            Option::None => self.node_count() == 0,
        }
    }

    /// Well-formedness: the representation invariant that every operation
    /// preserves. It pins down the whole link topology: per-level ordering,
    /// head correctness, `top_level` correctness, and key uniqueness.
    pub closed spec fn wf(self) -> bool {
        &&& self.heads_len_ok()
        &&& self.heights_ok()
        &&& self.keys_unique()
        &&& forall|l: int| 0 <= l < MAX_LEVEL ==> #[trigger] self.head_ok(l)
        &&& self.links_ok()
        &&& self.top_ok()
    }

    /// Some node holds key `k`.
    pub closed spec fn has_key(self, k: i64) -> bool {
        exists|i: int| 0 <= i < self.node_count() && #[trigger] self.node_key(i) == k
    }

    /// The index of the node holding key `k` (meaningful when `has_key(k)` and
    /// keys are unique).
    spec fn index_for(self, k: i64) -> int {
        choose|i: int| 0 <= i < self.node_count() && #[trigger] self.node_key(i) == k
    }

    /// The structure seen as a mathematical map from keys to values.
    pub closed spec fn as_map(self) -> Map<i64, V> {
        Map::new(|k: i64| self.has_key(k), |k: i64| self.node_value(self.index_for(k)))
    }

    /// `f` is the correct splice position at level `l` for key `k`: the
    /// level-`l` member with the greatest key `<= k`, or `None` when every
    /// member of the level has a key above `k`.
    spec fn frame_ok(self, k: i64, l: int, f: Option<usize>) -> bool {
        match f {
            Option::Some(p) => self.on_level(l, p as int) && self.node_key(p as int) <= k
                && forall|m: int|
                #[trigger] self.on_level(l, m) && self.node_key(m) <= k ==> self.node_key(m)
                    <= self.node_key(p as int),
            Option::None => forall|m: int| #[trigger] self.on_level(l, m) ==> self.node_key(m) > k,
        }
    }
}

/// The map a run of insertions builds, earlier pairs first: what a structure
/// represents after `insert(keys[0], vals[0])`, ..., each call succeeding.
pub open spec fn inserted_map<V>(keys: Seq<i64>, vals: Seq<V>) -> Map<i64, V>
    decreases keys.len(),
{
    if keys.len() == 0 {
        Map::empty()
    } else {
        inserted_map(keys.drop_last(), vals.drop_last()).insert(keys.last(), vals.last())
    }
}

/// Round-trip law: after inserting distinct keys `keys[0], .., keys[n-1]` with
/// values `vals[0], .., vals[n-1]` into an empty structure, the map it
/// represents holds exactly those bindings — each inserted key yields its own
/// value, and every key outside the sequence is absent.
pub proof fn lemma_insert_round_trip<V>(keys: Seq<i64>, vals: Seq<V>)
    requires
        keys.len() == vals.len(),
        forall|a: int, b: int| 0 <= a < b < keys.len() ==> keys[a] != keys[b],
    ensures
        forall|a: int|
            0 <= a < keys.len() ==> inserted_map(keys, vals).contains_key(#[trigger] keys[a])
                && inserted_map(keys, vals)[keys[a]] == vals[a],
        forall|k: i64| !keys.contains(k) ==> !inserted_map(keys, vals).contains_key(k),
    decreases keys.len(),
{
    if keys.len() > 0 {
        lemma_insert_round_trip::<V>(keys.drop_last(), vals.drop_last());
        assert forall|a: int|
            0 <= a < keys.len() implies inserted_map(keys, vals).contains_key(#[trigger] keys[a])
            && inserted_map(keys, vals)[keys[a]] == vals[a] by {
            if a < keys.len() - 1 {
                assert(keys.drop_last()[a] == keys[a]);
                assert(vals.drop_last()[a] == vals[a]);
                assert(keys[a] != keys[keys.len() - 1]);
            }
        }
        assert forall|k: i64| !keys.contains(k) implies !inserted_map(keys, vals).contains_key(
            k,
        ) by {
            assert(!keys.drop_last().contains(k)) by {
                if keys.drop_last().contains(k) {
                    let a = choose|a: int|
                        0 <= a < keys.drop_last().len() && keys.drop_last()[a] == k;
                    assert(keys[a] == k);
                    assert(keys.contains(k));
                }
            }
            assert(k != keys.last()) by {
                if k == keys.last() {
                    assert(keys[keys.len() - 1] == k);
                    assert(keys.contains(k));
                }
            }
        }
    }
}

impl<V> View for Skiplist<V> {
    type V = Map<i64, V>;

    open spec fn view(&self) -> Map<i64, V> {
        self.as_map()
    }
}

impl<V> Skiplist<V> {
    /// The link a node spliced in at level `l` behind the frame position `f`
    /// must take over: the link out of `f`, or the head link when the new node
    /// becomes the first of the level.
    spec fn splice_target(self, f: Option<usize>, l: int) -> Option<usize> {
        match f {
            Option::Some(p) => self.link_of(l, p as int),
            Option::None => self.head_of(l),
        }
    }

    /// Decreasing measure for a horizontal advance along one level: every step
    /// moves to a node with a strictly greater key.
    spec fn advance_measure(self, cur: Option<usize>) -> int {
        match cur {
            Option::None => 2 + i64::MAX - i64::MIN,
            Option::Some(c) => 1 + i64::MAX - self.node_key(c as int),
        }
    }

    /// Decreasing measure for walking one whole level chain: past the end it
    /// is spent.
    spec fn walk_measure(self, cur: Option<usize>) -> int {
        match cur {
            Option::None => 0,
            Option::Some(c) => 1 + i64::MAX - self.node_key(c as int),
        }
    }

    /// Height-bound law: in a well-formed structure — and every operation
    /// keeps the structure well-formed — every node participates in at least
    /// one level and its height never exceeds `MAX_LEVEL`.
    pub proof fn lemma_height_bound(self)
        requires
            self.wf(),
        ensures
            forall|i: int|
                0 <= i < self.node_count() ==> 1 <= #[trigger] self.node_height(i) <= MAX_LEVEL,
    {
    }

    /// Level-containment law: a node participating in level `l` participates
    /// in every level below it; its set of levels is the contiguous prefix
    /// `[0, height)`.
    pub proof fn lemma_level_containment(self, l: int, l2: int, i: int)
        requires
            self.on_level(l, i),
            0 <= l2 <= l,
        ensures
            self.on_level(l2, i),
    {
    }

    /// The level-0 chain is complete: it holds exactly the keys of the map the
    /// structure represents.
    pub proof fn lemma_level_zero_complete(self)
        requires
            self.wf(),
        ensures
            forall|k: i64|
                #![trigger self.key_on_level(0, k)]
                #![trigger self@.contains_key(k)]
                self.key_on_level(0, k) <==> self@.contains_key(k),
    {
        assert forall|k: i64| self.key_on_level(0, k) implies self@.contains_key(k) by {
            let m = choose|m: int| self.on_level(0, m) && self.node_key(m) == k;
            assert(0 <= m < self.node_count() && self.node_key(m) == k);
            assert(self.has_key(k));
        }
        assert forall|k: i64| #[trigger] self@.contains_key(k) implies self.key_on_level(0, k) by {
            let m = choose|m: int| 0 <= m < self.node_count() && #[trigger] self.node_key(m) == k;
            assert(self.node_height(m) >= 1);
            assert(self.on_level(0, m) && self.node_key(m) == k);
        }
    }

    /// Empty-structure law: a lookup in the empty map finds nothing, so a
    /// freshly built structure answers every `get` with `None`.
    pub proof fn lemma_empty_absent(k: i64)
        ensures
            !Map::<i64, V>::empty().contains_key(k),
    {
    }

    /// The splice step preserves well-formedness and adds exactly one binding:
    /// `self` is `s0` with one node of the fresh key `key` appended and linked
    /// into each of its `level + 1` levels at the position `fr` records.
    #[verifier::rlimit(100)]
    proof fn lemma_splice_wf(
        self,
        s0: Self,
        fr: Seq<Option<usize>>,
        key: i64,
        value: V,
        level: usize,
        ni: usize,
    )
        requires
            s0.wf(),
            !s0.has_key(key),
            level < MAX_LEVEL,
            fr.len() == MAX_LEVEL,
            forall|j: int| 0 <= j < MAX_LEVEL ==> s0.frame_ok(key, j, #[trigger] fr[j]),
            ni as int == s0.node_count(),
            self.nodes@.len() == s0.nodes@.len() + 1,
            self.heads@.len() == MAX_LEVEL,
            self.node_key(ni as int) == key,
            self.node_value(ni as int) == value,
            self.node_height(ni as int) == level + 1,
            forall|i: int|
                0 <= i < ni as int ==> #[trigger] self.node_key(i) == s0.node_key(i),
            forall|i: int|
                0 <= i < ni as int ==> #[trigger] self.node_value(i) == s0.node_value(i),
            forall|i: int|
                0 <= i < ni as int ==> #[trigger] self.node_height(i) == s0.node_height(i),
            forall|j: int|
                0 <= j < level + 1 ==> #[trigger] self.link_of(j, ni as int) == s0.splice_target(
                    fr[j],
                    j,
                ),
            forall|j: int| level + 1 <= j < MAX_LEVEL ==> #[trigger] self.heads@[j] == s0.heads@[j],
            forall|j: int, i: int|
                level + 1 <= j && 0 <= i < ni as int && s0.on_level(j, i)
                    ==> #[trigger] self.link_of(j, i) == s0.link_of(j, i),
            forall|j: int|
                #![trigger fr[j]]
                0 <= j < level + 1 ==> match fr[j] {
                    Option::Some(p) => self.link_of(j, p as int) == Option::Some(ni)
                        && self.heads@[j] == s0.heads@[j],
                    Option::None => self.heads@[j] == Option::Some(ni),
                },
            forall|j: int, i: int|
                0 <= j < level + 1 && 0 <= i < ni as int && s0.on_level(j, i) && (match fr[j] {
                    Option::Some(p) => p as int != i,
                    Option::None => true,
                }) ==> #[trigger] self.link_of(j, i) == s0.link_of(j, i),
            self.top_level == (match s0.top_level {
                Option::Some(t0) => if t0 < level {
                    Option::Some(level)
                } else {
                    Option::Some(t0)
                },
                Option::None => Option::Some(level),
            }),
        ensures
            self.wf(),
            self.as_map() == s0.as_map().insert(key, value),
            self.key_on_levels_up_to(key, level as int),
            forall|l: int, k2: i64|
                #![trigger self.key_on_level(l, k2)]
                #![trigger s0.key_on_level(l, k2)]
                k2 != key ==> (self.key_on_level(l, k2) <==> s0.key_on_level(l, k2)),
    {
        let n = ni as int;
        let ht = level as int + 1;

        // how membership at each level changed: the new node joins its levels,
        // every old node keeps exactly the levels it had
        assert forall|j: int, i: int| #[trigger] self.on_level(j, i) && i != n implies 0 <= i < n
            && s0.on_level(j, i) by {
            assert(self.node_height(i) == s0.node_height(i));
        }
        assert forall|j: int, i: int| 0 <= i < n && #[trigger] s0.on_level(j, i) implies self.on_level(
            j,
            i,
        ) by {
            assert(self.node_height(i) == s0.node_height(i));
        }
        assert(forall|j: int| 0 <= j < ht ==> self.on_level(j, n));
        assert(forall|j: int| ht <= j ==> !self.on_level(j, n));
        assert forall|i: int| 0 <= i < n implies #[trigger] s0.node_key(i) != key by {
            if s0.node_key(i) == key {
                assert(s0.has_key(key));
            }
        }

        assert forall|i: int|
            0 <= i < self.node_count() implies 1 <= #[trigger] self.node_height(i)
            <= MAX_LEVEL by {
            if i < n {
                assert(1 <= s0.node_height(i) <= MAX_LEVEL);
            }
        }

        assert forall|i: int, j: int|
            0 <= i < self.node_count() && 0 <= j < self.node_count() && i != j implies #[trigger] self.node_key(
            i,
        ) != #[trigger] self.node_key(j) by {
            if i < n && j < n {
                assert(s0.node_key(i) != s0.node_key(j));
            }
        }

        assert forall|lv: int| 0 <= lv < MAX_LEVEL implies #[trigger] self.head_ok(lv) by {
            assert(s0.head_ok(lv));
            assert(s0.frame_ok(key, lv, fr[lv]));
            if lv < ht {
                match fr[lv] {
                    Option::Some(p) => {
                        assert(s0.on_level(lv, p as int));
                        match s0.head_of(lv) {
                            Option::Some(h) => {
                                assert(self.head_of(lv) == Option::Some(h));
                                assert(self.on_level(lv, h as int));
                                assert forall|m: int| #[trigger] self.on_level(lv, m) implies self.node_key(
                                    h as int,
                                ) <= self.node_key(m) by {
                                    if m == n {
                                        assert(s0.node_key(h as int) <= s0.node_key(p as int));
                                    } else {
                                        assert(s0.on_level(lv, m));
                                    }
                                }
                            },
                            Option::None => {
                                assert(!s0.on_level(lv, p as int));
                            },
                        }
                    },
                    Option::None => {
                        assert(self.head_of(lv) == Option::Some(ni));
                        assert(self.on_level(lv, n));
                        assert forall|m: int| #[trigger] self.on_level(lv, m) implies self.node_key(
                            n,
                        ) <= self.node_key(m) by {
                            if m != n {
                                assert(s0.on_level(lv, m));
                                assert(s0.node_key(m) > key);
                            }
                        }
                    },
                }
            } else {
                assert(self.head_of(lv) == s0.head_of(lv));
                match s0.head_of(lv) {
                    Option::Some(h) => {
                        assert(self.on_level(lv, h as int));
                        assert forall|m: int| #[trigger] self.on_level(lv, m) implies self.node_key(
                            h as int,
                        ) <= self.node_key(m) by {
                            assert(m != n);
                            assert(s0.on_level(lv, m));
                        }
                    },
                    Option::None => {
                        assert forall|m: int| !(#[trigger] self.on_level(lv, m)) by {
                            if self.on_level(lv, m) {
                                if m == n {
                                    assert(false);
                                } else {
                                    assert(s0.on_level(lv, m));
                                    assert(false);
                                }
                            }
                        }
                    },
                }
            }
        }

        assert forall|lv: int, i: int| #[trigger] self.on_level(lv, i) implies self.link_ok(
            lv,
            i,
        ) by {
            assert(s0.frame_ok(key, lv, fr[lv]));
            if i == n {
                assert(0 <= lv < ht);
                assert(self.link_of(lv, n) == s0.splice_target(fr[lv], lv));
                match fr[lv] {
                    Option::Some(p) => {
                        assert(s0.on_level(lv, p as int));
                        assert(s0.link_ok(lv, p as int));
                        match s0.link_of(lv, p as int) {
                            Option::Some(q) => {
                                assert(s0.on_level(lv, q as int));
                                assert(s0.node_key(p as int) < s0.node_key(q as int));
                                if s0.node_key(q as int) <= key {
                                    assert(s0.node_key(q as int) <= s0.node_key(p as int));
                                    assert(false);
                                }
                                assert(self.on_level(lv, q as int));
                                assert forall|m: int|
                                    #[trigger] self.on_level(lv, m) && self.node_key(n)
                                        < self.node_key(m) implies self.node_key(q as int)
                                    <= self.node_key(m) by {
                                    if m != n {
                                        assert(s0.on_level(lv, m));
                                        assert(s0.node_key(p as int) <= key);
                                        assert(s0.node_key(p as int) < s0.node_key(m));
                                    }
                                }
                            },
                            Option::None => {
                                assert forall|m: int| #[trigger] self.on_level(lv, m) implies self.node_key(
                                    m,
                                ) <= self.node_key(n) by {
                                    if m != n {
                                        assert(s0.on_level(lv, m));
                                        assert(s0.node_key(m) <= s0.node_key(p as int));
                                    }
                                }
                            },
                        }
                    },
                    Option::None => {
                        assert(s0.head_ok(lv));
                        match s0.head_of(lv) {
                            Option::Some(h) => {
                                assert(s0.on_level(lv, h as int));
                                assert(s0.node_key(h as int) > key);
                                assert(self.on_level(lv, h as int));
                                assert forall|m: int|
                                    #[trigger] self.on_level(lv, m) && self.node_key(n)
                                        < self.node_key(m) implies self.node_key(h as int)
                                    <= self.node_key(m) by {
                                    if m != n {
                                        assert(s0.on_level(lv, m));
                                    }
                                }
                            },
                            Option::None => {
                                assert forall|m: int| #[trigger] self.on_level(lv, m) implies self.node_key(
                                    m,
                                ) <= self.node_key(n) by {
                                    if m != n {
                                        assert(s0.on_level(lv, m));
                                        assert(false);
                                    }
                                }
                            },
                        }
                    },
                }
            } else {
                assert(0 <= i < n && s0.on_level(lv, i));
                assert(s0.link_ok(lv, i));
                let patched = lv < ht && (match fr[lv] {
                    Option::Some(p) => p as int == i,
                    Option::None => false,
                });
                if patched {
                    assert(self.link_of(lv, i) == Option::Some(ni));
                    assert(s0.node_key(i) <= key);
                    assert(self.node_key(i) < self.node_key(n));
                    assert forall|m: int|
                        #[trigger] self.on_level(lv, m) && self.node_key(i) < self.node_key(
                            m,
                        ) implies self.node_key(n) <= self.node_key(m) by {
                        if m != n {
                            assert(s0.on_level(lv, m));
                            if s0.node_key(m) <= key {
                                assert(s0.node_key(m) <= s0.node_key(i));
                                assert(false);
                            }
                        }
                    }
                } else {
                    assert(self.link_of(lv, i) == s0.link_of(lv, i));
                    match s0.link_of(lv, i) {
                        Option::Some(q) => {
                            assert(s0.on_level(lv, q as int));
                            assert(self.on_level(lv, q as int));
                            assert(self.node_key(i) < self.node_key(q as int));
                            assert forall|m: int|
                                #[trigger] self.on_level(lv, m) && self.node_key(i)
                                    < self.node_key(m) implies self.node_key(q as int)
                                <= self.node_key(m) by {
                                if m == n {
                                    assert(0 <= lv < ht);
                                    match fr[lv] {
                                        Option::Some(p) => {
                                            assert(p as int != i);
                                            assert(s0.on_level(lv, p as int));
                                            assert(s0.node_key(i) <= key);
                                            assert(s0.node_key(i) <= s0.node_key(p as int));
                                            assert(s0.node_key(i) != s0.node_key(p as int));
                                            assert(s0.node_key(q as int) <= s0.node_key(p as int));
                                            assert(s0.node_key(p as int) <= key);
                                        },
                                        Option::None => {
                                            assert(s0.node_key(i) > key);
                                            assert(false);
                                        },
                                    }
                                } else {
                                    assert(s0.on_level(lv, m));
                                }
                            }
                        },
                        Option::None => {
                            assert forall|m: int| #[trigger] self.on_level(lv, m) implies self.node_key(
                                m,
                            ) <= self.node_key(i) by {
                                if m == n {
                                    assert(0 <= lv < ht);
                                    match fr[lv] {
                                        Option::Some(p) => {
                                            assert(p as int != i);
                                            assert(s0.on_level(lv, p as int));
                                            assert(s0.node_key(p as int) <= s0.node_key(i));
                                            if key > s0.node_key(i) {
                                                assert(s0.node_key(i) <= s0.node_key(p as int));
                                                assert(s0.node_key(i) == s0.node_key(p as int));
                                                assert(false);
                                            }
                                        },
                                        Option::None => {
                                            assert(s0.node_key(i) > key);
                                        },
                                    }
                                } else {
                                    assert(s0.on_level(lv, m));
                                }
                            }
                        },
                    }
                }
            }
        }

        assert(self.top_ok()) by {
            match (s0.top_level, self.top_level) {
                (Option::Some(t0), Option::Some(t)) => {
                    assert(t == if t0 < level {
                        level
                    } else {
                        t0
                    });
                    if t0 < level {
                        assert(self.on_level(t as int, n));
                    } else {
                        let wi = choose|i: int| s0.on_level(t0 as int, i);
                        assert(s0.on_level(t0 as int, wi));
                        assert(self.on_level(t as int, wi));
                    }
                    assert(t < MAX_LEVEL);
                    assert forall|i: int|
                        0 <= i < self.node_count() implies #[trigger] self.node_height(i)
                        <= t as int + 1 by {
                        if i < n {
                            assert(s0.node_height(i) <= t0 as int + 1);
                        } else {
                            assert(self.node_height(i) == ht);
                        }
                    }
                },
                (Option::None, Option::Some(t)) => {
                    assert(t == level);
                    assert(self.on_level(t as int, n));
                    assert(s0.node_count() == 0);
                    assert forall|i: int|
                        0 <= i < self.node_count() implies #[trigger] self.node_height(i)
                        <= t as int + 1 by {
                        assert(i == n);
                    }
                },
                _ => {
                    assert(false);
                },
            }
        }

        assert(self.wf());

        // the abstract view gained exactly the one binding
        assert forall|k: i64| #[trigger] self.has_key(k) implies s0.has_key(k) || k == key by {
            let w = choose|i2: int|
                0 <= i2 < self.node_count() && #[trigger] self.node_key(i2) == k;
            if w != n {
                assert(s0.node_key(w) == k);
                assert(s0.has_key(k));
            }
        }
        assert forall|k: i64| #[trigger] s0.has_key(k) implies self.has_key(k) by {
            let w = choose|i2: int| 0 <= i2 < s0.node_count() && #[trigger] s0.node_key(i2) == k;
            assert(self.node_key(w) == k);
        }
        assert(self.has_key(key));

        assert forall|k: i64| #[trigger] self.as_map().dom().contains(k) implies self.as_map()[k]
            == s0.as_map().insert(key, value)[k] by {
            assert(self.has_key(k));
            let w = self.index_for(k);
            assert(0 <= w < self.node_count() && self.node_key(w) == k);
            if k == key {
                if w != n {
                    assert(s0.node_key(w) == key);
                    assert(false);
                }
                assert(self.as_map()[k] == self.node_value(w));
            } else {
                assert(w != n);
                assert(s0.node_key(w) == k);
                assert(s0.has_key(k));
                let w0 = s0.index_for(k);
                assert(0 <= w0 < s0.node_count() && s0.node_key(w0) == k);
                assert(self.node_key(w0) == k);
                assert(w0 == w);
                assert(self.as_map()[k] == self.node_value(w));
                assert(s0.as_map()[k] == s0.node_value(w0));
            }
        }
        assert(self.as_map() =~= s0.as_map().insert(key, value));

        // the new key occupies exactly the levels 0 ..= level ...
        assert forall|l: int| 0 <= l <= level implies self.key_on_level(l, key) by {
            assert(self.on_level(l, n) && self.node_key(n) == key);
        }
        assert forall|l: int| level < l implies !self.key_on_level(l, key) by {
            if self.key_on_level(l, key) {
                let i = choose|i: int| self.on_level(l, i) && self.node_key(i) == key;
                if i == n {
                    assert(!self.on_level(l, n));
                } else {
                    assert(0 <= i < n && s0.on_level(l, i));
                    assert(self.node_key(i) == s0.node_key(i));
                    assert(s0.node_key(i) != key);
                }
                assert(false);
            }
        }
        // ... and every other key keeps exactly the levels it had
        assert forall|l: int, k2: i64| k2 != key implies (self.key_on_level(l, k2)
            <==> s0.key_on_level(l, k2)) by {
            if self.key_on_level(l, k2) {
                let i = choose|i: int| self.on_level(l, i) && self.node_key(i) == k2;
                assert(i != n);
                assert(0 <= i < n && s0.on_level(l, i));
                assert(s0.node_key(i) == k2);
                assert(s0.key_on_level(l, k2));
            }
            if s0.key_on_level(l, k2) {
                let i = choose|i: int| s0.on_level(l, i) && s0.node_key(i) == k2;
                assert(self.on_level(l, i));
                assert(self.node_key(i) == k2);
                assert(self.key_on_level(l, k2));
            }
        }
    }
}

impl<V: Copy> Skiplist<V> {
    /// The shared top-down search. Returns the node with the greatest key
    /// `<= key` (or `None` when every stored key is greater), together with
    /// the per-level predecessor frame: for each level, the member with the
    /// greatest key `<= key`, which is exactly the splice point insertion
    /// needs. Scanning starts at the top occupied level and, when it descends,
    /// continues from the position it reached rather than from the head.
    fn locate(&self, key: i64) -> (r: (Option<usize>, Vec<Option<usize>>))
        requires
            self.wf(),
        ensures
            r.1@.len() == MAX_LEVEL,
            forall|l: int| 0 <= l < MAX_LEVEL ==> self.frame_ok(key, l, #[trigger] r.1@[l]),
            r.0 == r.1@[0],
    {
        let mut frame: Vec<Option<usize>> = Vec::new();
        let mut i: usize = 0;
        while i < MAX_LEVEL
            invariant
                i <= MAX_LEVEL,
                frame@.len() == i,
                forall|j: int| 0 <= j < i ==> frame@[j] is None,
            decreases MAX_LEVEL - i,
        {
            frame.push(None);
            i = i + 1;
        }
        let top: usize = match self.top_level {
            Option::Some(t) => t,
            Option::None => {
                proof {
                    assert forall|l: int| 0 <= l < MAX_LEVEL implies self.frame_ok(
                        key,
                        l,
                        #[trigger] frame@[l],
                    ) by {
                        assert(self.node_count() == 0);
                    }
                }
                return (None, frame);
            },
        };
        proof {
            assert forall|l: int| top < l < MAX_LEVEL implies self.frame_ok(
                key,
                l,
                #[trigger] frame@[l],
            ) by {
                assert forall|m: int| self.on_level(l, m) implies self.node_key(m) > key by {
                    assert(self.node_height(m) <= top + 1);
                    assert(false);
                }
            }
        }
        let mut level: usize = top;
        let mut cur: Option<usize> = None;
        loop
            invariant_except_break
                self.wf(),
                level <= top < MAX_LEVEL,
                frame@.len() == MAX_LEVEL,
                forall|l: int| level < l < MAX_LEVEL ==> self.frame_ok(key, l, #[trigger] frame@[l]),
                match cur {
                    Option::Some(c) => self.on_level(level as int, c as int) && self.node_key(
                        c as int,
                    ) <= key,
                    Option::None => true,
                },
            ensures
                frame@.len() == MAX_LEVEL,
                forall|l: int| 0 <= l < MAX_LEVEL ==> self.frame_ok(key, l, #[trigger] frame@[l]),
                cur == frame@[0],
            decreases level,
        {
            loop
                invariant
                    self.wf(),
                    level < MAX_LEVEL,
                    match cur {
                        Option::Some(c) => self.on_level(level as int, c as int) && self.node_key(
                            c as int,
                        ) <= key,
                        Option::None => true,
                    },
                ensures
                    self.frame_ok(key, level as int, cur),
                    match cur {
                        Option::Some(c) => self.on_level(level as int, c as int) && self.node_key(
                            c as int,
                        ) <= key,
                        Option::None => true,
                    },
                decreases self.advance_measure(cur),
            {
                let nxt: Option<usize> = match cur {
                    Option::Some(c) => self.nodes[c].nexts[level],
                    Option::None => self.heads[level],
                };
                proof {
                    match cur {
                        Option::Some(c) => {
                            assert(self.link_ok(level as int, c as int));
                        },
                        Option::None => {
                            assert(self.head_ok(level as int));
                        },
                    }
                }
                match nxt {
                    Option::Some(j) => {
                        if self.nodes[j].elem.key <= key {
                            cur = Some(j);
                        } else {
                            proof {
                                match cur {
                                    Option::Some(c) => {
                                        assert(self.link_ok(level as int, c as int));
                                        assert forall|m: int|
                                            #[trigger] self.on_level(level as int, m)
                                                && self.node_key(m) <= key implies self.node_key(m)
                                            <= self.node_key(c as int) by {
                                            if self.node_key(c as int) < self.node_key(m) {
                                                assert(self.node_key(j as int) <= self.node_key(m));
                                            }
                                        }
                                    },
                                    Option::None => {
                                        assert(self.head_ok(level as int));
                                    },
                                }
                            }
                            break;
                        }
                    },
                    Option::None => {
                        proof {
                            match cur {
                                Option::Some(c) => {
                                    assert(self.link_ok(level as int, c as int));
                                },
                                Option::None => {
                                    assert(self.head_ok(level as int));
                                },
                            }
                        }
                        break;
                    },
                }
            }
            frame[level] = cur;
            if level == 0 {
                break;
            }
            level = level - 1;
        }
        (cur, frame)
    }

    /// Point lookup: the value stored under `key`, or `None` when the key is
    /// absent. A pure read; "not found" is a normal result, not a failure.
    pub fn get(&self, key: i64) -> (r: Option<V>)
        requires
            self.wf(),
        ensures
            r == (if self@.contains_key(key) {
                Option::Some(self@[key])
            } else {
                Option::<V>::None
            }),
    {
        let (pred, _frame) = self.locate(key);
        match pred {
            Option::Some(p) => {
                proof {
                    assert(self.frame_ok(key, 0, Option::Some(p)));
                }
                if self.nodes[p].elem.key == key {
                    proof {
                        assert(self.has_key(key));
                        let w = self.index_for(key);
                        assert(0 <= w < self.node_count() && self.node_key(w) == key);
                        assert(w == p as int);
                    }
                    Some(self.nodes[p].elem.value)
                } else {
                    proof {
                        if self.has_key(key) {
                            let w = self.index_for(key);
                            assert(0 <= w < self.node_count() && self.node_key(w) == key);
                            assert(self.node_height(w) >= 1);
                            assert(self.on_level(0, w));
                            assert(self.node_key(w) <= self.node_key(p as int));
                            assert(false);
                        }
                    }
                    None
                }
            },
            Option::None => {
                proof {
                    if self.has_key(key) {
                        let w = self.index_for(key);
                        assert(0 <= w < self.node_count() && self.node_key(w) == key);
                        assert(self.node_height(w) >= 1);
                        assert(self.on_level(0, w));
                        assert(false);
                    }
                }
                None
            },
        }
    }

    /// Redirect one forward link of one node, leaving every other part of the
    /// structure as it was.
    fn set_link(&mut self, p: usize, l: usize, t: Option<usize>)
        requires
            p < old(self).nodes@.len(),
            l < old(self).nodes@[p as int].nexts@.len(),
        ensures
            final(self).nodes@.len() == old(self).nodes@.len(),
            final(self).heads == old(self).heads,
            final(self).top_level == old(self).top_level,
            forall|i: int|
                0 <= i < old(self).nodes@.len() && i != p
                    ==> final(self).nodes@[i] == old(self).nodes@[i],
            final(self).node_key(p as int) == old(self).node_key(p as int),
            final(self).node_value(p as int) == old(self).node_value(p as int),
            final(self).node_height(p as int) == old(self).node_height(p as int),
            forall|j: int|
                0 <= j < old(self).node_height(p as int) && j != l
                    ==> #[trigger] final(self).link_of(j, p as int) == old(self).link_of(
                    j,
                    p as int,
                ),
            final(self).link_of(l as int, p as int) == t,
    {
        self.nodes[p].nexts[l] = t;
    }

    /// Insertion with the level index already drawn: splices a node of height
    /// `level + 1` into every one of its levels at the positions the frame
    /// records, or fails without mutating anything when the key is present.
    /// On success the new key participates in exactly the levels
    /// `0 ..= level`, and every other key keeps exactly the levels it had.
    /// `insert` draws the level at random and calls this; taking the level as
    /// an argument makes boundary behavior reproducible.
    pub fn insert_with_level(&mut self, key: i64, value: V, level: usize) -> (r: Result<
        (),
        DuplicateKeyError,
    >)
        requires
            old(self).wf(),
            level < MAX_LEVEL,
        ensures
            final(self).wf(),
            old(self)@.contains_key(key) ==> r == Result::<(), DuplicateKeyError>::Err(
                DuplicateKeyError,
            ) && *final(self) == *old(self),
            !old(self)@.contains_key(key) ==> r == Result::<(), DuplicateKeyError>::Ok(())
                && final(self)@ == old(self)@.insert(key, value),
            !old(self)@.contains_key(key) ==> final(self).key_on_levels_up_to(
                key,
                level as int,
            ),
            !old(self)@.contains_key(key) ==> forall|l: int, k2: i64|
                #![trigger final(self).key_on_level(l, k2)]
                #![trigger old(self).key_on_level(l, k2)]
                k2 != key ==> (final(self).key_on_level(l, k2) <==> old(self).key_on_level(
                    l,
                    k2,
                )),
    {
        let ghost s0 = *self;
        let (pred, frame) = self.locate(key);
        match pred {
            Option::Some(p) => {
                proof {
                    assert(s0.frame_ok(key, 0, Option::Some(p)));
                }
                if self.nodes[p].elem.key == key {
                    proof {
                        assert(s0.has_key(key));
                    }
                    return Result::Err(DuplicateKeyError);
                }
                proof {
                    if s0.has_key(key) {
                        let w = s0.index_for(key);
                        assert(0 <= w < s0.node_count() && s0.node_key(w) == key);
                        assert(s0.node_height(w) >= 1);
                        assert(s0.on_level(0, w));
                        assert(s0.node_key(w) <= s0.node_key(p as int));
                        assert(s0.node_key(p as int) == key);
                        assert(false);
                    }
                }
            },
            Option::None => {
                proof {
                    assert(s0.frame_ok(key, 0, Option::<usize>::None));
                    if s0.has_key(key) {
                        let w = s0.index_for(key);
                        assert(0 <= w < s0.node_count() && s0.node_key(w) == key);
                        assert(s0.node_height(w) >= 1);
                        assert(s0.on_level(0, w));
                        assert(false);
                    }
                }
            },
        }
        assert(!s0.has_key(key));
        let height = level + 1;

        // raise the top level first: the new node may become its only member
        match self.top_level {
            Option::Some(t) => {
                if level > t {
                    self.top_level = Some(level);
                }
            },
            Option::None => {
                self.top_level = Some(level);
            },
        }

        // gather the new node's forward links from the frame
        let mut nexts: Vec<Option<usize>> = Vec::new();
        let mut l: usize = 0;
        while l < height
            invariant
                self.nodes@ == s0.nodes@,
                self.heads@ == s0.heads@,
                self.top_level == (match s0.top_level {
                    Option::Some(t0) => if t0 < level {
                        Option::Some(level)
                    } else {
                        Option::Some(t0)
                    },
                    Option::None => Option::Some(level),
                }),
                s0.wf(),
                height == level + 1,
                level < MAX_LEVEL,
                frame@.len() == MAX_LEVEL,
                forall|j: int| 0 <= j < MAX_LEVEL ==> s0.frame_ok(key, j, #[trigger] frame@[j]),
                l <= height,
                nexts@.len() == l,
                forall|j: int|
                    0 <= j < l ==> #[trigger] nexts@[j] == s0.splice_target(frame@[j], j),
            decreases height - l,
        {
            let t: Option<usize> = match frame[l] {
                Option::Some(p) => {
                    proof {
                        assert(s0.frame_ok(key, l as int, frame@[l as int]));
                        assert(s0.on_level(l as int, p as int));
                    }
                    self.nodes[p].nexts[l]
                },
                Option::None => self.heads[l],
            };
            nexts.push(t);
            l = l + 1;
        }

        let new_idx = self.nodes.len();
        self.nodes.push(Node { elem: KVPair { key, value }, nexts });

        // splice the node into every level of its height at the frame position
        let mut l: usize = 0;
        while l < height
            invariant
                s0.wf(),
                !s0.has_key(key),
                height == level + 1,
                level < MAX_LEVEL,
                frame@.len() == MAX_LEVEL,
                forall|j: int| 0 <= j < MAX_LEVEL ==> s0.frame_ok(key, j, #[trigger] frame@[j]),
                l <= height,
                new_idx == s0.nodes@.len(),
                self.nodes@.len() == s0.nodes@.len() + 1,
                self.heads@.len() == MAX_LEVEL,
                self.top_level == (match s0.top_level {
                    Option::Some(t0) => if t0 < level {
                        Option::Some(level)
                    } else {
                        Option::Some(t0)
                    },
                    Option::None => Option::Some(level),
                }),
                self.node_key(new_idx as int) == key,
                self.node_value(new_idx as int) == value,
                self.node_height(new_idx as int) == height,
                forall|i: int| 0 <= i < new_idx ==> #[trigger] self.node_key(i) == s0.node_key(i),
                forall|i: int|
                    0 <= i < new_idx ==> #[trigger] self.node_value(i) == s0.node_value(i),
                forall|i: int|
                    0 <= i < new_idx ==> #[trigger] self.node_height(i) == s0.node_height(i),
                forall|j: int|
                    0 <= j < height ==> #[trigger] self.link_of(j, new_idx as int)
                        == s0.splice_target(frame@[j], j),
                forall|j: int| l <= j < MAX_LEVEL ==> #[trigger] self.heads@[j] == s0.heads@[j],
                forall|j: int, i: int|
                    l <= j && 0 <= i < new_idx && s0.on_level(j, i) ==> #[trigger] self.link_of(
                        j,
                        i,
                    ) == s0.link_of(j, i),
                forall|j: int|
                    #![trigger frame@[j]]
                    0 <= j < l ==> match frame@[j] {
                        Option::Some(p) => self.link_of(j, p as int) == Option::Some(new_idx)
                            && self.heads@[j] == s0.heads@[j],
                        Option::None => self.heads@[j] == Option::Some(new_idx),
                    },
                forall|j: int, i: int|
                    0 <= j < l && 0 <= i < new_idx && s0.on_level(j, i) && (match frame@[j] {
                        Option::Some(p) => p as int != i,
                        Option::None => true,
                    }) ==> #[trigger] self.link_of(j, i) == s0.link_of(j, i),
            decreases height - l,
        {
            let ghost sp = *self;
            match frame[l] {
                Option::Some(p) => {
                    proof {
                        assert(s0.frame_ok(key, l as int, frame@[l as int]));
                        assert(s0.on_level(l as int, p as int));
                        assert(sp.node_height(p as int) == s0.node_height(p as int));
                        assert((p as int) < new_idx as int);
                    }
                    self.set_link(p, l, Some(new_idx));
                    proof {
                        assert(self.nodes@[new_idx as int] == sp.nodes@[new_idx as int]);
                        assert forall|i: int|
                            0 <= i < new_idx implies #[trigger] self.node_key(i) == s0.node_key(
                            i,
                        ) by {
                            assert(sp.node_key(i) == s0.node_key(i));
                            if i != p as int {
                                assert(self.nodes@[i] == sp.nodes@[i]);
                            }
                        }
                        assert forall|i: int|
                            0 <= i < new_idx implies #[trigger] self.node_value(i)
                            == s0.node_value(i) by {
                            assert(sp.node_value(i) == s0.node_value(i));
                            if i != p as int {
                                assert(self.nodes@[i] == sp.nodes@[i]);
                            }
                        }
                        assert forall|i: int|
                            0 <= i < new_idx implies #[trigger] self.node_height(i)
                            == s0.node_height(i) by {
                            assert(sp.node_height(i) == s0.node_height(i));
                            if i != p as int {
                                assert(self.nodes@[i] == sp.nodes@[i]);
                            }
                        }
                        assert forall|j: int|
                            0 <= j < height implies #[trigger] self.link_of(j, new_idx as int)
                            == s0.splice_target(frame@[j], j) by {
                            assert(sp.link_of(j, new_idx as int) == s0.splice_target(
                                frame@[j],
                                j,
                            ));
                        }
                        assert forall|j: int, i: int|
                            l as int + 1 <= j && 0 <= i < new_idx && s0.on_level(j, i) implies #[trigger] self.link_of(
                            j,
                            i,
                        ) == s0.link_of(j, i) by {
                            assert(sp.link_of(j, i) == s0.link_of(j, i));
                            if i == p as int {
                                assert(j < sp.node_height(p as int));
                                assert(j != l as int);
                            } else {
                                assert(self.nodes@[i] == sp.nodes@[i]);
                            }
                        }
                        assert forall|j: int|
                            #![trigger frame@[j]]
                            0 <= j < l as int + 1 implies (match frame@[j] {
                            Option::Some(p2) => self.link_of(j, p2 as int) == Option::Some(new_idx)
                                && self.heads@[j] == s0.heads@[j],
                            Option::None => self.heads@[j] == Option::Some(new_idx),
                        }) by {
                            assert(self.heads@[j] == sp.heads@[j]);
                            if j < l as int {
                                match frame@[j] {
                                    Option::Some(p2) => {
                                        assert(sp.link_of(j, p2 as int) == Option::Some(new_idx));
                                        assert(s0.frame_ok(key, j, frame@[j]));
                                        assert(s0.on_level(j, p2 as int));
                                        if p2 as int == p as int {
                                            assert(j < sp.node_height(p as int));
                                            assert(j != l as int);
                                            assert(self.link_of(j, p2 as int) == sp.link_of(
                                                j,
                                                p2 as int,
                                            ));
                                        } else {
                                            assert(self.nodes@[p2 as int] == sp.nodes@[p2 as int]);
                                        }
                                    },
                                    Option::None => {
                                        assert(sp.heads@[j] == Option::Some(new_idx));
                                    },
                                }
                            } else {
                                assert(self.link_of(l as int, p as int) == Option::Some(new_idx));
                                assert(sp.heads@[l as int] == s0.heads@[l as int]);
                            }
                        }
                        assert forall|j: int, i: int|
                            0 <= j < l as int + 1 && 0 <= i < new_idx && s0.on_level(j, i) && (
                            match frame@[j] {
                                Option::Some(p2) => p2 as int != i,
                                Option::None => true,
                            }) implies #[trigger] self.link_of(j, i) == s0.link_of(j, i) by {
                            assert(sp.link_of(j, i) == s0.link_of(j, i));
                            if i == p as int {
                                assert(j != l as int);
                                assert(j < sp.node_height(p as int));
                            } else {
                                assert(self.nodes@[i] == sp.nodes@[i]);
                            }
                        }
                        assert forall|j: int|
                            l as int + 1 <= j < MAX_LEVEL implies #[trigger] self.heads@[j]
                            == s0.heads@[j] by {
                            assert(sp.heads@[j] == s0.heads@[j]);
                        }
                    }
                },
                Option::None => {
                    self.heads[l] = Some(new_idx);
                    proof {
                        assert(self.nodes@ == sp.nodes@);
                        assert forall|i: int|
                            0 <= i < new_idx implies #[trigger] self.node_key(i) == s0.node_key(
                            i,
                        ) by {
                            assert(sp.node_key(i) == s0.node_key(i));
                        }
                        assert forall|i: int|
                            0 <= i < new_idx implies #[trigger] self.node_value(i)
                            == s0.node_value(i) by {
                            assert(sp.node_value(i) == s0.node_value(i));
                        }
                        assert forall|i: int|
                            0 <= i < new_idx implies #[trigger] self.node_height(i)
                            == s0.node_height(i) by {
                            assert(sp.node_height(i) == s0.node_height(i));
                        }
                        assert forall|j: int|
                            0 <= j < height implies #[trigger] self.link_of(j, new_idx as int)
                            == s0.splice_target(frame@[j], j) by {
                            assert(sp.link_of(j, new_idx as int) == s0.splice_target(
                                frame@[j],
                                j,
                            ));
                        }
                        assert forall|j: int, i: int|
                            l as int + 1 <= j && 0 <= i < new_idx && s0.on_level(j, i) implies #[trigger] self.link_of(
                            j,
                            i,
                        ) == s0.link_of(j, i) by {
                            assert(sp.link_of(j, i) == s0.link_of(j, i));
                        }
                        assert forall|j: int|
                            #![trigger frame@[j]]
                            0 <= j < l as int + 1 implies (match frame@[j] {
                            Option::Some(p2) => self.link_of(j, p2 as int) == Option::Some(new_idx)
                                && self.heads@[j] == s0.heads@[j],
                            Option::None => self.heads@[j] == Option::Some(new_idx),
                        }) by {
                            if j < l as int {
                                assert(self.heads@[j] == sp.heads@[j]);
                                match frame@[j] {
                                    Option::Some(p2) => {
                                        assert(sp.link_of(j, p2 as int) == Option::Some(new_idx));
                                    },
                                    Option::None => {
                                        assert(sp.heads@[j] == Option::Some(new_idx));
                                    },
                                }
                            } else {
                                assert(self.heads@[l as int] == Option::Some(new_idx));
                            }
                        }
                        assert forall|j: int, i: int|
                            0 <= j < l as int + 1 && 0 <= i < new_idx && s0.on_level(j, i) && (
                            match frame@[j] {
                                Option::Some(p2) => p2 as int != i,
                                Option::None => true,
                            }) implies #[trigger] self.link_of(j, i) == s0.link_of(j, i) by {
                            assert(sp.link_of(j, i) == s0.link_of(j, i));
                        }
                        assert forall|j: int|
                            l as int + 1 <= j < MAX_LEVEL implies #[trigger] self.heads@[j]
                            == s0.heads@[j] by {
                            assert(sp.heads@[j] == s0.heads@[j]);
                        }
                    }
                },
            }
            l = l + 1;
        }

        proof {
            self.lemma_splice_wf(s0, frame@, key, value, level, new_idx);
        }
        Result::Ok(())
    }

    /// Inserts the pair `key -> value`. Fails with `DuplicateKeyError` and
    /// changes nothing when the key is already present (the stored value is
    /// preserved); otherwise adds one node whose height is drawn at random by
    /// the level generator. Whatever height was drawn, the new key ends up
    /// participating in a contiguous prefix of levels below `MAX_LEVEL`, and
    /// every other key keeps exactly the levels it had.
    pub fn insert(&mut self, key: i64, value: V) -> (r: Result<(), DuplicateKeyError>)
        requires
            old(self).wf(),
        ensures
            final(self).wf(),
            old(self)@.contains_key(key) ==> r == Result::<(), DuplicateKeyError>::Err(
                DuplicateKeyError,
            ) && *final(self) == *old(self),
            !old(self)@.contains_key(key) ==> r == Result::<(), DuplicateKeyError>::Ok(())
                && final(self)@ == old(self)@.insert(key, value),
            !old(self)@.contains_key(key) ==> exists|lv: int|
                0 <= lv < MAX_LEVEL && final(self).key_on_levels_up_to(key, lv),
            !old(self)@.contains_key(key) ==> forall|l: int, k2: i64|
                #![trigger final(self).key_on_level(l, k2)]
                #![trigger old(self).key_on_level(l, k2)]
                k2 != key ==> (final(self).key_on_level(l, k2) <==> old(self).key_on_level(
                    l,
                    k2,
                )),
    {
        let ghost s0 = *self;
        let level = crate::level::generate_level();
        let r = self.insert_with_level(key, value, level);
        proof {
            if !s0@.contains_key(key) {
                assert(self.key_on_levels_up_to(key, level as int));
                assert(level < MAX_LEVEL);
            }
        }
        r
    }

    /// The keys of every node participating in level `l`, collected by
    /// following the level's forward chain from its head: strictly ascending,
    /// so each member is visited exactly once. At level 0 this is every key
    /// the structure holds.
    #[verifier::rlimit(60)]
    pub fn keys_at_level(&self, l: usize) -> (r: Vec<i64>)
        requires
            self.wf(),
            l < MAX_LEVEL,
        ensures
            forall|a: int, b: int| 0 <= a < b < r@.len() ==> r@[a] < r@[b],
            forall|k: i64| #[trigger] r@.contains(k) <==> self.key_on_level(l as int, k),
    {
        let mut r: Vec<i64> = Vec::new();
        let mut cur: Option<usize> = self.heads[l];
        proof {
            assert(self.head_ok(l as int));
        }
        loop
            invariant
                self.wf(),
                l < MAX_LEVEL,
                forall|a: int, b: int| 0 <= a < b < r@.len() ==> r@[a] < r@[b],
                forall|a: int| 0 <= a < r@.len() ==> self.key_on_level(l as int, #[trigger] r@[a]),
                match cur {
                    Option::Some(c) => self.on_level(l as int, c as int) && (forall|m: int|
                        #[trigger] self.on_level(l as int, m) ==> (self.node_key(m) < self.node_key(
                            c as int,
                        ) <==> r@.contains(self.node_key(m)))) && (r@.len() > 0 ==> r@[r@.len()
                        - 1] < self.node_key(c as int)),
                    Option::None => forall|m: int|
                        #[trigger] self.on_level(l as int, m) ==> r@.contains(self.node_key(m)),
                },
            ensures
                forall|a: int, b: int| 0 <= a < b < r@.len() ==> r@[a] < r@[b],
                forall|a: int| 0 <= a < r@.len() ==> self.key_on_level(l as int, #[trigger] r@[a]),
                forall|m: int|
                    #[trigger] self.on_level(l as int, m) ==> r@.contains(self.node_key(m)),
            decreases self.walk_measure(cur),
        {
            match cur {
                Option::Some(c) => {
                    let ghost r0 = r@;
                    r.push(self.nodes[c].elem.key);
                    let nxt = self.nodes[c].nexts[l];
                    proof {
                        assert(self.link_ok(l as int, c as int));
                        assert(r@ == r0.push(self.node_key(c as int)));
                        assert forall|x: i64| #[trigger] r@.contains(x) implies r0.contains(x) || x
                            == self.node_key(c as int) by {
                            let a = choose|a: int| 0 <= a < r@.len() && r@[a] == x;
                            if a < r0.len() {
                                assert(r0[a] == x);
                            }
                        }
                        assert forall|x: i64| r0.contains(x) implies #[trigger] r@.contains(x) by {
                            let a = choose|a: int| 0 <= a < r0.len() && r0[a] == x;
                            assert(r@[a] == x);
                        }
                        assert(r@[r0.len() as int] == self.node_key(c as int));
                        assert(r@.contains(self.node_key(c as int)));
                        assert(self.key_on_level(l as int, self.node_key(c as int)));
                        assert forall|m: int| #[trigger] self.on_level(l as int, m) implies (
                        self.node_key(m) <= self.node_key(c as int) <==> r@.contains(self.node_key(
                            m,
                        ))) by {
                            if self.node_key(m) == self.node_key(c as int) {
                                assert(r@.contains(self.node_key(m)));
                            }
                        }
                    }
                    cur = nxt;
                },
                Option::None => {
                    break;
                },
            }
        }
        proof {
            assert forall|k: i64| #[trigger] r@.contains(k) implies self.key_on_level(
                l as int,
                k,
            ) by {
                let a = choose|a: int| 0 <= a < r@.len() && r@[a] == k;
                assert(self.key_on_level(l as int, r@[a]));
            }
            assert forall|k: i64| self.key_on_level(l as int, k) implies r@.contains(k) by {
                let m = choose|m: int| self.on_level(l as int, m) && self.node_key(m) == k;
                assert(r@.contains(self.node_key(m)));
            }
        }
        r
    }

    /// An empty structure: no nodes, every head link absent, no occupied level.
    pub fn new() -> (s: Self)
        ensures
            s.wf(),
            s@ == Map::<i64, V>::empty(),
    {
        let mut heads: Vec<Option<usize>> = Vec::new();
        let mut l: usize = 0;
        while l < MAX_LEVEL
            invariant
                l <= MAX_LEVEL,
                heads@.len() == l,
                forall|j: int| 0 <= j < l ==> heads@[j] is None,
            decreases MAX_LEVEL - l,
        {
            heads.push(None);
            l = l + 1;
        }
        let s = Skiplist { nodes: Vec::new(), heads, top_level: None };
        proof {
            assert(s@ =~= Map::<i64, V>::empty());
        }
        s
    }
}

} // verus!
