//! Chaining hash table with progressive rehashing.
use vstd::multiset::Multiset;
use vstd::prelude::*;

verus! {

/// A node of the hash table: the hash of the entry it stands for and the
/// index of that entry in the store that owns it.
///
/// `==` on nodes is identity: the same hash and the same entry index.
/// Whether two nodes stand for entries with the same key is for the store
/// that holds the entries to tell (`HashTable::same_key`).
#[derive(Debug, Clone, Copy, PartialEq, Eq, Structural)]
pub struct HNode {
    hash: u64,
    entry: usize,
}

impl HNode {
    /// The hash of a node, as contracts read it.
    pub closed spec fn spec_hash(&self) -> u64 {
        self.hash
    }

    /// The index of the entry that a node stands for.
    pub closed spec fn entry(&self) -> usize {
        self.entry
    }

    /// The hash this node was filed under.
    #[verifier::when_used_as_spec(spec_hash)]
    pub fn hash(&self) -> (h: u64)
        ensures
            h == self.spec_hash(),
    {
        self.hash
    }

    /// A node with the given hash that refers to no particular entry.
    pub fn from_hash(hash: u64) -> (n: Self)
        ensures
            n.hash() == hash,
            n.entry() == 0,
    {
        Self { hash, entry: 0 }
    }
}

impl Default for HNode {
    /// A node with hash zero that refers to no particular entry.
    fn default() -> (n: Self)
        ensures
            n.hash() == 0,
            n.entry() == 0,
    {
        Self { hash: 0, entry: 0 }
    }
}

/// The layout type of the standard allocator.
#[verifier::external_type_specification]
#[verifier::external_body]
pub struct ExLayout(core::alloc::Layout);

/// The error the standard allocator reports for a layout it cannot describe.
#[verifier::external_type_specification]
#[verifier::external_body]
pub struct ExLayoutError(core::alloc::LayoutError);

/// Calls `core::alloc::Layout::array::<usize>(slots)`, the layout of an array
/// of `slots` machine words.  Its documentation says that it fails exactly
/// when the array's size in bytes (a multiple of the alignment already) would
/// exceed `isize::MAX`, overflow of the multiplication included; that is
/// all this contract claims.
#[verifier::external_body]
fn slot_array_layout(slots: usize) -> (r: Result<core::alloc::Layout, core::alloc::LayoutError>)
    ensures
        r.is_ok() <==> slots * vstd::layout::size_of::<usize>() <= isize::MAX,
{
    core::alloc::Layout::array::<usize>(slots)
}

/// The slot that a hash is filed under in a table with the given mask.
pub open spec fn slot_of(hash: u64, mask: usize) -> int {
    (hash & (mask as u64)) as int
}

/// Whether `eq` has turned `cand` down as a match for `node`: a node with
/// another hash is never offered, one with the same hash was answered `false`.
pub open spec fn rejected<F: Fn(&HNode, &HNode) -> bool>(eq: F, cand: HNode, node: HNode) -> bool {
    cand.spec_hash() == node.spec_hash() ==> eq.ensures((&cand, &node), false)
}

/// No node of `chain` matches `node`.
pub open spec fn no_match<F: Fn(&HNode, &HNode) -> bool>(
    chain: Seq<HNode>,
    node: HNode,
    eq: F,
) -> bool {
    forall|j: int| 0 <= j < chain.len() ==> #[trigger] rejected(eq, chain[j], node)
}

/// Position `i` of `chain` holds the first node that matches `node`: same
/// hash, accepted by `eq`, and every node before it turned down.
pub open spec fn first_match<F: Fn(&HNode, &HNode) -> bool>(
    chain: Seq<HNode>,
    node: HNode,
    eq: F,
    i: int,
) -> bool {
    &&& 0 <= i < chain.len()
    &&& chain[i].spec_hash() == node.spec_hash()
    &&& eq.ensures((&chain[i], &node), true)
    &&& no_match(chain.take(i), node, eq)
}

/// Whether a table of `size` slots can be set up: a non-zero power of two
/// whose slot array has a valid layout.
pub open spec fn valid_table_size(size: usize) -> bool {
    &&& size != 0
    &&& (size - 1) as usize & size == 0
    &&& size * vstd::layout::size_of::<usize>() <= isize::MAX
}

/// The error with which setting up a table of `size` slots is refused.
pub open spec fn init_refusal(size: usize, e: InnerHashTableError) -> bool {
    match e {
        InnerHashTableError::NegativeSize => size == 0,
        InnerHashTableError::SizeNotPowerOfTwo(s) => {
            &&& size != 0
            &&& (size - 1) as usize & size != 0
            &&& s == size
        },
        InnerHashTableError::LayoutError(_) => {
            &&& size != 0
            &&& (size - 1) as usize & size == 0
            &&& size * vstd::layout::size_of::<usize>() > isize::MAX
        },
    }
}

/// Flattening after replacing one inner sequence changes the length and the
/// multiset of elements by exactly what was replaced.
proof fn lemma_flatten_update<A>(c: Seq<Seq<A>>, i: int, x: Seq<A>)
    requires
        0 <= i < c.len(),
    ensures
        c.flatten() =~= c.take(i).flatten() + c[i] + c.skip(i + 1).flatten(),
        c.update(i, x).flatten() =~= c.take(i).flatten() + x + c.skip(i + 1).flatten(),
        c.update(i, x).flatten().len() + c[i].len() == c.flatten().len() + x.len(),
        c.update(i, x).flatten().to_multiset().add(c[i].to_multiset())
            =~= c.flatten().to_multiset().add(x.to_multiset()),
{
    broadcast use vstd::seq_lib::lemma_multiset_commutative;
    broadcast use vstd::multiset::group_multiset_axioms;

    let a = c.take(i);
    let b = c.skip(i + 1);
    assert(c =~= a + seq![c[i]] + b);
    assert(c.update(i, x) =~= a + seq![x] + b);
    vstd::seq_lib::lemma_flatten_concat(a + seq![c[i]], b);
    vstd::seq_lib::lemma_flatten_concat(a, seq![c[i]]);
    vstd::seq_lib::lemma_flatten_concat(a + seq![x], b);
    vstd::seq_lib::lemma_flatten_concat(a, seq![x]);
    seq![c[i]].lemma_flatten_singleton();
    seq![x].lemma_flatten_singleton();
}

/// An element of a flattened sequence sits in one of the inner sequences.
proof fn lemma_flatten_contains<A>(c: Seq<Seq<A>>, a: A)
    requires
        c.flatten().contains(a),
    ensures
        exists|i: int| 0 <= i < c.len() && #[trigger] c[i].contains(a),
    decreases c.len(),
{
    let k = choose|k: int| 0 <= k < c.flatten().len() && c.flatten()[k] == a;
    if k < c[0].len() {
        assert(c[0][k] == a);
        assert(c[0].contains(a));
    } else {
        let rest = c.drop_first();
        assert(rest.flatten()[k - c[0].len()] == a);
        lemma_flatten_contains(rest, a);
        let i = choose|i: int| 0 <= i < rest.len() && #[trigger] rest[i].contains(a);
        assert(c[i + 1] == rest[i]);
    }
}

/// Every element of an inner sequence is counted in the flattened multiset.
proof fn lemma_flatten_has<A>(c: Seq<Seq<A>>, s: int, i: int)
    requires
        0 <= s < c.len(),
        0 <= i < c[s].len(),
    ensures
        c.flatten().to_multiset().count(c[s][i]) > 0,
{
    broadcast use vstd::multiset::group_multiset_axioms;

    let a = c[s][i];
    let x = c[s].remove(i);
    assert(c[s].contains(a));
    vstd::seq_lib::to_multiset_contains(c[s], a);
    vstd::seq_lib::to_multiset_remove(c[s], i);
    lemma_flatten_update(c, s, x);
    assert(c.flatten().to_multiset().add(x.to_multiset()).count(a) == c.update(
        s,
        x,
    ).flatten().to_multiset().add(c[s].to_multiset()).count(a));
}

/// Adding the same multiset to both sides can be cancelled.
proof fn lemma_multiset_cancel<A>(a: Multiset<A>, b: Multiset<A>, m: Multiset<A>)
    requires
        a.add(m) =~= b.add(m),
    ensures
        a =~= b,
{
    broadcast use vstd::multiset::group_multiset_axioms;

    assert forall|x: A| a.count(x) == b.count(x) by {
        assert(a.add(m).count(x) == b.add(m).count(x));
    }
}

/// A sequence of empty sequences flattens to nothing.
proof fn lemma_flatten_all_empty<A>(c: Seq<Seq<A>>)
    requires
        forall|i: int| 0 <= i < c.len() ==> (#[trigger] c[i]).len() == 0,
    ensures
        c.flatten().len() == 0,
    decreases c.len(),
{
    if c.len() > 0 {
        lemma_flatten_all_empty(c.drop_first());
        assert(c[0].len() == 0);
    }
}

/// A fixed-size chaining hash table: `mask + 1` slots, each holding a chain
/// of nodes, the most recently inserted first.
#[derive(Debug, Clone)]
pub struct InnerHashTable {
    tab: Vec<Vec<HNode>>,
    mask: usize,
    len: usize,
}

impl View for InnerHashTable {
    type V = Seq<Seq<HNode>>;

    /// The chains of the table, slot by slot, each from its front.
    closed spec fn view(&self) -> Seq<Seq<HNode>> {
        Seq::new(self.tab@.len(), |i: int| self.tab@[i]@)
    }
}

impl InnerHashTable {
    /// The table's invariant: one chain per slot, every node in the slot its
    /// hash selects, the slot array of a valid size, and the key count right.
    pub closed spec fn wf(&self) -> bool {
        &&& self.tab@.len() == self.mask + 1
        &&& valid_table_size((self.mask + 1) as usize)
        &&& forall|i: int, j: int|
            #![trigger self.tab@[i]@[j]]
            0 <= i < self.tab@.len() && 0 <= j < self.tab@[i]@.len() ==> slot_of(
                self.tab@[i]@[j].spec_hash(),
                self.mask,
            ) == i
        &&& self.len == self@.flatten().len()
    }

    /// The chains after `node` is filed at the front of the chain of the
    /// slot its hash selects.
    pub open spec fn view_with(&self, node: HNode) -> Seq<Seq<HNode>> {
        self@.update(
            slot_of(node.spec_hash(), self.spec_mask()),
            self@[slot_of(node.spec_hash(), self.spec_mask())].insert(0, node),
        )
    }

    /// What the invariant says of a table: one chain per slot, a valid
    /// number of slots, every node in the slot its hash selects, and the
    /// count equal to the number of nodes.
    pub proof fn lemma_wf_facts(&self)
        requires
            self.wf(),
        ensures
            self@.len() == self.spec_mask() + 1,
            valid_table_size((self.spec_mask() + 1) as usize),
            self.spec_len() == self.nodes().len(),
            self.spec_len() == self.contents().len(),
            forall|i: int, j: int|
                0 <= i < self@.len() && 0 <= j < self@[i].len() ==> slot_of(
                    #[trigger] self@[i][j].spec_hash(),
                    self.spec_mask(),
                ) == i,
            forall|h: u64| 0 <= #[trigger] slot_of(h, self.spec_mask()) < self@.len(),
    {
        broadcast use vstd::seq_lib::to_multiset_len;

        assert forall|h: u64| 0 <= #[trigger] slot_of(h, self.spec_mask()) < self@.len() by {
            let m = self.mask;
            assert((h & (m as u64)) <= m as u64) by (bit_vector);
        }
        assert forall|i: int, j: int|
            0 <= i < self@.len() && 0 <= j < self@[i].len() implies slot_of(
            #[trigger] self@[i][j].spec_hash(),
            self.spec_mask(),
        ) == i by {
            assert(self@[i][j] == self.tab@[i]@[j]);
        }
    }

    /// All nodes in the table, in slot order and chain order.
    pub open spec fn nodes(&self) -> Seq<HNode> {
        self@.flatten()
    }

    /// The nodes in the table, as a multiset.
    pub open spec fn contents(&self) -> Multiset<HNode> {
        self.nodes().to_multiset()
    }

    pub closed spec fn spec_len(&self) -> usize {
        self.len
    }

    pub closed spec fn spec_mask(&self) -> usize {
        self.mask
    }

    /// Sets up an empty table of `size` slots; `size` must be a non-zero
    /// power of two.
    pub fn init(size: usize) -> (r: Result<Self, InnerHashTableError>)
        ensures
            r.is_ok() <==> valid_table_size(size),
            match r {
                Ok(t) => {
                    &&& t.wf()
                    &&& t.mask() == size - 1
                    &&& t.len() == 0
                    &&& t@ == Seq::new(size as nat, |i: int| Seq::<HNode>::empty())
                },
                Err(e) => init_refusal(size, e),
            },
    {
        if size == 0 {
            return Err(InnerHashTableError::NegativeSize);
        }
        if (size - 1) & size != 0 {
            return Err(InnerHashTableError::SizeNotPowerOfTwo(size));
        }
        match slot_array_layout(size) {
            Err(e) => {
                return Err(InnerHashTableError::LayoutError(e));
            },
            Ok(_) => {},
        }
        let mut tab: Vec<Vec<HNode>> = Vec::new();
        let mut i: usize = 0;
        while i < size
            invariant
                i <= size,
                tab@.len() == i,
                forall|k: int| 0 <= k < i ==> (#[trigger] tab@[k])@ == Seq::<HNode>::empty(),
            decreases size - i,
        {
            tab.push(Vec::new());
            i = i + 1;
        }
        let t = Self { tab, mask: size - 1, len: 0 };
        assert(t@ =~= Seq::new(size as nat, |i: int| Seq::<HNode>::empty()));
        proof {
            lemma_flatten_all_empty(t@);
        }
        Ok(t)
    }

    /// The slot that `hash` selects.
    fn slot_index(&self, hash: u64) -> (p: usize)
        requires
            self.wf(),
        ensures
            p == slot_of(hash, self.mask),
            p < self.tab@.len(),
    {
        let m: usize = self.mask;
        assert((hash & (m as u64)) <= m as u64) by (bit_vector);
        (hash & (m as u64)) as usize
    }

    /// Files `node` at the front of the chain of the slot its hash selects.
    pub fn insert(&mut self, node: HNode) -> (r: Result<(), InnerHashTableError>)
        requires
            old(self).wf(),
            old(self).len() < usize::MAX,
        ensures
            r is Ok,
            final(self).wf(),
            final(self).mask() == old(self).mask(),
            final(self).len() == old(self).len() + 1,
            final(self)@ == old(self).view_with(node),
            final(self).contents() =~= old(self).contents().insert(node),
            final(self)@.len() == old(self)@.len(),
            final(self)@[slot_of(node.hash(), old(self).mask())] == seq![node] + old(
                self,
            )@[slot_of(node.hash(), old(self).mask())],
            forall|i: int|
                0 <= i < old(self)@.len() && i != slot_of(node.hash(), old(self).mask())
                    ==> #[trigger] final(self)@[i] == old(self)@[i],
    {
        let pos: usize = self.slot_index(node.hash);
        self.tab[pos].insert(0, node);
        self.len = self.len + 1;
        proof {
            let c = old(self)@;
            let x = c[pos as int].insert(0, node);
            assert(self@ =~= c.update(pos as int, x));
            lemma_flatten_update(c, pos as int, x);
            vstd::seq_lib::to_multiset_insert(c[pos as int], 0, node);
            broadcast use vstd::multiset::group_multiset_axioms;
            let m = c[pos as int].to_multiset();
            assert(old(self).contents().add(m.insert(node)) =~= old(self).contents().insert(node).add(m));
            lemma_multiset_cancel(self.contents(), old(self).contents().insert(node), m);
            assert forall|i: int, j: int|
                0 <= i < self.tab@.len() && 0 <= j < self.tab@[i]@.len() implies slot_of(
                #[trigger] self.tab@[i]@[j].spec_hash(),
                self.mask,
            ) == i by {
                if i == pos && j > 0 {
                    assert(self.tab@[i]@[j] == old(self).tab@[i]@[j - 1]);
                }
            }
        }
        Ok(())
    }

    /// Searches the chain of the slot that `node`'s hash selects, from its
    /// front, for the first node with that hash that `eq` accepts, and gives
    /// its place: the slot and the position in the chain.
    pub fn lookup<F: Fn(&HNode, &HNode) -> bool>(&self, node: &HNode, eq: &F) -> (r: Option<
        (usize, usize),
    >)
        requires
            self.wf(),
            forall|a: &HNode, b: &HNode| eq.requires((a, b)),
        ensures
            match r {
                Some((s, i)) => {
                    &&& s == slot_of(node.hash(), self.mask())
                    &&& s < self@.len()
                    &&& first_match(self@[s as int], *node, *eq, i as int)
                },
                None => no_match(self@[slot_of(node.hash(), self.mask())], *node, *eq),
            },
    {
        let pos: usize = self.slot_index(node.hash);
        let chain = &self.tab[pos];
        let mut i: usize = 0;
        while i < chain.len()
            invariant
                i <= chain@.len(),
                pos < self@.len(),
                chain@ == self@[pos as int],
                pos == slot_of(node.hash(), self.mask()),
                no_match(chain@.take(i as int), *node, *eq),
                forall|a: &HNode, b: &HNode| eq.requires((a, b)),
            decreases chain@.len() - i,
        {
            let cand = &chain[i];
            if cand.hash == node.hash && eq(cand, node) {
                return Some((pos, i));
            }
            assert(chain@.take(i + 1) =~= chain@.take(i as int).push(*cand));
            i = i + 1;
        }
        assert(chain@.take(i as int) =~= chain@);
        None
    }

    /// Unlinks the node at `link` (a slot and a position in its chain) and
    /// hands it back.  The link must lead to a node of this table.
    pub fn detach(&mut self, link: (usize, usize)) -> (r: Option<HNode>)
        requires
            old(self).wf(),
            link.0 < old(self)@.len(),
            link.1 < old(self)@[link.0 as int].len(),
        ensures
            final(self).wf(),
            final(self).mask() == old(self).mask(),
            r == Some(old(self)@[link.0 as int][link.1 as int]),
            final(self)@ == old(self)@.update(
                link.0 as int,
                old(self)@[link.0 as int].remove(link.1 as int),
            ),
            final(self).len() == old(self).len() - 1,
            final(self).contents() =~= old(self).contents().remove(
                old(self)@[link.0 as int][link.1 as int],
            ),
    {
        let (slot, index) = link;
        proof {
            lemma_flatten_update(self@, slot as int, self@[slot as int].remove(index as int));
        }
        let n = self.tab[slot].remove(index);
        self.len = self.len - 1;
        proof {
            let c = old(self)@;
            let x = c[slot as int].remove(index as int);
            assert(self@ =~= c.update(slot as int, x));
            lemma_flatten_update(c, slot as int, x);
            vstd::seq_lib::to_multiset_remove(c[slot as int], index as int);
            broadcast use vstd::multiset::group_multiset_axioms;
            let m = x.to_multiset();
            assert(c[slot as int][index as int] == n);
            assert(c[slot as int].contains(n));
            vstd::seq_lib::to_multiset_contains(c[slot as int], n);
            assert forall|y: HNode|
                #[trigger] self.contents().count(y) == old(self).contents().remove(n).count(y) by {
                assert(self.contents().add(c[slot as int].to_multiset()).count(y)
                    == old(self).contents().add(m).count(y));
            }
            assert forall|i: int, j: int|
                0 <= i < self.tab@.len() && 0 <= j < self.tab@[i]@.len() implies slot_of(
                #[trigger] self.tab@[i]@[j].spec_hash(),
                self.mask,
            ) == i by {
                if i == slot && j >= index {
                    assert(self.tab@[i]@[j] == old(self).tab@[i]@[j + 1]);
                }
            }
        }
        Some(n)
    }

    /// A node that is in a table sits in the chain of the slot its hash
    /// selects.
    pub proof fn lemma_node_in_its_slot(&self, n: HNode)
        requires
            self.wf(),
            self.contents().count(n) > 0,
        ensures
            self@[slot_of(n.spec_hash(), self.mask())].contains(n),
    {
        vstd::seq_lib::to_multiset_contains(self.nodes(), n);
        lemma_flatten_contains(self@, n);
        let i = choose|i: int| 0 <= i < self@.len() && #[trigger] self@[i].contains(n);
        let j = choose|j: int| 0 <= j < self@[i].len() && self@[i][j] == n;
        assert(self.tab@[i]@[j] == n);
    }

    /// An iterator over the table's nodes.
    pub fn iter(&self) -> (it: InnerHashTableIter<'_>)
        ensures
            it.table() == self,
            it.pos() == 0,
    {
        InnerHashTableIter::new(self)
    }

    /// Number of nodes in the table.
    #[verifier::when_used_as_spec(spec_len)]
    pub fn len(&self) -> (n: usize)
        ensures
            n == self.spec_len(),
    {
        self.len
    }

    /// The mask that selects a slot from a hash: the number of slots less one.
    #[verifier::when_used_as_spec(spec_mask)]
    pub fn mask(&self) -> (m: usize)
        ensures
            m == self.spec_mask(),
    {
        self.mask
    }
}

impl Default for InnerHashTable {
    /// An empty table of a single slot.
    fn default() -> (t: Self)
        ensures
            t.wf(),
            t.mask() == 0,
            t.len() == 0,
            t@ == seq![Seq::<HNode>::empty()],
    {
        let mut tab: Vec<Vec<HNode>> = Vec::new();
        tab.push(Vec::new());
        let t = Self { tab, mask: 0, len: 0 };
        proof {
            broadcast use vstd::layout::layout_of_primitives;

            assert(((1usize - 1) as usize & 1usize) == 0) by (bit_vector);
            assert(usize::BITS == 32 || usize::BITS == 64);
            assert(t@ =~= seq![Seq::<HNode>::empty()]);
            lemma_flatten_all_empty(t@);
        }
        t
    }
}

/// Filing a node puts it at the front of the chain of the slot its hash
/// selects, ahead of every node already there, and leaves every other slot
/// and the number of slots as they were.
pub proof fn law_insert_files_at_front(t: InnerHashTable, node: HNode)
    requires
        t.wf(),
    ensures
        t.view_with(node).len() == t@.len(),
        t.view_with(node)[slot_of(node.spec_hash(), t.spec_mask())] == seq![node] + t@[slot_of(
            node.spec_hash(),
            t.spec_mask(),
        )],
        forall|i: int|
            0 <= i < t@.len() && i != slot_of(node.spec_hash(), t.spec_mask()) ==> #[trigger] t.view_with(
                node,
            )[i] == t@[i],
{
    t.lemma_wf_facts();
    let s = slot_of(node.spec_hash(), t.spec_mask());
    assert(t@[s].insert(0, node) =~= seq![node] + t@[s]);
}

/// A node filed in a table, found again by a lookup that accepts it, and
/// detached at the place the lookup gives, leaves the table's chains as
/// they were: the lookup finds it at the front of its slot's chain.
pub proof fn law_insert_lookup_detach<F: Fn(&HNode, &HNode) -> bool>(
    chains: Seq<Seq<HNode>>,
    mask: usize,
    node: HNode,
    eq: F,
    i: int,
)
    requires
        0 <= slot_of(node.spec_hash(), mask) < chains.len(),
        forall|b: bool| eq.ensures((&node, &node), b) ==> b,
        first_match(
            chains.update(
                slot_of(node.spec_hash(), mask),
                chains[slot_of(node.spec_hash(), mask)].insert(0, node),
            )[slot_of(node.spec_hash(), mask)],
            node,
            eq,
            i,
        ) || no_match(
            chains.update(
                slot_of(node.spec_hash(), mask),
                chains[slot_of(node.spec_hash(), mask)].insert(0, node),
            )[slot_of(node.spec_hash(), mask)],
            node,
            eq,
        ),
    ensures
        i == 0,
        ({
            let s = slot_of(node.spec_hash(), mask);
            let grown = chains.update(s, chains[s].insert(0, node));
            &&& grown[s][0] == node
            &&& first_match(grown[s], node, eq, 0)
            &&& grown.update(s, grown[s].remove(0)) == chains
        }),
{
    let s = slot_of(node.spec_hash(), mask);
    let grown = chains.update(s, chains[s].insert(0, node));
    let c = grown[s];
    assert(c[0] == node);
    if no_match(c, node, eq) {
        assert(rejected(eq, c[0], node));
    }
    if i != 0 && first_match(c, node, eq, i) {
        assert(c.take(i)[0] == node);
        assert(rejected(eq, c.take(i)[0], node));
    }
    assert(c.take(0) =~= Seq::<HNode>::empty());
    assert(grown.update(s, c.remove(0)) =~= chains) by {
        assert(c.remove(0) =~= chains[s]);
    }
}

/// Walks the nodes of an `InnerHashTable` in slot order, each chain from its
/// front.
pub struct InnerHashTableIter<'a> {
    table: &'a InnerHashTable,
    pos: usize,
}

impl<'a> InnerHashTableIter<'a> {
    /// The table being walked.
    pub closed spec fn table(&self) -> &'a InnerHashTable {
        self.table
    }

    /// How many nodes have been handed out so far.
    pub closed spec fn pos(&self) -> usize {
        self.pos
    }

    /// An iterator at the first node of `table`.
    pub fn new(table: &'a InnerHashTable) -> (it: Self)
        ensures
            it.table() == table,
            it.pos() == 0,
    {
        Self { table, pos: 0 }
    }

    /// The next node in slot order and chain order, or `None` once all
    /// nodes have been handed out.
    pub fn next(&mut self) -> (r: Option<&'a HNode>)
        requires
            old(self).table().wf(),
        ensures
            final(self).table() == old(self).table(),
            match r {
                Some(n) => {
                    &&& old(self).pos() < old(self).table().len()
                    &&& *n == old(self).table().nodes()[old(self).pos() as int]
                    &&& final(self).pos() == old(self).pos() + 1
                },
                None => {
                    &&& old(self).pos() >= old(self).table().len()
                    &&& final(self).pos() == old(self).pos()
                },
            },
    {
        let t: &'a InnerHashTable = self.table;
        if self.pos >= t.len {
            return None;
        }
        let pos: usize = self.pos;
        let mut slot: usize = 0;
        let mut before: usize = 0;
        while slot < t.tab.len()
            invariant
                t.wf(),
                t == old(self).table(),
                self.table == t,
                pos == old(self).pos(),
                slot <= t.tab@.len(),
                before == t@.take(slot as int).flatten().len(),
                before <= pos,
                pos < t.len,
            decreases t.tab@.len() - slot,
        {
            let chain = &t.tab[slot];
            proof {
                let c = t@;
                assert(c.take(slot + 1) =~= c.take(slot as int).push(c[slot as int]));
                c.take(slot as int).lemma_flatten_push(c[slot as int]);
                assert(c =~= c.take(slot + 1) + c.skip(slot + 1));
                vstd::seq_lib::lemma_flatten_concat(c.take(slot + 1), c.skip(slot + 1));
            }
            if pos - before < chain.len() {
                self.pos = pos + 1;
                return Some(&chain[pos - before]);
            }
            before = before + chain.len();
            slot = slot + 1;
        }
        proof {
            assert(t@.take(slot as int) =~= t@);
        }
        None
    }
}

/// Why a table could not be set up or changed.
#[derive(Debug)]
pub enum InnerHashTableError {
    NegativeSize,
    SizeNotPowerOfTwo(usize),
    LayoutError(core::alloc::LayoutError),
}

/// Why a map could not be set up or changed.
#[derive(Debug)]
pub enum HashMapError {
    OldTableNotEmpty(usize),
    InnerHashTableError(InnerHashTableError),
    NodeNotFound,
}

impl From<core::alloc::LayoutError> for InnerHashTableError {
    fn from(err: core::alloc::LayoutError) -> (r: Self) {
        Self::LayoutError(err)
    }
}

impl vstd::std_specs::convert::FromSpecImpl<core::alloc::LayoutError> for InnerHashTableError {
    open spec fn obeys_from_spec() -> bool {
        true
    }

    open spec fn from_spec(v: core::alloc::LayoutError) -> Self {
        InnerHashTableError::LayoutError(v)
    }
}

impl From<InnerHashTableError> for HashMapError {
    fn from(err: InnerHashTableError) -> (r: Self) {
        Self::InnerHashTableError(err)
    }
}

impl vstd::std_specs::convert::FromSpecImpl<InnerHashTableError> for HashMapError {
    open spec fn obeys_from_spec() -> bool {
        true
    }

    open spec fn from_spec(v: InnerHashTableError) -> Self {
        HashMapError::InnerHashTableError(v)
    }
}

/// The maximum average number of keys per slot before the table grows.
pub const K_MAX_LOAD_FACTOR: usize = 8;

/// The number of keys moved from the older table each time the map is
/// changed while it is being rehashed.
pub const K_REHASHING_WORK: usize = 128;

/// `node` is found in the slot chain of `t` that its hash selects, as the
/// first node there that matches it.
pub open spec fn found_in<F: Fn(&HNode, &HNode) -> bool>(
    t: InnerHashTable,
    node: HNode,
    eq: F,
    n: HNode,
) -> bool {
    exists|i: int|
        #[trigger] first_match(t@[slot_of(node.spec_hash(), t.spec_mask())], node, eq, i)
            && t@[slot_of(node.spec_hash(), t.spec_mask())][i] == n
}

/// No node of the slot chain of `t` that `node`'s hash selects matches it.
pub open spec fn none_in<F: Fn(&HNode, &HNode) -> bool>(
    t: InnerHashTable,
    node: HNode,
    eq: F,
) -> bool {
    no_match(t@[slot_of(node.spec_hash(), t.spec_mask())], node, eq)
}

/// Doubling keeps a power of two a power of two.
proof fn lemma_double_power_of_two(n: usize)
    requires
        n != 0,
        (n - 1) as usize & n == 0,
        n * 2 <= usize::MAX,
    ensures
        (n << 1usize) == n * 2,
        ((n << 1usize) - 1) as usize & (n << 1usize) == 0,
{
    vstd::arithmetic::power2::lemma2_to64();
    vstd::bits::lemma_usize_shl_is_mul(n, 1);
    vstd::bits::lemma_usize_shr_is_div(n << 1usize, 1);
    assert(n != 0 && (n - 1) as usize & n == 0 && (n << 1usize) >> 1usize == n ==> ((n << 1usize)
        - 1) as usize & (n << 1usize) == 0) by (bit_vector);
}

/// Whether a table with the given mask can be replaced by one of twice as
/// many slots: the larger slot array has a valid layout.
pub open spec fn can_grow(mask: usize) -> bool {
    2 * (mask + 1) * vstd::layout::size_of::<usize>() <= isize::MAX
}

/// How many keys one step of rehashing moves out of an older table of `n`
/// keys.
pub open spec fn moved(n: int) -> int {
    if n > K_REHASHING_WORK {
        K_REHASHING_WORK as int
    } else {
        n
    }
}

/// The work a running rehash still owes, counted against the newer table:
/// the keys left in the older table, one more for each step that moves
/// them, and one for the step that drops the emptied table.
pub open spec fn rehash_debt(n: int) -> int {
    n + (n + K_REHASHING_WORK - 1) / K_REHASHING_WORK as int + 1
}

/// Starting a rehash from a table under its load factor leaves the new,
/// twice as large table under its load factor, rehash debt included.
proof fn lemma_debt_after_growth(n: int, b: int)
    requires
        0 <= n <= b,
        b >= 8,
    ensures
        rehash_debt(n) <= 2 * b,
        n < b ==> rehash_debt(n) < 2 * b,
{
}

/// A resizable hash map built from two fixed-size tables, rehashed
/// progressively.
///
/// For hash tables the largest latency comes from an insertion that
/// triggers an O(N) resize.  Here the resize is spread out: once the larger
/// table is set up, each change of the map moves only a bounded number of
/// keys from the older table, and lookups search both tables meanwhile.
#[derive(Debug)]
pub struct HashMap {
    newer: InnerHashTable,
    older: Option<InnerHashTable>,
    migrate_pos: usize,
}

impl HashMap {
    /// The table that receives new keys.
    pub closed spec fn newer(&self) -> InnerHashTable {
        self.newer
    }

    /// The table being emptied into the newer one, while a rehash runs.
    pub closed spec fn older(&self) -> Option<InnerHashTable> {
        self.older
    }

    /// The number of keys in the older table, zero when there is none.
    pub open spec fn older_len(&self) -> nat {
        match self.older() {
            Some(o) => o.spec_len() as nat,
            None => 0,
        }
    }

    /// The number of keys in the map.
    pub open spec fn spec_len(&self) -> nat {
        self.newer().spec_len() as nat + self.older_len()
    }

    /// The keys of the map, as a multiset of nodes.
    pub open spec fn contents(&self) -> Multiset<HNode> {
        match self.older() {
            Some(o) => self.newer().contents().add(o.contents()),
            None => self.newer().contents(),
        }
    }

    /// How full the newer table is: its keys, plus the debt of a running
    /// rehash.
    pub open spec fn load(&self) -> int {
        match self.older() {
            Some(o) => self.newer().spec_len() + rehash_debt(o.spec_len() as int),
            None => self.newer().spec_len() as int,
        }
    }

    /// The load-factor bound: the newer table's load stays under
    /// `K_MAX_LOAD_FACTOR` keys per slot, unless no rehash runs and the
    /// table cannot grow.
    pub open spec fn load_bounded(&self) -> bool {
        ||| self.load() < K_MAX_LOAD_FACTOR * (self.newer().spec_mask() + 1)
        ||| self.older() is None && !can_grow(self.newer().spec_mask())
    }

    /// The map's invariant: sound tables, and the load-factor bound.
    pub closed spec fn wf(&self) -> bool {
        &&& self.wf_core()
        &&& self.load_bounded()
    }

    /// While no rehash runs, the newer table holds fewer than
    /// `K_MAX_LOAD_FACTOR` keys per slot, unless it cannot grow; while one
    /// runs, the newer table's keys and the rehash debt stay under that bound.
    pub proof fn law_load_factor(&self)
        requires
            self.wf(),
        ensures
            self.older() is None ==> self.newer().spec_len() < K_MAX_LOAD_FACTOR * (
            self.newer().spec_mask() + 1) || !can_grow(self.newer().spec_mask()),
            self.older() matches Some(o) ==> self.newer().spec_len() + rehash_debt(
                o.spec_len() as int,
            ) < K_MAX_LOAD_FACTOR * (self.newer().spec_mask() + 1),
    {
    }

    /// Both tables sound, the slots of the older table below the migration
    /// position emptied, and the key count a `usize`.
    closed spec fn wf_core(&self) -> bool {
        &&& self.newer.wf()
        &&& match self.older {
            Some(o) => {
                &&& o.wf()
                &&& self.migrate_pos <= o@.len()
                &&& forall|i: int| 0 <= i < self.migrate_pos ==> (#[trigger] o@[i]).len() == 0
            },
            None => true,
        }
        &&& self.spec_len() <= usize::MAX
    }

    /// Whether an insertion into a map in state `m` makes it start a rehash:
    /// none runs and the newer table reaches the load factor.
    pub open spec fn rehash_due(m: HashMap) -> bool {
        &&& m.older() is None
        &&& m.newer().spec_len() + 1 >= K_MAX_LOAD_FACTOR * (m.newer().spec_mask() + 1)
    }

    /// An empty map of `size` slots.
    pub fn init(size: usize) -> (r: Result<Self, HashMapError>)
        ensures
            r.is_ok() <==> valid_table_size(size),
            match r {
                Ok(m) => {
                    &&& m.wf()
                    &&& m.older() is None
                    &&& m.newer().spec_mask() == size - 1
                    &&& m.spec_len() == 0
                    &&& m.contents() =~= Multiset::empty()
                },
                Err(HashMapError::InnerHashTableError(e)) => init_refusal(size, e),
                Err(_) => false,
            },
    {
        match InnerHashTable::init(size) {
            Ok(t) => {
                proof {
                    broadcast use vstd::seq_lib::to_multiset_len;
                    broadcast use vstd::multiset::group_multiset_axioms;
                    assert(t.contents().len() == 0);
                }
                Ok(Self { newer: t, older: None, migrate_pos: 0 })
            },
            Err(e) => Err(HashMapError::InnerHashTableError(e)),
        }
    }

    /// Moves the newer table into the older place and sets up an empty
    /// table of twice as many slots as the newer one.
    fn start_rehash(&mut self) -> (r: Result<(), HashMapError>)
        requires
            old(self).wf_core(),
            old(self).older() is None,
        ensures
            final(self).wf_core(),
            final(self).contents() =~= old(self).contents(),
            final(self).spec_len() == old(self).spec_len(),
            r is Ok <==> can_grow(old(self).newer().spec_mask()),
            match r {
                Ok(()) => {
                    &&& final(self).older() == Some(old(self).newer())
                    &&& final(self).newer().spec_mask() + 1 == 2 * (old(self).newer().spec_mask() + 1)
                    &&& final(self).newer().spec_len() == 0
                    &&& final(self).newer().contents() =~= Multiset::empty()
                },
                Err(e) => {
                    &&& e matches HashMapError::InnerHashTableError(
                        InnerHashTableError::LayoutError(_),
                    )
                    &&& *final(self) == *old(self)
                },
            },
    {
        let n: usize = self.newer.tab.len();
        proof {
            broadcast use vstd::layout::layout_of_primitives;

            assert(n * vstd::layout::size_of::<usize>() <= isize::MAX);
            assert(vstd::layout::size_of::<usize>() >= 4) by {
                assert(usize::BITS == 32 || usize::BITS == 64);
            }
            assert(n * 2 <= usize::MAX) by (nonlinear_arith)
                requires
                    n * vstd::layout::size_of::<usize>() <= isize::MAX,
                    vstd::layout::size_of::<usize>() >= 4,
                    isize::MAX < usize::MAX,
            ;
            lemma_double_power_of_two(n);
        }
        let bigger = match InnerHashTable::init(n << 1) {
            Ok(t) => t,
            Err(e) => {
                return Err(HashMapError::InnerHashTableError(e));
            },
        };
        let mut previous = bigger;
        std::mem::swap(&mut self.newer, &mut previous);
        self.older = Some(previous);
        self.migrate_pos = 0;
        proof {
            broadcast use vstd::seq_lib::to_multiset_len;
            broadcast use vstd::multiset::group_multiset_axioms;

            assert(self.newer.contents().len() == 0);
            assert(self.newer.contents() =~= Multiset::empty());
        }
        Ok(())
    }

    /// Starts a rehash: the newer table becomes the older one and a table
    /// twice as large takes its place.  Refused while a rehash runs, and
    /// when the larger table cannot be set up.
    pub fn trigger_rehashing(&mut self) -> (r: Result<(), HashMapError>)
        requires
            old(self).wf(),
        ensures
            final(self).wf(),
            final(self).contents() =~= old(self).contents(),
            final(self).spec_len() == old(self).spec_len(),
            r is Ok <==> (old(self).older() is None && can_grow(old(self).newer().spec_mask())),
            match r {
                Ok(()) => {
                    &&& final(self).older() == Some(old(self).newer())
                    &&& final(self).newer().spec_mask() + 1 == 2 * (old(self).newer().spec_mask() + 1)
                    &&& final(self).newer().spec_len() == 0
                },
                Err(HashMapError::OldTableNotEmpty(n)) => {
                    &&& old(self).older() matches Some(o)
                    &&& n == o.spec_len()
                    &&& *final(self) == *old(self)
                },
                Err(HashMapError::InnerHashTableError(e)) => {
                    &&& old(self).older() is None
                    &&& e is LayoutError
                    &&& *final(self) == *old(self)
                },
                Err(HashMapError::NodeNotFound) => false,
            },
    {
        if let Some(o) = &self.older {
            return Err(HashMapError::OldTableNotEmpty(o.len()));
        }
        let r = self.start_rehash();
        proof {
            if r is Ok {
                let b = K_MAX_LOAD_FACTOR * (old(self).newer().spec_mask() + 1);
                lemma_debt_after_growth(old(self).newer().spec_len() as int, b);
            }
        }
        r
    }

    /// The map counts its keys right: its length is the size of its
    /// contents.
    pub proof fn law_len_is_contents_size(&self)
        requires
            self.wf(),
        ensures
            self.contents().len() == self.spec_len(),
    {
        broadcast use vstd::seq_lib::to_multiset_len;
        broadcast use vstd::multiset::group_multiset_axioms;

    }

    /// A lookup misses a node of the map with the probe's hash only when
    /// `eq` turned that node down: when neither table's slot chain holds a
    /// match, every such node was answered `false`.
    pub proof fn law_lookup_misses_only_rejected<F: Fn(&HNode, &HNode) -> bool>(&self, node: HNode, eq: F)
        requires
            self.wf(),
            none_in(self.newer(), node, eq),
            self.older() matches Some(o) ==> none_in(o, node, eq),
        ensures
            forall|n: HNode|
                #![trigger self.contents().count(n)]
                self.contents().count(n) > 0 && n.spec_hash() == node.spec_hash() ==> eq.ensures(
                    (&n, &node),
                    false,
                ),
    {
        broadcast use vstd::multiset::group_multiset_axioms;

        assert forall|n: HNode|
            #![trigger self.contents().count(n)]
            self.contents().count(n) > 0 && n.spec_hash() == node.spec_hash() implies eq.ensures(
            (&n, &node),
            false,
        ) by {
            if self.newer.contents().count(n) > 0 {
                self.newer.lemma_node_in_its_slot(n);
                let c = self.newer@[slot_of(n.spec_hash(), self.newer.mask)];
                let j = choose|j: int| 0 <= j < c.len() && c[j] == n;
                assert(rejected(eq, c[j], node));
            } else {
                let o = self.older->0;
                o.lemma_node_in_its_slot(n);
                let c = o@[slot_of(n.spec_hash(), o.mask)];
                let j = choose|j: int| 0 <= j < c.len() && c[j] == n;
                assert(rejected(eq, c[j], node));
            }
        }
    }

    /// A node stored in the map is found by a lookup whose `eq` always
    /// accepts that node against itself: such a lookup cannot answer `None`.
    pub proof fn law_stored_node_is_found<F: Fn(&HNode, &HNode) -> bool>(&self, n: HNode, eq: F)
        requires
            self.wf(),
            self.contents().count(n) > 0,
            forall|b: bool| eq.ensures((&n, &n), b) ==> b,
        ensures
            !(none_in(self.newer(), n, eq) && (self.older() matches Some(o) ==> none_in(o, n, eq))),
    {
        if none_in(self.newer(), n, eq) && (self.older() matches Some(o) ==> none_in(o, n, eq)) {
            self.law_lookup_misses_only_rejected(n, eq);
            assert(eq.ensures((&n, &n), false));
        }
    }

    /// A lookup's answer is the probe itself when the probe is the only
    /// stored node that `eq` can accept for it.
    pub proof fn law_unique_match_is_the_node<F: Fn(&HNode, &HNode) -> bool>(
        &self,
        n: HNode,
        eq: F,
        q: HNode,
    )
        requires
            self.contents().count(q) > 0,
            q.spec_hash() == n.spec_hash(),
            eq.ensures((&q, &n), true),
            forall|p: HNode|
                #![trigger self.contents().count(p)]
                self.contents().count(p) > 0 && p.spec_hash() == n.spec_hash() && p != n
                    ==> !eq.ensures((&p, &n), true),
        ensures
            q == n,
    {
    }

    /// Searches the newer table, then the older one, for the first node
    /// with `node`'s hash that `eq` accepts.
    pub fn lookup<F: Fn(&HNode, &HNode) -> bool>(&self, node: &HNode, eq: F) -> (r: Option<&HNode>)
        requires
            self.wf(),
            forall|a: &HNode, b: &HNode| eq.requires((a, b)),
        ensures
            match r {
                Some(n) => {
                    ||| found_in(self.newer(), *node, eq, *n)
                    ||| {
                        &&& none_in(self.newer(), *node, eq)
                        &&& self.older() matches Some(o)
                        &&& found_in(o, *node, eq, *n)
                    }
                },
                None => {
                    &&& none_in(self.newer(), *node, eq)
                    &&& self.older() matches Some(o) ==> none_in(o, *node, eq)
                },
            },
            r matches Some(n) ==> {
                &&& n.spec_hash() == node.spec_hash()
                &&& eq.ensures((n, node), true)
                &&& self.contents().count(*n) > 0
            },
            r is None ==> forall|n: HNode|
                #![trigger self.contents().count(n)]
                self.contents().count(n) > 0 && n.spec_hash() == node.spec_hash() ==> eq.ensures(
                    (&n, node),
                    false,
                ),
    {
        broadcast use vstd::multiset::group_multiset_axioms;

        match self.newer.lookup(node, &eq) {
            Some((s, i)) => {
                proof {
                    lemma_flatten_has(self.newer@, s as int, i as int);
                }
                return Some(&self.newer.tab[s][i]);
            },
            None => {},
        }
        match &self.older {
            Some(o) => match o.lookup(node, &eq) {
                Some((s, i)) => {
                    proof {
                        lemma_flatten_has(o@, s as int, i as int);
                    }
                    Some(&o.tab[s][i])
                },
                None => {
                    proof {
                        self.law_lookup_misses_only_rejected(*node, eq);
                    }
                    None
                },
            },
            None => {
                proof {
                    self.law_lookup_misses_only_rejected(*node, eq);
                }
                None
            },
        }
    }

    /// What an insertion does to the shape of a map in state `before`,
    /// giving `after` and `r`: one more key; an error exactly when a rehash
    /// is due and the table cannot grow; a table twice as large when a
    /// rehash starts; and no rehash running after it when none ran and none
    /// started.
    pub open spec fn insert_shape(before: HashMap, after: HashMap, r: Result<(), HashMapError>) -> bool {
        &&& after.spec_len() == before.spec_len() + 1
        &&& (r is Err <==> Self::rehash_due(before) && !can_grow(before.newer().spec_mask()))
        &&& (r matches Err(e) ==> e matches HashMapError::InnerHashTableError(
            InnerHashTableError::LayoutError(_),
        ))
        &&& after.newer().spec_mask() + 1 == if Self::rehash_due(before) && r is Ok {
            2 * (before.newer().spec_mask() + 1)
        } else {
            before.newer().spec_mask() + 1
        }
        &&& (before.older() is None && (!Self::rehash_due(before) || r is Err) ==> after.older() is None)
    }

    /// Files `node` in the newer table, starts a rehash when the newer table
    /// reaches the load factor, then moves up to `K_REHASHING_WORK` keys of
    /// a running rehash.
    pub fn insert(&mut self, node: HNode) -> (r: Result<(), HashMapError>)
        requires
            old(self).wf(),
            old(self).spec_len() < usize::MAX,
        ensures
            final(self).wf(),
            final(self).contents() =~= old(self).contents().insert(node),
            Self::insert_shape(*old(self), *final(self), r),
            r is Ok && final(self).older() is None ==> final(self).newer().spec_len()
                < K_MAX_LOAD_FACTOR * (final(self).newer().spec_mask() + 1),
            old(self).older() is None && (!Self::rehash_due(*old(self)) || r is Err)
                ==> final(self).newer().contents() =~= old(self).newer().contents().insert(node),
            old(self).older() matches Some(o) ==> {
                let k = moved(o.spec_len() as int);
                &&& final(self).newer().contents() =~= old(self).newer().contents().insert(
                    node,
                ).add(o.nodes().take(k).to_multiset())
                &&& final(self).older_len() == o.spec_len() - k
                &&& final(self).older() matches Some(o2) ==> o2.nodes() =~= o.nodes().skip(k)
            },
            Self::rehash_due(*old(self)) && r is Ok ==> {
                let t = old(self).newer().view_with(node).flatten();
                let k = moved(t.len() as int);
                &&& final(self).newer().contents() =~= t.take(k).to_multiset()
                &&& final(self).older_len() == t.len() - k
                &&& final(self).older() matches Some(o2) ==> o2.nodes() =~= t.skip(k)
            },
    {
        broadcast use vstd::multiset::group_multiset_axioms;

        let _ = self.newer.insert(node);
        if self.older.is_none() {
            let slots: usize = self.newer.tab.len();
            proof {
                broadcast use vstd::layout::layout_of_primitives;

                self.newer.lemma_wf_facts();
                assert(vstd::layout::size_of::<usize>() >= 4) by {
                    assert(usize::BITS == 32 || usize::BITS == 64);
                }
                assert(slots * 8 <= usize::MAX) by (nonlinear_arith)
                    requires
                        slots * vstd::layout::size_of::<usize>() <= isize::MAX,
                        vstd::layout::size_of::<usize>() >= 4,
                        isize::MAX < usize::MAX / 2 + 1,
                ;
            }
            let threshold: usize = slots * K_MAX_LOAD_FACTOR;
            if self.newer.len() >= threshold {
                match self.start_rehash() {
                    Ok(()) => {
                        proof {
                            let b = K_MAX_LOAD_FACTOR * (old(self).newer().spec_mask() + 1);
                            lemma_debt_after_growth(b, b);
                        }
                    },
                    Err(e) => {
                        return Err(e);
                    },
                }
            }
        }
        self.migrate();
        proof {
            if old(self).older() is None && Self::rehash_due(*old(self)) {
                assert(self.newer().contents() =~= Multiset::empty().add(
                    old(self).newer().view_with(node).flatten().take(
                        moved(old(self).newer().view_with(node).flatten().len() as int),
                    ).to_multiset(),
                ));
            }
        }
        Ok(())
    }

    /// Unlinks and hands back the first node with `node`'s hash that `eq`
    /// accepts, searching the newer table, then the older one.
    pub fn delete<F: Fn(&HNode, &HNode) -> bool>(&mut self, node: &HNode, eq: F) -> (r: Option<
        HNode,
    >)
        requires
            old(self).wf(),
            forall|a: &HNode, b: &HNode| eq.requires((a, b)),
        ensures
            final(self).wf(),
            match r {
                Some(n) => {
                    &&& found_in(old(self).newer(), *node, eq, n) || {
                        &&& none_in(old(self).newer(), *node, eq)
                        &&& old(self).older() matches Some(o)
                        &&& found_in(o, *node, eq, n)
                    }
                    &&& n.spec_hash() == node.spec_hash()
                    &&& eq.ensures((&n, node), true)
                    &&& old(self).contents().count(n) > 0
                    &&& final(self).contents() =~= old(self).contents().remove(n)
                    &&& final(self).spec_len() == old(self).spec_len() - 1
                },
                None => {
                    &&& none_in(old(self).newer(), *node, eq)
                    &&& old(self).older() matches Some(o) ==> none_in(o, *node, eq)
                    &&& *final(self) == *old(self)
                },
            },
    {
        broadcast use vstd::multiset::group_multiset_axioms;

        if let Some(link) = self.newer.lookup(node, &eq) {
            proof {
                lemma_flatten_has(self.newer@, link.0 as int, link.1 as int);
            }
            return self.newer.detach(link);
        }
        let mut older = match self.older.take() {
            Some(o) => o,
            None => {
                return None;
            },
        };
        let r = match older.lookup(node, &eq) {
            Some(link) => {
                proof {
                    lemma_flatten_has(older@, link.0 as int, link.1 as int);
                }
                let ghost before = older;
                let d = older.detach(link);
                proof {
                    assert forall|i: int| 0 <= i < self.migrate_pos implies (#[trigger] older@[i]).len()
                        == 0 by {
                        if i == link.0 {
                            assert(before@[i].len() > 0);
                        }
                        assert(older@[i] == before@[i]);
                    }
                }
                d
            },
            None => None,
        };
        self.older = Some(older);
        r
    }

    /// Moves up to `K_REHASHING_WORK` keys from the older table into the
    /// newer one, the older table's first nodes in slot and chain order, and
    /// drops the older table once it is empty.
    fn migrate(&mut self)
        requires
            old(self).wf_core(),
        ensures
            final(self).wf_core(),
            old(self).older() is Some ==> final(self).load() < old(self).load(),
            final(self).contents() =~= old(self).contents(),
            final(self).spec_len() == old(self).spec_len(),
            final(self).newer().spec_mask() == old(self).newer().spec_mask(),
            final(self).older_len() == if old(self).older_len() > K_REHASHING_WORK {
                old(self).older_len() - K_REHASHING_WORK
            } else {
                0
            },
            final(self).older() is None <==> (old(self).older() is None || old(self).older_len()
                <= K_REHASHING_WORK),
            old(self).older() is None ==> *final(self) == *old(self),
            old(self).older() matches Some(o) ==> {
                let k = moved(o.spec_len() as int);
                &&& final(self).newer().contents() =~= old(self).newer().contents().add(
                    o.nodes().take(k).to_multiset(),
                )
                &&& final(self).older() matches Some(o2) ==> o2.nodes() =~= o.nodes().skip(k)
            },
    {
        let mut older = match self.older.take() {
            Some(o) => o,
            None => {
                return;
            },
        };
        let ghost start_older = older;
        let ghost start_newer = self.newer;
        let mut keys_moved: usize = 0;
        proof {
            broadcast use vstd::multiset::group_multiset_axioms;
            broadcast use vstd::seq_lib::to_multiset_contains;
            let none = start_older.nodes().take(0);
            assert forall|n: HNode| none.to_multiset().count(n) == 0 by {
                assert(!none.contains(n));
            }
            assert(none.to_multiset() =~= Multiset::empty());
            assert(start_older.nodes().skip(0) =~= start_older.nodes());
        }
        while keys_moved < K_REHASHING_WORK && older.len() > 0
            invariant
                older.wf(),
                start_older.wf(),
                self.newer.wf(),
                self.newer.spec_mask() == start_newer.spec_mask(),
                self.older is None,
                self.migrate_pos <= older@.len(),
                forall|i: int| 0 <= i < self.migrate_pos ==> (#[trigger] older@[i]).len() == 0,
                older@.len() == start_older@.len(),
                keys_moved <= K_REHASHING_WORK,
                keys_moved + older.spec_len() == start_older.spec_len(),
                self.newer.spec_len() + older.spec_len() == start_newer.spec_len()
                    + start_older.spec_len(),
                start_newer.spec_len() + start_older.spec_len() <= usize::MAX,
                self.newer.contents().add(older.contents()) =~= start_newer.contents().add(
                    start_older.contents(),
                ),
                older.nodes() =~= start_older.nodes().skip(keys_moved as int),
                self.newer.contents() =~= start_newer.contents().add(
                    start_older.nodes().take(keys_moved as int).to_multiset(),
                ),
            ensures
                keys_moved == K_REHASHING_WORK || older.spec_len() == 0,
            decreases older.spec_len(), older@.len() - self.migrate_pos,
        {
            if self.migrate_pos >= older.tab.len() {
                proof {
                    assert forall|i: int| 0 <= i < older@.len() implies (#[trigger] older@[i]).len()
                        == 0 by {}
                    lemma_flatten_all_empty(older@);
                    assert(false);
                }
                break;
            }
            if older.tab[self.migrate_pos].len() == 0 {
                self.migrate_pos = self.migrate_pos + 1;
                continue;
            }
            let ghost before_newer = self.newer;
            let ghost before_older = older;
            let node = match older.detach((self.migrate_pos, 0)) {
                Some(n) => n,
                None => {
                    proof {
                        assert(false);
                    }
                    break;
                },
            };
            let _ = self.newer.insert(node);
            keys_moved = keys_moved + 1;
            proof {
                broadcast use vstd::multiset::group_multiset_axioms;
                broadcast use vstd::seq_lib::to_multiset_len;
                assert forall|i: int| 0 <= i < self.migrate_pos implies (#[trigger] older@[i]).len()
                    == 0 by {
                    assert(older@[i] == before_older@[i]);
                }
                lemma_flatten_has(before_older@, self.migrate_pos as int, 0);
                assert(before_older.contents().count(node) > 0);
                let c = before_older@;
                let p = self.migrate_pos as int;
                lemma_flatten_update(c, p, c[p].remove(0));
                assert forall|i: int| 0 <= i < c.take(p).len() implies (#[trigger] c.take(p)[i]).len()
                    == 0 by {
                    assert(c.take(p)[i] == c[i]);
                }
                lemma_flatten_all_empty(c.take(p));
                assert(c.take(p).flatten() =~= Seq::<HNode>::empty());
                assert(older@ =~= c.update(p, c[p].remove(0)));
                assert(older.nodes() =~= before_older.nodes().skip(1));
                assert(node == before_older.nodes()[0]);
                let k = (keys_moved - 1) as int;
                let all = start_older.nodes();
                assert(before_older.nodes() =~= all.skip(k));
                assert(0 < before_older.nodes().len());
                assert(all.skip(k)[0] == all[k]);
                assert(node == all[k]);
                assert(older.nodes() =~= all.skip(k + 1));
                assert(all.take(k + 1) =~= all.take(k).push(node));
                vstd::seq_lib::to_multiset_build(all.take(k), node);
                assert(self.newer.contents() =~= start_newer.contents().add(
                    all.take(k + 1).to_multiset(),
                ));
                assert(self.newer.contents().add(older.contents()) =~= before_newer.contents().add(
                    before_older.contents(),
                ));
            }
        }
        proof {
            assert(keys_moved as int == if start_older.spec_len() > K_REHASHING_WORK {
                K_REHASHING_WORK as int
            } else {
                start_older.spec_len() as int
            });
        }
        proof {
            assert(start_older.spec_len() > 0 ==> (start_older.spec_len() + K_REHASHING_WORK - 1)
                / K_REHASHING_WORK as int >= 1);
            if older.spec_len() > 0 {
                assert(keys_moved == K_REHASHING_WORK);
                assert((older.spec_len() + K_REHASHING_WORK - 1) / K_REHASHING_WORK as int + 1 == (
                start_older.spec_len() + K_REHASHING_WORK - 1) / K_REHASHING_WORK as int);
            }
        }
        if older.len() > 0 {
            self.older = Some(older);
        } else {
            proof {
                broadcast use vstd::seq_lib::to_multiset_len;
                broadcast use vstd::multiset::group_multiset_axioms;
                assert(older.contents().len() == 0);
                assert(older.contents() =~= Multiset::empty());
            }
        }
    }

    /// Moves up to `K_REHASHING_WORK` keys from the older table into the
    /// newer one, the older table's first nodes in slot and chain order, and
    /// drops the older table once it is empty.
    pub fn help_rehashing(&mut self) -> (r: Result<(), HashMapError>)
        requires
            old(self).wf(),
        ensures
            r is Ok,
            final(self).wf(),
            final(self).contents() =~= old(self).contents(),
            final(self).spec_len() == old(self).spec_len(),
            final(self).newer().spec_mask() == old(self).newer().spec_mask(),
            final(self).older_len() == old(self).older_len() - moved(old(self).older_len() as int),
            final(self).older() is None <==> (old(self).older() is None || old(self).older_len()
                <= K_REHASHING_WORK),
            old(self).older() is None ==> *final(self) == *old(self),
            old(self).older() matches Some(o) ==> {
                let k = moved(o.spec_len() as int);
                &&& final(self).newer().contents() =~= old(self).newer().contents().add(
                    o.nodes().take(k).to_multiset(),
                )
                &&& final(self).older() matches Some(o2) ==> o2.nodes() =~= o.nodes().skip(k)
            },
    {
        self.migrate();
        Ok(())
    }
}

impl Default for HashMap {
    /// An empty map of a single slot, with no rehash running.
    fn default() -> (m: Self)
        ensures
            m.wf(),
            m.older() is None,
            m.newer().spec_mask() == 0,
            m.spec_len() == 0,
            m.contents() =~= Multiset::empty(),
    {
        let t = InnerHashTable::default();
        proof {
            broadcast use vstd::seq_lib::to_multiset_len;
            broadcast use vstd::multiset::group_multiset_axioms;

            t.lemma_wf_facts();
            assert(t.contents().len() == 0);
        }
        Self { newer: t, older: None, migrate_pos: 0 }
    }
}

/// The number of slots of a table made by `HashTable::default`.
pub const DEFAULT_HASH_TABLE_INIT_SIZE: usize = 4;

/// The hash under which a key is filed: its length in UTF-8 bytes.
pub open spec fn key_hash(key: Seq<char>) -> u64 {
    (vstd::utf8::encode_utf8(key).len() as usize) as u64
}

/// Whether some pair of `entries` has the key `key`.
pub open spec fn has_key(entries: Seq<(Seq<char>, Seq<char>)>, key: Seq<char>) -> bool {
    exists|i: int| 0 <= i < entries.len() && #[trigger] entries[i].0 == key
}

/// A key that was inserted is there to be found.
pub proof fn law_inserted_key_is_present(
    entries: Seq<(Seq<char>, Seq<char>)>,
    key: Seq<char>,
    value: Seq<char>,
)
    ensures
        has_key(entries.push((key, value)), key),
{
    let after = entries.push((key, value));
    assert(after[entries.len() as int].0 == key);
}

/// Inserting a pair leaves every other key as present or absent as before.
pub proof fn law_insert_keeps_other_keys(
    entries: Seq<(Seq<char>, Seq<char>)>,
    key: Seq<char>,
    value: Seq<char>,
    other: Seq<char>,
)
    requires
        other != key,
    ensures
        has_key(entries.push((key, value)), other) == has_key(entries, other),
{
    let after = entries.push((key, value));
    if has_key(entries, other) {
        let i = choose|i: int| 0 <= i < entries.len() && #[trigger] entries[i].0 == other;
        assert(after[i].0 == other);
    }
    if has_key(after, other) {
        let i = choose|i: int| 0 <= i < after.len() && #[trigger] after[i].0 == other;
        assert(entries[i].0 == other);
    }
}

/// After a key that was absent is inserted, every pair with that key holds
/// the inserted value, so a lookup of the key gives exactly that value.
pub proof fn law_fresh_key_reads_back_its_value(
    entries: Seq<(Seq<char>, Seq<char>)>,
    key: Seq<char>,
    value: Seq<char>,
)
    requires
        !has_key(entries, key),
    ensures
        forall|i: int|
            0 <= i < entries.len() + 1 && #[trigger] entries.push((key, value))[i].0 == key
                ==> entries.push((key, value))[i].1 == value,
{
    assert forall|i: int|
        0 <= i < entries.len() + 1 && #[trigger] entries.push((key, value))[i].0 == key implies entries.push(
        (key, value),
    )[i].1 == value by {
        if i < entries.len() {
            assert(entries[i].0 == key);
        }
    }
}

/// A string-keyed table of string values, stored as a `HashMap` of nodes
/// that each refer to one key-value entry.
#[derive(Debug)]
pub struct HashTable {
    _inner: HashMap,
    entries: Vec<(String, String)>,
}

/// The node that stands for entry `i` of `entries`.
pub closed spec fn entry_node(entries: Seq<(String, String)>, i: int) -> HNode {
    HNode { hash: key_hash(entries[i].0@), entry: i as usize }
}

/// The nodes that stand for all of `entries`.
pub closed spec fn entry_nodes(entries: Seq<(String, String)>) -> Multiset<HNode> {
    Seq::new(entries.len(), |i: int| entry_node(entries, i)).to_multiset()
}

impl View for HashTable {
    type V = Seq<(Seq<char>, Seq<char>)>;

    /// The key-value pairs, in the order they were inserted.
    closed spec fn view(&self) -> Seq<(Seq<char>, Seq<char>)> {
        self.entries@.map_values(|e: (String, String)| (e.0@, e.1@))
    }
}

impl HashTable {
    /// The map of nodes underneath.
    pub closed spec fn map(&self) -> HashMap {
        self._inner
    }

    /// The table's invariant: the map sound and holding exactly one node
    /// for each entry.
    pub closed spec fn wf(&self) -> bool {
        &&& self._inner.wf()
        &&& self._inner.contents() =~= entry_nodes(self.entries@)
        &&& self._inner.spec_len() == self.entries@.len()
    }

    /// The map underneath is sound and holds one key per entry.
    pub proof fn lemma_map_counts_entries(&self)
        requires
            self.wf(),
        ensures
            self.map().wf(),
            self.map().spec_len() == self@.len(),
    {
    }

    /// An empty table of `size` slots.
    pub fn new(size: usize) -> (t: Self)
        requires
            valid_table_size(size),
        ensures
            t.wf(),
            t@ == Seq::<(Seq<char>, Seq<char>)>::empty(),
            t.map().older() is None,
            t.map().newer().spec_mask() == size - 1,
            t.map().spec_len() == 0,
    {
        let inner = HashMap::init(size).expect("Internal failure to create a `HashMap`");
        let t = Self { _inner: inner, entries: Vec::new() };
        proof {
            broadcast use vstd::multiset::group_multiset_axioms;
            broadcast use vstd::seq_lib::to_multiset_contains;
            let ns = Seq::new(0, |i: int| entry_node(t.entries@, i));
            assert forall|n: HNode| ns.to_multiset().count(n) == 0 by {
                assert(!ns.contains(n));
            }
            assert(ns.to_multiset() =~= Multiset::empty());
            assert(t@ =~= Seq::<(Seq<char>, Seq<char>)>::empty());
        }
        t
    }

    /// Adds the pair `key`, `value`, filed under the length of `key`.
    pub fn insert(&mut self, key: String, value: String) -> (r: Result<(), HashMapError>)
        requires
            old(self).wf(),
            old(self)@.len() < usize::MAX,
        ensures
            final(self).wf(),
            final(self)@ == old(self)@.push((key@, value@)),
            HashMap::insert_shape(old(self).map(), final(self).map(), r),
    {
        let hash: u64 = key.as_str().len() as u64;
        let idx: usize = self.entries.len();
        let ghost old_entries = self.entries@;
        self.entries.push((key, value));
        let node = HNode { hash, entry: idx };
        proof {
            let f = |i: int| entry_node(self.entries@, i);
            let g = |i: int| entry_node(old_entries, i);
            assert forall|i: int| 0 <= i < old_entries.len() implies #[trigger] f(i) == g(i) by {
                assert(self.entries@[i] == old_entries[i]);
            }
            assert(f(idx as int) == node);
            assert(Seq::new(self.entries@.len(), f) =~= Seq::new(old_entries.len(), g).push(node));
            vstd::seq_lib::to_multiset_build(Seq::new(old_entries.len(), g), node);
            assert(self@ =~= old(self)@.push((key@, value@)));
        }
        self._inner.insert(node)
    }

    /// The value of an entry whose key is `key`, if there is one.
    pub fn lookup(&self, key: String) -> (r: Option<&String>)
        requires
            self.wf(),
        ensures
            r is Some <==> has_key(self@, key@),
            r matches Some(v) ==> exists|i: int|
                0 <= i < self@.len() && #[trigger] self@[i].0 == key@ && self@[i].1 == v@,
    {
        let entries = &self.entries;
        let wanted = &key;
        let eq = |stored: &HNode, _probe: &HNode| -> (b: bool)
            ensures
                b == (stored.entry < entries@.len() && entries@[stored.entry as int].0@ == wanted@),
            {
                stored.entry < entries.len() && entries[stored.entry].0 == *wanted
            };
        let probe = HNode { hash: key.as_str().len() as u64, entry: 0 };
        match self._inner.lookup(&probe, eq) {
            Some(n) => {
                let v = &self.entries[n.entry].1;
                assert(self@[n.entry as int].0 == key@);
                Some(v)
            },
            None => {
                proof {
                    broadcast use vstd::seq_lib::to_multiset_contains;
                    assert forall|i: int| 0 <= i < self@.len() implies #[trigger] self@[i].0
                        != key@ by {
                        let ns = Seq::new(self.entries@.len(), |k: int| entry_node(self.entries@, k));
                        let n = entry_node(self.entries@, i);
                        assert(ns[i] == n);
                        assert(ns.contains(n));
                        assert(self._inner.contents().count(n) > 0);
                        if self@[i].0 == key@ {
                            assert(n.spec_hash() == probe.spec_hash());
                            assert(eq.ensures((&n, &probe), false));
                        }
                    }
                }
                None
            },
        }
    }

    /// The key of the entry that node `n` stands for, when it stands for one.
    pub open spec fn key_of(&self, n: HNode) -> Option<Seq<char>> {
        if n.entry() < self@.len() {
            Some(self@[n.entry() as int].0)
        } else {
            None
        }
    }

    /// Whether nodes `a` and `b` stand for entries of this table with the
    /// same key; `false` when either stands for no entry of it.
    pub fn same_key(&self, a: &HNode, b: &HNode) -> (r: bool)
        ensures
            r == (self.key_of(*a) is Some && self.key_of(*b) is Some && self.key_of(*a)
                == self.key_of(*b)),
    {
        if a.entry >= self.entries.len() || b.entry >= self.entries.len() {
            return false;
        }
        self.entries[a.entry].0 == self.entries[b.entry].0
    }

    /// Does nothing.
    pub fn get(&self) {
    }

    /// The number of entries in the table.
    pub fn len(&self) -> (n: usize)
        requires
            self.wf(),
        ensures
            n == self@.len(),
    {
        let mut len: usize = self._inner.newer.len();
        if let Some(old_table) = &self._inner.older {
            len = len + old_table.len();
        }
        len
    }

    /// An iterator over the table.
    pub fn iter(&self) -> (it: HashTableIter<'_>)
        requires
            self.wf(),
        ensures
            it.table() == self,
            it.pos() == 0,
            it.len() == self@.len(),
    {
        HashTableIter::new(&self)
    }
}

impl Default for HashTable {
    /// An empty table of `DEFAULT_HASH_TABLE_INIT_SIZE` slots.
    fn default() -> (t: Self)
        ensures
            t.wf(),
            t@ == Seq::<(Seq<char>, Seq<char>)>::empty(),
            t.map().older() is None,
            t.map().newer().spec_mask() == DEFAULT_HASH_TABLE_INIT_SIZE - 1,
            t.map().spec_len() == 0,
    {
        proof {
            broadcast use vstd::layout::layout_of_primitives;

            assert(((4usize - 1) as usize & 4usize) == 0) by (bit_vector);
            assert(usize::BITS == 32 || usize::BITS == 64);
        }
        Self::new(DEFAULT_HASH_TABLE_INIT_SIZE)
    }
}

/// A cursor over a `HashTable`; it hands out nothing.
pub struct HashTableIter<'a> {
    table: &'a HashTable,
    pos: usize,
    len: usize,
}

impl<'a> HashTableIter<'a> {
    pub closed spec fn table(&self) -> &'a HashTable {
        self.table
    }

    pub closed spec fn pos(&self) -> usize {
        self.pos
    }

    pub closed spec fn len(&self) -> usize {
        self.len
    }

    /// A cursor at the start of `ht`, which records how many entries it has.
    pub fn new(ht: &'a HashTable) -> (it: Self)
        requires
            ht.wf(),
        ensures
            it.table() == ht,
            it.pos() == 0,
            it.len() == ht@.len(),
    {
        Self { table: ht, pos: 0, len: ht.len() }
    }

    /// Always `None`: no entry is handed out.
    pub fn next(&mut self) -> (r: Option<&'a str>)
        ensures
            r is None,
            *final(self) == *old(self),
    {
        None
    }
}

} // verus!
