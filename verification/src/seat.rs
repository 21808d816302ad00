//! The seat's focus: which view holds the keyboard, which container is selected, and the
//! order in which everything was last focused.
//!
//! There is one order for the whole workspace, most recent first. Which child a switcher
//! shows, and which view a descent lands on, are both read from it.

use crate::axis::NodeKey;
use vstd::prelude::*;

verus! {

/// The seat as a value: the focus order, the focused view and the selected container.
pub struct Seat {
    pub order: Seq<NodeKey>,
    pub leaf: Option<NodeKey>,
    pub selected: Option<NodeKey>,
}

/// The entries of `order` that belong to `live`, in their sequence.
pub open spec fn within(order: Seq<NodeKey>, live: Set<NodeKey>) -> Seq<NodeKey>
    decreases order.len(),
{
    if order.len() == 0 {
        order
    } else if live.contains(order.last()) {
        within(order.drop_last(), live).push(order.last())
    } else {
        within(order.drop_last(), live)
    }
}

/// `order` with every occurrence of `key` taken out.
pub open spec fn without(order: Seq<NodeKey>, key: NodeKey) -> Seq<NodeKey> {
    within(order, Set::full().remove(key))
}

/// `order` with `key` moved to the front.
pub open spec fn fronted(order: Seq<NodeKey>, key: NodeKey) -> Seq<NodeKey> {
    seq![key] + without(order, key)
}

/// `order` with the whole of `chain` moved to the front, its first entry foremost.
pub open spec fn raised(order: Seq<NodeKey>, chain: Seq<NodeKey>) -> Seq<NodeKey>
    decreases chain.len(),
{
    if chain.len() == 0 {
        order
    } else {
        fronted(raised(order, chain.drop_first()), chain[0])
    }
}

/// `order` with the entries of `keys` it lacks inserted from index `at` on, in their sequence.
pub open spec fn restored(order: Seq<NodeKey>, at: int, keys: Seq<NodeKey>) -> Seq<NodeKey>
    decreases keys.len(),
{
    if keys.len() == 0 {
        order
    } else if order.contains(keys[0]) {
        restored(order, at, keys.drop_first())
    } else {
        restored(order.insert(at, keys[0]), at + 1, keys.drop_first())
    }
}

/// `slot`, or `new` when it names `old`.
pub open spec fn renamed(slot: Option<NodeKey>, old: NodeKey, new: NodeKey) -> Option<NodeKey> {
    if slot == Some(old) {
        Some(new)
    } else {
        slot
    }
}

/// `slot`, or nothing when it names `gone`.
pub open spec fn cleared_of(slot: Option<NodeKey>, gone: NodeKey) -> Option<NodeKey> {
    if slot == Some(gone) {
        None
    } else {
        slot
    }
}

/// `slot`, or nothing when it names a node outside `live`.
pub open spec fn kept_in(slot: Option<NodeKey>, live: Set<NodeKey>) -> Option<NodeKey> {
    match slot {
        Some(key) if !live.contains(key) => None,
        _ => slot,
    }
}

impl Seat {
    /// The node commands act on: the selected container, else the focused view.
    pub open spec fn node(self) -> Option<NodeKey> {
        if self.selected is Some {
            self.selected
        } else {
            self.leaf
        }
    }

    pub open spec fn focus(self, chain: Seq<NodeKey>, leaf: Option<NodeKey>) -> Seat {
        Seat { order: raised(self.order, chain), leaf, selected: None }
    }

    pub open spec fn select(
        self,
        chain: Seq<NodeKey>,
        container: NodeKey,
        leaf: Option<NodeKey>,
    ) -> Seat {
        Seat { order: raised(self.order, chain), leaf, selected: Some(container) }
    }

    pub open spec fn raw_focus(self, key: NodeKey) -> Seat {
        Seat { order: fronted(self.order, key), ..self }
    }

    pub open spec fn register(self, key: NodeKey) -> Seat {
        if self.order.contains(key) {
            self
        } else {
            Seat { order: self.order.push(key), ..self }
        }
    }

    pub open spec fn unregister(self, key: NodeKey) -> Seat {
        Seat {
            order: without(self.order, key),
            leaf: cleared_of(self.leaf, key),
            selected: cleared_of(self.selected, key),
        }
    }

    pub open spec fn replace(self, old: NodeKey, new: NodeKey) -> Seat {
        Seat {
            order: if self.order.contains(old) {
                self.order.update(self.order.index_of_first(old)->0, new)
            } else {
                self.order
            },
            leaf: renamed(self.leaf, old, new),
            selected: renamed(self.selected, old, new),
        }
    }

    pub open spec fn prune(self, live: Set<NodeKey>) -> Seat {
        Seat {
            order: within(self.order, live),
            leaf: kept_in(self.leaf, live),
            selected: kept_in(self.selected, live),
        }
    }

    /// The seat with `keys` moved to the end of the order, in their own sequence.
    pub open spec fn resequenced(self, keys: Seq<NodeKey>) -> Seat {
        Seat { order: within(self.order, keys.to_set().complement()) + keys, ..self }
    }

    pub open spec fn with_leaf(self, leaf: Option<NodeKey>) -> Seat {
        Seat { leaf, ..self }
    }

    pub open spec fn with_selected(self, selected: Option<NodeKey>) -> Seat {
        Seat { selected, ..self }
    }
}

/// Keeping twice is keeping what both keep.
pub proof fn lemma_within_twice(s: Seq<NodeKey>, a: Set<NodeKey>, b: Set<NodeKey>)
    ensures
        within(within(s, a), b) == within(s, a.intersect(b)),
    decreases s.len(),
{
    if s.len() > 0 {
        lemma_within_twice(s.drop_last(), a, b);
        if a.contains(s.last()) {
            let kept = within(s.drop_last(), a);
            assert(kept.push(s.last()).drop_last() =~= kept);
        }
    }
}

/// Which keys are asked for beyond those listed makes no difference.
pub proof fn lemma_within_agree(s: Seq<NodeKey>, a: Set<NodeKey>, b: Set<NodeKey>)
    requires
        forall|k: NodeKey| #[trigger] s.contains(k) ==> (a.contains(k) <==> b.contains(k)),
    ensures
        within(s, a) == within(s, b),
    decreases s.len(),
{
    if s.len() > 0 {
        let init = s.drop_last();
        assert(s =~= init.push(s.last()));
        lemma_push_contains(init, s.last());
        assert(s.contains(s.last()));
        assert forall|k: NodeKey| #[trigger] init.contains(k) implies (a.contains(k)
            <==> b.contains(k)) by {
            assert(s.contains(k));
        }
        lemma_within_agree(init, a, b);
    }
}

/// What is kept of two lists end to end.
pub proof fn lemma_within_concat(s: Seq<NodeKey>, r: Seq<NodeKey>, live: Set<NodeKey>)
    ensures
        within(s + r, live) == within(s, live) + within(r, live),
    decreases r.len(),
{
    if r.len() == 0 {
        assert(s + r =~= s);
        assert(within(s, live) + within(r, live) =~= within(s, live));
    } else {
        lemma_within_concat(s, r.drop_last(), live);
        assert((s + r).drop_last() =~= s + r.drop_last());
        assert(within(s, live) + within(r.drop_last(), live).push(r.last()) =~= (within(s, live)
            + within(r.drop_last(), live)).push(r.last()));
    }
}

/// Nothing is kept of a list whose keys are not asked for.
pub proof fn lemma_within_none(s: Seq<NodeKey>, live: Set<NodeKey>)
    requires
        forall|k: NodeKey| #[trigger] s.contains(k) ==> !live.contains(k),
    ensures
        within(s, live) == Seq::<NodeKey>::empty(),
{
    lemma_within(s, live);
    if within(s, live).len() > 0 {
        assert(within(s, live).contains(within(s, live)[0]));
    }
    assert(within(s, live) =~= Seq::empty());
}

/// Moving keys to the end leaves the sequence of the others, and takes over theirs.
pub proof fn lemma_resequenced(seat: Seat, keys: Seq<NodeKey>)
    requires
        keys.no_duplicates(),
    ensures
        forall|k: NodeKey| #[trigger]
            seat.resequenced(keys).order.contains(k) <==> seat.order.contains(k) || keys.contains(
                k,
            ),
        seat.order.no_duplicates() ==> seat.resequenced(keys).order.no_duplicates(),
        forall|live: Set<NodeKey>|
            (forall|k: NodeKey| #[trigger] keys.contains(k) ==> !live.contains(k))
                ==> #[trigger] within(seat.resequenced(keys).order, live) == within(
                seat.order,
                live,
            ),
        forall|live: Set<NodeKey>|
            (forall|k: NodeKey| #[trigger] keys.contains(k) <==> live.contains(k))
                ==> #[trigger] within(seat.resequenced(keys).order, live) == keys,
{
    let others = keys.to_set().complement();
    let kept = within(seat.order, others);
    let out = seat.resequenced(keys).order;
    lemma_within(seat.order, others);
    assert(out =~= kept + keys);
    assert forall|k: NodeKey| #[trigger] out.contains(k) <==> seat.order.contains(k)
        || keys.contains(k) by {
        if out.contains(k) {
            let i = choose|i: int| 0 <= i < out.len() && out[i] == k;
            if i < kept.len() {
                assert(kept.contains(kept[i]));
            } else {
                assert(keys[i - kept.len()] == k);
            }
        }
        if keys.contains(k) {
            let i = choose|i: int| 0 <= i < keys.len() && keys[i] == k;
            assert(out[kept.len() + i] == k);
        } else if seat.order.contains(k) {
            assert(kept.contains(k));
            let i = choose|i: int| 0 <= i < kept.len() && kept[i] == k;
            assert(out[i] == k);
        }
    }
    if seat.order.no_duplicates() {
        assert forall|i: int, j: int|
            0 <= i < out.len() && 0 <= j < out.len() && i != j implies out[i] != out[j] by {
            if i < kept.len() {
                assert(kept.contains(kept[i]));
            } else {
                assert(keys.contains(keys[i - kept.len()]));
            }
            if j < kept.len() {
                assert(kept.contains(kept[j]));
            } else {
                assert(keys.contains(keys[j - kept.len()]));
            }
        }
    }
    assert forall|live: Set<NodeKey>|
        (forall|k: NodeKey| #[trigger] keys.contains(k) ==> !live.contains(k)) implies
        #[trigger] within(out, live) == within(seat.order, live) by {
        lemma_within_concat(kept, keys, live);
        lemma_within_none(keys, live);
        lemma_within_twice(seat.order, others, live);
        assert(others.intersect(live) =~= live);
        assert(within(kept, live) + Seq::<NodeKey>::empty() =~= within(kept, live));
    }
    assert forall|live: Set<NodeKey>|
        (forall|k: NodeKey| #[trigger] keys.contains(k) <==> live.contains(k)) implies
        #[trigger] within(out, live) == keys by {
        lemma_within_concat(kept, keys, live);
        lemma_within_all(keys, live);
        assert forall|k: NodeKey| #[trigger] kept.contains(k) implies !live.contains(k) by {
            assert(others.contains(k));
        }
        lemma_within_none(kept, live);
        assert(Seq::<NodeKey>::empty() + keys =~= keys);
    }
}

/// A left-to-right step of `within`.
pub proof fn lemma_within_step(s: Seq<NodeKey>, live: Set<NodeKey>, i: int)
    requires
        0 <= i < s.len(),
    ensures
        within(s.take(i + 1), live) == if live.contains(s[i]) {
            within(s.take(i), live).push(s[i])
        } else {
            within(s.take(i), live)
        },
{
    assert(s.take(i + 1).drop_last() =~= s.take(i));
}

/// What `within` keeps, and that it lists nothing twice that was listed once.
pub proof fn lemma_within(s: Seq<NodeKey>, live: Set<NodeKey>)
    ensures
        forall|a: NodeKey| #[trigger]
            within(s, live).contains(a) <==> s.contains(a) && live.contains(a),
        s.no_duplicates() ==> within(s, live).no_duplicates(),
        within(s, live).len() <= s.len(),
    decreases s.len(),
{
    if s.len() > 0 {
        let init = s.drop_last();
        lemma_within(init, live);
        assert(s =~= init.push(s.last()));
        lemma_push_contains(init, s.last());
        lemma_push_contains(within(init, live), s.last());
        if s.no_duplicates() {
            assert(init.no_duplicates());
            assert(!init.contains(s.last())) by {
                if init.contains(s.last()) {
                    let i = choose|i: int| 0 <= i < init.len() && init[i] == s.last();
                    assert(s[i] == s[s.len() - 1]);
                }
            }
            let f = within(init, live);
            assert(!f.contains(s.last()));
            assert forall|i: int, j: int|
                0 <= i < f.push(s.last()).len() && 0 <= j < f.push(s.last()).len() && i
                    != j implies f.push(s.last())[i] != f.push(s.last())[j] by {
                if i == f.len() {
                    assert(f.contains(f[j]));
                }
                if j == f.len() {
                    assert(f.contains(f[i]));
                }
            }
        }
    }
}

/// Membership after a push.
pub proof fn lemma_push_contains(s: Seq<NodeKey>, last: NodeKey)
    ensures
        forall|a: NodeKey| #[trigger] s.push(last).contains(a) <==> s.contains(a) || a == last,
{
    assert forall|a: NodeKey| #[trigger]
        s.push(last).contains(a) <==> s.contains(a) || a == last by {
        if s.contains(a) {
            let i = choose|i: int| 0 <= i < s.len() && s[i] == a;
            assert(s.push(last)[i] == a);
        }
        assert(s.push(last)[s.len() as int] == last);
        if s.push(last).contains(a) {
            let i = choose|i: int| 0 <= i < s.push(last).len() && s.push(last)[i] == a;
            if i < s.len() {
                assert(s[i] == a);
            }
        }
    }
}

/// Membership after a push at the front.
pub proof fn lemma_front_contains(first: NodeKey, s: Seq<NodeKey>)
    ensures
        forall|a: NodeKey| #[trigger]
            (seq![first] + s).contains(a) <==> a == first || s.contains(a),
{
    let out = seq![first] + s;
    assert forall|a: NodeKey| #[trigger] out.contains(a) <==> a == first || s.contains(a) by {
        if s.contains(a) {
            let i = choose|i: int| 0 <= i < s.len() && s[i] == a;
            assert(out[i + 1] == a);
        }
        if out.contains(a) {
            let i = choose|i: int| 0 <= i < out.len() && out[i] == a;
            if i > 0 {
                assert(s[i - 1] == a);
            }
        }
        assert(out[0] == first);
    }
}

/// Keeping everything changes nothing.
pub proof fn lemma_within_all(s: Seq<NodeKey>, live: Set<NodeKey>)
    requires
        forall|a: NodeKey| #[trigger] s.contains(a) ==> live.contains(a),
    ensures
        within(s, live) == s,
    decreases s.len(),
{
    if s.len() > 0 {
        let init = s.drop_last();
        assert(s =~= init.push(s.last()));
        lemma_push_contains(init, s.last());
        assert forall|a: NodeKey| #[trigger] init.contains(a) implies live.contains(a) by {
            assert(s.contains(a));
        }
        lemma_within_all(init, live);
        assert(s.contains(s.last()));
    }
}

/// Bringing one key to the front keeps every other key, and no key twice.
pub proof fn lemma_fronted(order: Seq<NodeKey>, key: NodeKey)
    ensures
        fronted(order, key)[0] == key,
        forall|k: NodeKey| #[trigger]
            fronted(order, key).contains(k) <==> k == key || order.contains(k),
        order.no_duplicates() ==> fronted(order, key).no_duplicates(),
{
    lemma_within(order, Set::full().remove(key));
    let rest = without(order, key);
    let out = fronted(order, key);
    lemma_front_contains(key, rest);
    if order.no_duplicates() {
        assert forall|i: int, j: int|
            0 <= i < out.len() && 0 <= j < out.len() && i != j implies out[i] != out[j] by {
            if i > 0 {
                assert(rest.contains(rest[i - 1]));
            }
            if j > 0 {
                assert(rest.contains(rest[j - 1]));
            }
        }
    }
}

/// Raising a chain keeps exactly the nodes of the order and of the chain, and no node twice.
pub proof fn lemma_raised(order: Seq<NodeKey>, chain: Seq<NodeKey>)
    ensures
        forall|k: NodeKey| #[trigger]
            raised(order, chain).contains(k) <==> chain.contains(k) || order.contains(k),
        order.no_duplicates() ==> raised(order, chain).no_duplicates(),
        chain.len() > 0 ==> raised(order, chain)[0] == chain[0],
    decreases chain.len(),
{
    if chain.len() > 0 {
        let rest = chain.drop_first();
        lemma_raised(order, rest);
        lemma_fronted(raised(order, rest), chain[0]);
        assert(chain =~= seq![chain[0]] + rest);
        lemma_front_contains(chain[0], rest);
    }
}

/// The focus of a seat, kept by the operations below and by nothing else.
#[derive(Debug)]
pub struct SeatFocus {
    order: Vec<NodeKey>,
    leaf: Option<NodeKey>,
    selected: Option<NodeKey>,
}

impl View for SeatFocus {
    type V = Seat;

    closed spec fn view(&self) -> Seat {
        Seat { order: self.order@, leaf: self.leaf, selected: self.selected }
    }
}

/// Index of the first entry of `keys` that is `key`.
pub fn position_of(keys: &Vec<NodeKey>, key: NodeKey) -> (r: Option<usize>)
    ensures
        r is Some <==> keys@.contains(key),
        r matches Some(i) ==> i < keys.len() && keys@[i as int] == key && forall|j: int|
            0 <= j < i ==> keys@[j] != key,
{
    let mut i: usize = 0;
    while i < keys.len()
        invariant
            i <= keys.len(),
            forall|j: int| 0 <= j < i ==> keys@[j] != key,
        decreases keys.len() - i,
    {
        if keys[i] == key {
            assert(keys@[i as int] == key);
            return Some(i);
        }
        i = i + 1;
    }
    None
}

fn copy_without(keys: &Vec<NodeKey>, key: NodeKey) -> (r: Vec<NodeKey>)
    ensures
        r@ == without(keys@, key),
{
    let mut out: Vec<NodeKey> = Vec::new();
    let mut i: usize = 0;
    let ghost live = Set::<NodeKey>::full().remove(key);
    assert(keys@.take(0) =~= Seq::empty());
    while i < keys.len()
        invariant
            i <= keys.len(),
            live == Set::<NodeKey>::full().remove(key),
            out@ == within(keys@.take(i as int), live),
        decreases keys.len() - i,
    {
        proof {
            lemma_within_step(keys@, live, i as int);
        }
        if keys[i] != key {
            out.push(keys[i]);
        }
        i = i + 1;
    }
    assert(keys@.take(keys.len() as int) =~= keys@);
    out
}

impl Default for SeatFocus {
    fn default() -> (r: Self)
        ensures
            r@ == (Seat { order: Seq::empty(), leaf: None, selected: None }),
    {
        SeatFocus { order: Vec::new(), leaf: None, selected: None }
    }
}

impl SeatFocus {
    pub fn focused_leaf(&self) -> (r: Option<NodeKey>)
        ensures
            r == self@.leaf,
    {
        self.leaf
    }

    pub fn selected(&self) -> (r: Option<NodeKey>)
        ensures
            r == self@.selected,
    {
        self.selected
    }

    /// Every node, most recently focused first.
    pub fn order(&self) -> (r: &Vec<NodeKey>)
        ensures
            r@ == self@.order,
    {
        &self.order
    }

    /// The node commands act on.
    pub fn node(&self) -> (r: Option<NodeKey>)
        ensures
            r == self@.node(),
    {
        if self.selected.is_some() {
            self.selected
        } else {
            self.leaf
        }
    }

    /// Focus a node: it becomes the most recent, and its ancestry with it. `chain` is the node
    /// first and its ancestors after.
    pub fn focus(&mut self, chain: &Vec<NodeKey>, leaf: Option<NodeKey>)
        ensures
            final(self)@ == old(self)@.focus(chain@, leaf),
    {
        self.raise(chain);
        self.leaf = leaf;
        self.selected = None;
    }

    /// The same, for a container that stays selected.
    pub fn select(&mut self, chain: &Vec<NodeKey>, container: NodeKey, leaf: Option<NodeKey>)
        ensures
            final(self)@ == old(self)@.select(chain@, container, leaf),
    {
        self.raise(chain);
        self.leaf = leaf;
        self.selected = Some(container);
    }

    /// Record that focus is here, without saying anything about the selection.
    pub fn touch(&mut self, chain: &Vec<NodeKey>, leaf: Option<NodeKey>)
        ensures
            final(self)@ == old(self)@.focus(chain@, leaf).with_selected(old(self)@.selected),
    {
        self.raise(chain);
        self.leaf = leaf;
    }

    /// Keyboard focus moves; the order does not.
    pub fn follow_without_raising(&mut self, leaf: NodeKey)
        ensures
            final(self)@ == old(self)@.with_leaf(Some(leaf)),
    {
        self.leaf = Some(leaf);
    }

    pub fn clear(&mut self)
        ensures
            final(self)@ == old(self)@.with_leaf(None).with_selected(None),
    {
        self.leaf = None;
        self.selected = None;
    }

    /// Point the selection at whatever replaces the selected container, raising nothing.
    pub fn redirect_selection(&mut self, container: Option<NodeKey>)
        ensures
            final(self)@ == old(self)@.with_selected(container),
    {
        self.selected = container;
    }

    /// The selection survives a command that only reshaped the tree around it.
    pub fn keep_selected(&mut self, container: NodeKey)
        ensures
            final(self)@ == old(self)@.with_selected(Some(container)),
    {
        self.selected = Some(container);
    }

    /// Point the focused view at whatever takes its place, raising nothing.
    pub fn redirect_focused_leaf(&mut self, leaf: Option<NodeKey>)
        ensures
            final(self)@ == old(self)@.with_leaf(leaf),
    {
        self.leaf = leaf;
    }

    /// Put one node at the head of the order and leave its ancestry where it is.
    pub fn raw_focus(&mut self, key: NodeKey)
        ensures
            final(self)@ == old(self)@.raw_focus(key),
    {
        let mut order = copy_without(&self.order, key);
        order.insert(0, key);
        assert(order@ =~= fronted(self.order@, key));
        self.order = order;
    }

    /// A node entered the tree: it takes the last place in the order.
    pub fn register(&mut self, key: NodeKey)
        ensures
            final(self)@ == old(self)@.register(key),
    {
        if position_of(&self.order, key).is_none() {
            self.order.push(key);
        }
    }

    /// A node left the tree: nothing here names it any more.
    pub fn unregister(&mut self, key: NodeKey)
        ensures
            final(self)@ == old(self)@.unregister(key),
    {
        self.order = copy_without(&self.order, key);
        if self.leaf == Some(key) {
            self.leaf = None;
        }
        if self.selected == Some(key) {
            self.selected = None;
        }
    }

    /// A node took another's place in the tree, and takes its place in the order too.
    pub fn replace(&mut self, old_key: NodeKey, new_key: NodeKey)
        ensures
            final(self)@ == old(self)@.replace(old_key, new_key),
    {
        broadcast use vstd::seq_lib::group_seq_properties;

        if let Some(i) = position_of(&self.order, old_key) {
            proof {
                self.order@.index_of_first_ensures(old_key);
            }
            self.order.set(i, new_key);
        }
        if self.leaf == Some(old_key) {
            self.leaf = Some(new_key);
        }
        if self.selected == Some(old_key) {
            self.selected = Some(new_key);
        }
    }

    /// Take in nodes arriving from outside the tree from place `rank` on, keeping the sequence
    /// they carried. Nothing is raised: arriving is not being focused.
    pub fn restore_at(&mut self, rank: usize, keys: &Vec<NodeKey>)
        ensures
            final(self)@.order == restored(
                old(self)@.order,
                if rank < old(self)@.order.len() {
                    rank as int
                } else {
                    old(self)@.order.len() as int
                },
                keys@,
            ),
            final(self)@.leaf == old(self)@.leaf,
            final(self)@.selected == old(self)@.selected,
    {
        let mut at: usize = if rank < self.order.len() {
            rank
        } else {
            self.order.len()
        };
        let ghost start = at as int;
        let ghost before = self.order@;
        let mut i: usize = 0;
        proof {
            assert(keys@.skip(0) =~= keys@);
        }
        while i < keys.len()
            invariant
                i <= keys.len(),
                at <= self.order.len(),
                restored(before, start, keys@) == restored(
                    self.order@,
                    at as int,
                    keys@.skip(i as int),
                ),
                self.leaf == old(self).leaf,
                self.selected == old(self).selected,
            decreases keys.len() - i,
        {
            let key = keys[i];
            proof {
                assert(keys@.skip(i as int).drop_first() =~= keys@.skip(i as int + 1));
            }
            if position_of(&self.order, key).is_none() {
                self.order.insert(at, key);
                assert(at < self.order.len());
                at = at + 1;
            }
            i = i + 1;
        }
    }

    /// Move `keys` to the end of the order, keeping the sequence they carry.
    pub fn resequence(&mut self, keys: &Vec<NodeKey>)
        requires
            keys@.no_duplicates(),
        ensures
            final(self)@ == old(self)@.resequenced(keys@),
    {
        let ghost others = keys@.to_set().complement();
        let mut kept: Vec<NodeKey> = Vec::new();
        let mut i: usize = 0;
        assert(self.order@.take(0) =~= Seq::empty());
        while i < self.order.len()
            invariant
                i <= self.order@.len(),
                others == keys@.to_set().complement(),
                kept@ == within(self.order@.take(i as int), others),
            decreases self.order@.len() - i,
        {
            proof {
                lemma_within_step(self.order@, others, i as int);
            }
            let key = self.order[i];
            if position_of(keys, key).is_none() {
                kept.push(key);
            }
            i = i + 1;
        }
        assert(self.order@.take(i as int) =~= self.order@);
        let mut j: usize = 0;
        let ghost front = kept@;
        assert(front + keys@.take(0) =~= front);
        while j < keys.len()
            invariant
                j <= keys@.len(),
                kept@ == front + keys@.take(j as int),
            decreases keys@.len() - j,
        {
            kept.push(keys[j]);
            assert(front + keys@.take(j as int + 1) =~= (front + keys@.take(j as int)).push(
                keys@[j as int],
            ));
            j = j + 1;
        }
        assert(keys@.take(j as int) =~= keys@);
        self.order = kept;
    }

    fn raise(&mut self, chain: &Vec<NodeKey>)
        ensures
            final(self)@ == (Seat { order: raised(old(self)@.order, chain@), ..old(self)@ }),
    {
        let mut i: usize = chain.len();
        proof {
            assert(chain@.skip(chain.len() as int) =~= Seq::empty());
        }
        while i > 0
            invariant
                i <= chain.len(),
                self.order@ == raised(old(self)@.order, chain@.skip(i as int)),
                self.leaf == old(self).leaf,
                self.selected == old(self).selected,
            decreases i,
        {
            i = i - 1;
            proof {
                assert(chain@.skip(i as int).drop_first() =~= chain@.skip(i as int + 1));
            }
            self.raw_focus(chain[i]);
        }
        assert(chain@.skip(0) =~= chain@);
    }
}

/// Focusing puts the chain at the head of the order in its own sequence and leaves the rest of
/// the order behind it, in the sequence it had.
pub proof fn law_focus_raises_the_chain_and_keeps_the_rest(
    order: Seq<NodeKey>,
    chain: Seq<NodeKey>,
)
    requires
        chain.no_duplicates(),
    ensures
        raised(order, chain) == chain + within(order, chain.to_set().complement()),
    decreases chain.len(),
{
    if chain.len() == 0 {
        lemma_within_all(order, chain.to_set().complement());
        assert(chain + order =~= order);
    } else {
        let rest = chain.drop_first();
        let head = chain[0];
        law_focus_raises_the_chain_and_keeps_the_rest(order, rest);
        let others = Set::<NodeKey>::full().remove(head);
        assert(chain =~= seq![head] + rest);
        lemma_front_contains(head, rest);
        assert(!rest.contains(head)) by {
            if rest.contains(head) {
                let i = choose|i: int| 0 <= i < rest.len() && rest[i] == head;
                assert(chain[i + 1] == chain[0]);
            }
        }
        assert(rest.to_set().complement().intersect(others) =~= chain.to_set().complement());
        lemma_within_concat(rest, within(order, rest.to_set().complement()), others);
        lemma_within_all(rest, others);
        lemma_within_twice(order, rest.to_set().complement(), others);
        assert(raised(order, chain) =~= chain + within(order, chain.to_set().complement()));
    }
}

/// Focusing neither loses a node from the order nor lists one twice, and the focused node
/// comes first.
pub proof fn law_focus_keeps_the_order_whole(
    seat: Seat,
    chain: Seq<NodeKey>,
    leaf: Option<NodeKey>,
)
    requires
        seat.order.no_duplicates(),
        chain.len() > 0,
        forall|k: NodeKey| chain.contains(k) ==> seat.order.contains(k),
    ensures
        seat.focus(chain, leaf).order.no_duplicates(),
        seat.focus(chain, leaf).order.to_set() == seat.order.to_set(),
        seat.focus(chain, leaf).order[0] == chain[0],
{
    lemma_raised(seat.order, chain);
    assert(seat.focus(chain, leaf).order.to_set() =~= seat.order.to_set());
}

/// A node that enters the order and leaves it again leaves the seat as it was, provided the
/// seat did not name it before.
pub proof fn law_unregister_undoes_register(seat: Seat, key: NodeKey)
    requires
        !seat.order.contains(key),
        seat.leaf != Some(key),
        seat.selected != Some(key),
    ensures
        seat.register(key).unregister(key) == seat,
{
    assert(seat.order.push(key).drop_last() =~= seat.order);
    lemma_within_all(seat.order, Set::full().remove(key));
}

} // verus!
