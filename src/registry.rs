use vstd::prelude::*;

verus! {

/// The identifier of one connection, unique for the lifetime of a process.
pub type ClientId = usize;

/// The mathematical state of a [`ClientRegistry`].
pub struct RegistryView {
    /// The identifier that the next registration hands out.
    pub next: nat,
    /// The identifiers in use, in the order they were registered.
    pub active: Seq<ClientId>,
}

impl RegistryView {
    /// Every identifier in use was handed out before, none is in use twice,
    /// and the counter fits in a `ClientId`.
    pub open spec fn wf(self) -> bool {
        &&& self.next <= usize::MAX
        &&& self.active.no_duplicates()
        &&& forall|i: int| 0 <= i < self.active.len() ==> (#[trigger] self.active[i]) < self.next
    }
}

/// `post` is `pre` after one registration that handed out `id`.
pub open spec fn registers(pre: RegistryView, post: RegistryView, id: ClientId) -> bool {
    &&& id == pre.next
    &&& post.next == pre.next + 1
    &&& post.active == pre.active.push(id)
}

/// Assigns identifiers from a single counter and tracks which are in use.
pub struct ClientRegistry {
    next_id: usize,
    active: Vec<ClientId>,
}

impl View for ClientRegistry {
    type V = RegistryView;

    closed spec fn view(&self) -> RegistryView {
        RegistryView { next: self.next_id as nat, active: self.active@ }
    }
}

impl ClientRegistry {
    pub open spec fn wf(&self) -> bool {
        self@.wf()
    }

    /// An empty registry whose first identifier is zero.
    pub fn new() -> (r: Self)
        ensures
            r.wf(),
            r@.next == 0,
            r@.active == Seq::<ClientId>::empty(),
    {
        ClientRegistry { next_id: 0, active: Vec::new() }
    }

    /// Whether the counter has run out, so that no identifier is left.
    pub fn is_exhausted(&self) -> (r: bool)
        ensures
            r == (self@.next == usize::MAX),
    {
        self.next_id == usize::MAX
    }

    /// The number of identifiers in use.
    pub fn len(&self) -> (r: usize)
        ensures
            r == self@.active.len(),
    {
        self.active.len()
    }

    /// Whether `id` is in use.
    pub fn contains(&self, id: ClientId) -> (r: bool)
        ensures
            r == self@.active.contains(id),
    {
        self.position(id).is_some()
    }

    /// Where `id` stands among the identifiers in use.
    pub fn position(&self, id: ClientId) -> (r: Option<usize>)
        ensures
            match r {
                Some(i) => i < self@.active.len() && self@.active[i as int] == id,
                None => !self@.active.contains(id),
            },
    {
        let mut i: usize = 0;
        while i < self.active.len()
            invariant
                i <= self.active@.len(),
                forall|k: int| 0 <= k < i ==> self.active@[k] != id,
            decreases self.active@.len() - i,
        {
            if self.active[i] == id {
                return Some(i);
            }
            i = i + 1;
        }
        None
    }

    /// Hands out a fresh identifier: the counter's value, which then moves on.
    pub fn register(&mut self) -> (id: ClientId)
        requires
            old(self).wf(),
            old(self)@.next < usize::MAX,
        ensures
            final(self).wf(),
            registers(old(self)@, final(self)@, id),
    {
        let id = self.next_id;
        self.next_id = self.next_id + 1;
        self.active.push(id);
        proof {
            assert forall|i: int, j: int|
                0 <= i < self.active@.len() && 0 <= j < self.active@.len() && i != j implies
                self.active@[i] != self.active@[j] by {
                if i == self.active@.len() - 1 || j == self.active@.len() - 1 {
                } else {
                    assert(old(self)@.active[i] == self.active@[i]);
                }
            }
        }
        id
    }

    /// Removes `id` from the identifiers in use, and says where it stood.
    /// The counter is left alone, so an identifier is never handed out twice.
    pub fn unregister(&mut self, id: ClientId) -> (r: Option<usize>)
        requires
            old(self).wf(),
        ensures
            final(self).wf(),
            final(self)@.next == old(self)@.next,
            match r {
                Some(i) => {
                    &&& i < old(self)@.active.len()
                    &&& old(self)@.active[i as int] == id
                    &&& final(self)@.active == old(self)@.active.remove(i as int)
                },
                None => {
                    &&& !old(self)@.active.contains(id)
                    &&& final(self)@.active == old(self)@.active
                },
            },
    {
        match self.position(id) {
            Some(i) => {
                self.active.remove(i);
                proof {
                    let a = old(self)@.active;
                    assert forall|x: int, y: int|
                        0 <= x < self.active@.len() && 0 <= y < self.active@.len() && x != y
                        implies self.active@[x] != self.active@[y] by {
                        let ox = if x < i { x } else { x + 1 };
                        let oy = if y < i { y } else { y + 1 };
                        assert(self.active@[x] == a[ox]);
                        assert(self.active@[y] == a[oy]);
                    }
                    assert forall|x: int| 0 <= x < self.active@.len() implies
                        (#[trigger] self.active@[x]) < self@.next by {
                        let ox = if x < i { x } else { x + 1 };
                        assert(self.active@[x] == a[ox]);
                    }
                }
                Some(i)
            },
            None => None,
        }
    }
}

/// Identifiers handed out by successive registrations strictly increase, so
/// they are pairwise distinct, whatever happens to the registry in between
/// as long as its counter never goes back (no operation moves it back).
pub proof fn lemma_identifiers_increase(
    pre: Seq<RegistryView>,
    post: Seq<RegistryView>,
    ids: Seq<ClientId>,
)
    requires
        pre.len() == ids.len(),
        post.len() == ids.len(),
        forall|i: int| 0 <= i < ids.len() ==> registers(#[trigger] pre[i], post[i], ids[i]),
        forall|i: int| 0 <= i < ids.len() - 1 ==> (#[trigger] post[i]).next <= pre[i + 1].next,
    ensures
        forall|i: int, j: int| 0 <= i < j < ids.len() ==> ids[i] < ids[j],
{
    assert forall|i: int, j: int| 0 <= i < j < ids.len() implies ids[i] < ids[j] by {
        lemma_counter_grows(pre, post, ids, i, j);
    }
}

proof fn lemma_counter_grows(
    pre: Seq<RegistryView>,
    post: Seq<RegistryView>,
    ids: Seq<ClientId>,
    i: int,
    j: int,
)
    requires
        pre.len() == ids.len(),
        post.len() == ids.len(),
        forall|k: int| 0 <= k < ids.len() ==> registers(#[trigger] pre[k], post[k], ids[k]),
        forall|k: int| 0 <= k < ids.len() - 1 ==> (#[trigger] post[k]).next <= pre[k + 1].next,
        0 <= i < j < ids.len(),
    ensures
        ids[i] < ids[j],
        post[i].next <= pre[j].next,
    decreases j - i,
{
    assert(registers(pre[j - 1], post[j - 1], ids[j - 1]));
    if j - 1 > i {
        lemma_counter_grows(pre, post, ids, i, j - 1);
    }
    assert(registers(pre[i], post[i], ids[i]));
    assert(registers(pre[j], post[j], ids[j]));
}

} // verus!
