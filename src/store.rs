use std::collections::HashMap;
use vstd::prelude::*;

verus! {

broadcast use vstd::std_specs::hash::group_hash_axioms;

/// A user, as named by the messaging transport.
pub type Identity = u64;

/// The 32-byte secret that the two members of a pair share.
pub type SessionKey = [u8; 32];

/// What the pair table records for one member of a pair.
#[derive(Clone, Copy)]
pub struct PartnerInfo {
    pub partner_id: Identity,
    pub key: SessionKey,
}

/// A request that the store turned down without changing anything.
#[derive(Clone, Copy, Debug, PartialEq, Eq, Structural)]
pub enum SessionError {
    /// The user already has a partner.
    AlreadyPaired,
    /// The user is already waiting for a partner.
    AlreadyQueued,
    /// The user neither has a partner nor waits for one.
    NotInSession,
}

/// What a leave request did.
#[derive(Clone, Copy, Debug, PartialEq, Eq, Structural)]
pub enum LeaveOutcome {
    /// The session with the given partner is over; the partner is to be told.
    SessionEnded(Identity),
    /// The user no longer waits in the queue.
    LeftQueue,
}

/// The abstract state of a [`SessionStore`].
pub struct StoreModel {
    pub queue: Seq<Identity>,
    pub pairs: Map<Identity, PartnerInfo>,
}

impl StoreModel {
    pub open spec fn is_queued(self, id: Identity) -> bool {
        self.queue.contains(id)
    }

    pub open spec fn is_paired(self, id: Identity) -> bool {
        self.pairs.contains_key(id)
    }

    pub open spec fn partner(self, id: Identity) -> Identity {
        self.pairs[id].partner_id
    }

    /// The queue holds each user at most once and nobody who has a partner;
    /// every entry of the pair table has a mirror entry for the partner that
    /// points back and carries the same key, and nobody is their own partner.
    pub open spec fn well_formed(self) -> bool {
        &&& self.queue.no_duplicates()
        &&& forall|i: int| 0 <= i < self.queue.len() ==> !self.pairs.contains_key(#[trigger] self.queue[i])
        &&& forall|a: Identity| #[trigger] self.pairs.contains_key(a) ==> {
            let b = self.pairs[a].partner_id;
            &&& b != a
            &&& self.pairs.contains_key(b)
            &&& self.pairs[b].partner_id == a
            &&& self.pairs[b].key == self.pairs[a].key
        }
    }

    /// The state with no one waiting and no one paired.
    pub open spec fn empty() -> StoreModel {
        StoreModel { queue: Seq::empty(), pairs: Map::empty() }
    }

    /// The pair table with `a` and `b` recorded as partners under `key`.
    pub open spec fn with_pair(self, a: Identity, b: Identity, key: SessionKey) -> StoreModel {
        StoreModel {
            queue: self.queue,
            pairs: self.pairs.insert(a, PartnerInfo { partner_id: b, key }).insert(
                b,
                PartnerInfo { partner_id: a, key },
            ),
        }
    }

    /// The state after a join request of `id`, with `key` as the key of the
    /// pair that the request completes, if it completes one.
    pub open spec fn join_step(self, id: Identity, key: SessionKey) -> StoreModel {
        if self.is_paired(id) || self.is_queued(id) {
            self
        } else {
            let q = self.queue.push(id);
            if q.len() >= 2 {
                StoreModel { queue: q.subrange(2, q.len() as int), pairs: self.pairs }.with_pair(
                    q[0],
                    q[1],
                    key,
                )
            } else {
                StoreModel { queue: q, pairs: self.pairs }
            }
        }
    }

    /// What a join request of `id` answers: the refusal, or the pair that it
    /// formed, oldest waiting user first, if any.
    pub open spec fn join_result(self, id: Identity) -> Result<Option<(Identity, Identity)>, SessionError> {
        if self.is_paired(id) {
            Err(SessionError::AlreadyPaired)
        } else if self.is_queued(id) {
            Err(SessionError::AlreadyQueued)
        } else {
            let q = self.queue.push(id);
            if q.len() >= 2 {
                Ok(Some((q[0], q[1])))
            } else {
                Ok(None)
            }
        }
    }

    /// The state after a leave request of `id`.
    pub open spec fn leave_step(self, id: Identity) -> StoreModel {
        if self.is_paired(id) {
            StoreModel { queue: self.queue, pairs: self.pairs.remove(id).remove(self.partner(id)) }
        } else if self.is_queued(id) {
            StoreModel { queue: self.queue.remove(self.queue.index_of(id)), pairs: self.pairs }
        } else {
            self
        }
    }

    /// What a leave request of `id` answers.
    pub open spec fn leave_result(self, id: Identity) -> Result<LeaveOutcome, SessionError> {
        if self.is_paired(id) {
            Ok(LeaveOutcome::SessionEnded(self.partner(id)))
        } else if self.is_queued(id) {
            Ok(LeaveOutcome::LeftQueue)
        } else {
            Err(SessionError::NotInSession)
        }
    }
}

impl StoreModel {
    /// The state after join requests of `ids`, in order, where the request
    /// `ids[i]` completes a pair, if at all, under `keys[i]`.
    pub open spec fn joins(self, ids: Seq<Identity>, keys: Seq<SessionKey>) -> StoreModel
        decreases ids.len(),
    {
        if ids.len() == 0 {
            self
        } else {
            self.joins(ids.drop_last(), keys).join_step(ids.last(), keys[ids.len() - 1])
        }
    }
}

/// A join request keeps the store well formed: the queue stays free of
/// duplicates and of paired users, and the pair table stays symmetric.
pub proof fn lemma_join_keeps_well_formed(m: StoreModel, id: Identity, key: SessionKey)
    requires
        m.well_formed(),
    ensures
        m.join_step(id, key).well_formed(),
{
    if !m.is_paired(id) && !m.is_queued(id) {
        let q = m.queue.push(id);
        assert forall|x: int, y: int| 0 <= x < q.len() && 0 <= y < q.len() && x != y implies q[x] != q[y] by {
            if x < m.queue.len() && y < m.queue.len() {
                assert(m.queue[x] != m.queue[y]);
            } else if x < m.queue.len() {
                assert(m.queue.contains(m.queue[x]));
            } else {
                assert(m.queue.contains(m.queue[y]));
            }
        }
        assert forall|x: int| 0 <= x < q.len() implies !m.pairs.contains_key(#[trigger] q[x]) by {
            if x < m.queue.len() {
                assert(q[x] == m.queue[x]);
            }
        }
        if q.len() >= 2 {
            let a = q[0];
            let b = q[1];
            let n = m.join_step(id, key);
            let rest = q.subrange(2, q.len() as int);
            assert(n.queue == rest);
            assert forall|x: int, y: int| 0 <= x < rest.len() && 0 <= y < rest.len() && x != y implies rest[x] != rest[y] by {
                assert(q[x + 2] != q[y + 2]);
            }
            assert forall|x: int| 0 <= x < rest.len() implies !n.pairs.contains_key(#[trigger] rest[x]) by {
                assert(q[x + 2] != q[0]);
                assert(q[x + 2] != q[1]);
                assert(!m.pairs.contains_key(q[x + 2]));
            }
            assert(a != b);
            assert(!m.pairs.contains_key(a));
            assert(!m.pairs.contains_key(b));
            assert forall|x: Identity| #[trigger] n.pairs.contains_key(x) implies {
                let y = n.pairs[x].partner_id;
                &&& y != x
                &&& n.pairs.contains_key(y)
                &&& n.pairs[y].partner_id == x
                &&& n.pairs[y].key == n.pairs[x].key
            } by {
                if x != a && x != b {
                    assert(m.pairs.contains_key(x));
                    let y = m.pairs[x].partner_id;
                    assert(m.pairs.contains_key(y));
                }
            }
        }
    }
}

/// Pairing two distinct users who neither wait nor have a partner keeps a
/// store well formed.
pub proof fn lemma_pairing_keeps_well_formed(m: StoreModel, a: Identity, b: Identity, key: SessionKey)
    requires
        m.well_formed(),
        a != b,
        !m.is_queued(a),
        !m.is_queued(b),
        !m.is_paired(a),
        !m.is_paired(b),
    ensures
        m.with_pair(a, b, key).well_formed(),
{
    let n = m.with_pair(a, b, key);
    assert forall|x: int| 0 <= x < n.queue.len() implies !n.pairs.contains_key(#[trigger] n.queue[x]) by {
        assert(m.queue.contains(m.queue[x]));
    }
    assert forall|x: Identity| #[trigger] n.pairs.contains_key(x) implies {
        let y = n.pairs[x].partner_id;
        &&& y != x
        &&& n.pairs.contains_key(y)
        &&& n.pairs[y].partner_id == x
        &&& n.pairs[y].key == n.pairs[x].key
    } by {
        if x != a && x != b {
            assert(m.pairs.contains_key(x));
            let y = m.pairs[x].partner_id;
            assert(m.pairs.contains_key(y));
        }
    }
}

/// In a well-formed store the partner of a paired user is paired, and the
/// partner's partner is that user again.
pub proof fn lemma_partner_of_partner(m: StoreModel, x: Identity)
    requires
        m.well_formed(),
        m.is_paired(x),
    ensures
        m.is_paired(m.partner(x)),
        m.partner(m.partner(x)) == x,
        m.pairs[m.partner(x)].key == m.pairs[x].key,
{
}

/// After a paired user leaves, neither that user nor the former partner is
/// paired or waiting.
pub proof fn lemma_leave_ends_both(m: StoreModel, a: Identity)
    requires
        m.well_formed(),
        m.is_paired(a),
    ensures
        ({
            let b = m.partner(a);
            let n = m.leave_step(a);
            &&& !n.is_paired(a)
            &&& !n.is_paired(b)
            &&& !n.is_queued(a)
            &&& !n.is_queued(b)
        }),
{
    let b = m.partner(a);
    if m.queue.contains(a) {
        let i = choose|i: int| 0 <= i < m.queue.len() && m.queue[i] == a;
        assert(!m.pairs.contains_key(m.queue[i]));
    }
    if m.queue.contains(b) {
        let i = choose|i: int| 0 <= i < m.queue.len() && m.queue[i] == b;
        assert(!m.pairs.contains_key(m.queue[i]));
    }
}

/// Join requests keep a well-formed store well formed, whatever their order.
pub proof fn lemma_joins_keep_well_formed(m: StoreModel, ids: Seq<Identity>, keys: Seq<SessionKey>)
    requires
        m.well_formed(),
        keys.len() >= ids.len(),
    ensures
        m.joins(ids, keys).well_formed(),
    decreases ids.len(),
{
    if ids.len() > 0 {
        lemma_joins_keep_well_formed(m, ids.drop_last(), keys);
        lemma_join_keeps_well_formed(m.joins(ids.drop_last(), keys), ids.last(), keys[ids.len() - 1]);
    }
}

/// Join requests of `n` distinct users on an empty store leave `n % 2`
/// users waiting and the other users, `n / 2` pairs of them, paired; every
/// user of the requests is either paired or waiting, never both.
pub proof fn lemma_joins_from_empty(ids: Seq<Identity>, keys: Seq<SessionKey>)
    requires
        ids.no_duplicates(),
        keys.len() >= ids.len(),
    ensures
        ({
            let n = StoreModel::empty().joins(ids, keys);
            &&& n.well_formed()
            &&& n.queue.len() == ids.len() % 2
            &&& n.pairs.dom().len() == 2 * (ids.len() / 2)
            &&& forall|i: int| 0 <= i < ids.len() ==> (n.is_paired(#[trigger] ids[i]) != n.is_queued(ids[i]))
        }),
{
    lemma_joins_shape(ids, keys);
    lemma_joins_keep_well_formed(StoreModel::empty(), ids, keys);
    let k = ids.len() as int;
    let paired = ids.subrange(0, k - k % 2);
    assert(paired.no_duplicates());
    paired.unique_seq_to_set();
    let n = StoreModel::empty().joins(ids, keys);
    assert forall|i: int| 0 <= i < ids.len() implies (n.is_paired(#[trigger] ids[i]) != n.is_queued(ids[i])) by {
        if i < k - k % 2 {
            assert(paired[i] == ids[i]);
            assert(paired.contains(ids[i]));
            if n.queue.contains(ids[i]) {
                assert(n.queue[0] == ids[k - 1]);
                assert(ids[i] != ids[k - 1]);
            }
        } else {
            assert(n.queue[0] == ids[i]);
            assert(n.queue.contains(ids[i]));
        }
    }
}

proof fn lemma_joins_shape(ids: Seq<Identity>, keys: Seq<SessionKey>)
    requires
        ids.no_duplicates(),
        keys.len() >= ids.len(),
    ensures
        ({
            let n = StoreModel::empty().joins(ids, keys);
            let k = ids.len() as int;
            &&& k % 2 == 0 ==> n.queue == Seq::<Identity>::empty()
            &&& k % 2 == 1 ==> n.queue == seq![ids[k - 1]]
            &&& n.pairs.dom() == ids.subrange(0, k - k % 2).to_set()
        }),
    decreases ids.len(),
{
    let k = ids.len() as int;
    if k > 0 {
        let pre = ids.drop_last();
        assert(pre.no_duplicates());
        lemma_joins_shape(pre, keys);
        let m = StoreModel::empty().joins(pre, keys);
        let id = ids.last();
        assert(!m.is_paired(id)) by {
            if m.pairs.dom().contains(id) {
                let j = choose|j: int| 0 <= j < (k - 1) - (k - 1) % 2 && pre[j] == id;
                assert(ids[j] == pre[j]);
                assert(ids[j] != ids[k - 1]);
            }
        }
        assert(!m.is_queued(id)) by {
            if m.queue.contains(id) {
                assert(m.queue[0] == ids[k - 2]);
                assert(ids[k - 2] != ids[k - 1]);
            }
        }
        let n = m.join_step(id, keys[k - 1]);
        if k % 2 == 1 {
            assert(n.queue =~= seq![ids[k - 1]]);
            assert(ids.subrange(0, k - k % 2) =~= pre.subrange(0, (k - 1) - (k - 1) % 2));
        } else {
            assert(n.queue =~= Seq::<Identity>::empty());
            assert(pre.subrange(0, (k - 1) - (k - 1) % 2) =~= ids.subrange(0, k - 2));
            assert(n.pairs.dom() =~= ids.subrange(0, k).to_set()) by {
                assert forall|x: Identity| n.pairs.dom().contains(x) == ids.subrange(0, k).to_set().contains(x) by {
                    if ids.subrange(0, k).contains(x) {
                        let j = choose|j: int| 0 <= j < k && ids.subrange(0, k)[j] == x;
                        if j < k - 2 {
                            assert(ids.subrange(0, k - 2)[j] == x);
                        }
                    }
                    if m.pairs.dom().contains(x) {
                        let front = ids.subrange(0, k - 2);
                        let j = choose|j: int| 0 <= j < k - 2 && front[j] == x;
                        assert(ids.subrange(0, k)[j] == x);
                    }
                    if x == ids[k - 2] {
                        assert(ids.subrange(0, k)[k - 2] == x);
                    }
                    if x == ids[k - 1] {
                        assert(ids.subrange(0, k)[k - 1] == x);
                    }
                }
            }
        }
    } else {
        assert(ids.subrange(0, 0) =~= Seq::<Identity>::empty());
        assert(StoreModel::empty().pairs.dom() =~= Set::<Identity>::empty());
    }
}

/// The waiting queue and the pair table.
pub struct SessionStore {
    queue: Vec<Identity>,
    pairs: HashMap<Identity, PartnerInfo>,
}

impl View for SessionStore {
    type V = StoreModel;

    closed spec fn view(&self) -> StoreModel {
        StoreModel { queue: self.queue@, pairs: self.pairs@ }
    }
}

impl SessionStore {
    /// An empty store.
    pub fn new() -> (r: SessionStore)
        ensures
            r@ == StoreModel::empty(),
            r@.well_formed(),
    {
        let r = SessionStore { queue: Vec::new(), pairs: HashMap::new() };
        assert(r@.queue =~= Seq::<Identity>::empty());
        assert(r@.pairs =~= Map::<Identity, PartnerInfo>::empty());
        r
    }

    /// Whether `id` waits in the queue.
    pub fn is_queued(&self, id: Identity) -> (r: bool)
        ensures
            r == self@.is_queued(id),
    {
        let mut i: usize = 0;
        while i < self.queue.len()
            invariant
                i <= self.queue@.len(),
                forall|j: int| 0 <= j < i ==> self.queue@[j] != id,
            decreases self.queue@.len() - i,
        {
            if self.queue[i] == id {
                return true;
            }
            i = i + 1;
        }
        false
    }

    /// Whether `id` has a partner.
    pub fn is_paired(&self, id: Identity) -> (r: bool)
        ensures
            r == self@.is_paired(id),
    {
        self.pairs.contains_key(&id)
    }

    /// Appends `id` to the queue.
    pub fn enqueue(&mut self, id: Identity)
        requires
            old(self)@.well_formed(),
            !old(self)@.is_queued(id),
            !old(self)@.is_paired(id),
        ensures
            final(self)@ == (StoreModel { queue: old(self)@.queue.push(id), pairs: old(self)@.pairs }),
            final(self)@.well_formed(),
    {
        self.queue.push(id);
        assert(self@.queue =~= old(self)@.queue.push(id));
    }

    /// Takes the two users who have waited longest out of the queue, when at
    /// least two wait.
    pub fn try_form_pair(&mut self) -> (r: Option<(Identity, Identity)>)
        requires
            old(self)@.well_formed(),
        ensures
            old(self)@.queue.len() >= 2 ==> {
                &&& r == Some((old(self)@.queue[0], old(self)@.queue[1]))
                &&& final(self)@ == (StoreModel {
                    queue: old(self)@.queue.subrange(2, old(self)@.queue.len() as int),
                    pairs: old(self)@.pairs,
                })
            },
            old(self)@.queue.len() < 2 ==> r is None && final(self)@ == old(self)@,
            r matches Some((a, b)) ==> a != b && !final(self)@.is_queued(a) && !final(self)@.is_queued(b),
            final(self)@.well_formed(),
    {
        if self.queue.len() >= 2 {
            let a = self.queue.remove(0);
            let b = self.queue.remove(0);
            proof {
                let m = old(self)@;
                let rest = m.queue.subrange(2, m.queue.len() as int);
                assert(self@.queue =~= rest);
                assert(m.queue[0] != m.queue[1]);
                assert forall|x: int, y: int| 0 <= x < rest.len() && 0 <= y < rest.len() && x != y implies rest[x] != rest[y] by {
                    assert(m.queue[x + 2] != m.queue[y + 2]);
                }
                assert forall|x: int| 0 <= x < rest.len() implies !m.pairs.contains_key(#[trigger] rest[x]) by {
                    assert(!m.pairs.contains_key(m.queue[x + 2]));
                }
                if rest.contains(a) {
                    let x = choose|x: int| 0 <= x < rest.len() && rest[x] == a;
                    assert(m.queue[x + 2] != m.queue[0]);
                }
                if rest.contains(b) {
                    let x = choose|x: int| 0 <= x < rest.len() && rest[x] == b;
                    assert(m.queue[x + 2] != m.queue[1]);
                }
            }
            Some((a, b))
        } else {
            None
        }
    }

    /// Records `a` and `b` as partners under `key`; refuses, and changes
    /// nothing, when either of them already has a partner.
    pub fn insert_pair(&mut self, a: Identity, b: Identity, key: SessionKey) -> (r: Result<(), SessionError>)
        ensures
            r is Err <==> (old(self)@.is_paired(a) || old(self)@.is_paired(b)),
            r is Err ==> r == Err::<(), SessionError>(SessionError::AlreadyPaired) && final(self)@ == old(self)@,
            r is Ok ==> final(self)@ == old(self)@.with_pair(a, b, key),
            old(self)@.well_formed() && a != b && !old(self)@.is_queued(a) && !old(self)@.is_queued(b)
                ==> final(self)@.well_formed(),
    {
        proof {
            if old(self)@.well_formed() && a != b && !old(self)@.is_queued(a) && !old(self)@.is_queued(b)
                && !old(self)@.is_paired(a) && !old(self)@.is_paired(b) {
                lemma_pairing_keeps_well_formed(old(self)@, a, b, key);
            }
        }
        if self.pairs.contains_key(&a) || self.pairs.contains_key(&b) {
            return Err(SessionError::AlreadyPaired);
        }
        self.pairs.insert(a, PartnerInfo { partner_id: b, key });
        self.pairs.insert(b, PartnerInfo { partner_id: a, key });
        Ok(())
    }

    /// Ends the session of `id`, removing the entries of both partners, and
    /// returns the entry of `id`; does nothing when `id` has no partner.
    pub fn remove_pair(&mut self, id: Identity) -> (r: Option<PartnerInfo>)
        requires
            old(self)@.well_formed(),
        ensures
            old(self)@.is_paired(id) ==> r == Some(old(self)@.pairs[id]),
            !old(self)@.is_paired(id) ==> r is None,
            old(self)@.is_paired(id) ==> final(self)@ == old(self)@.leave_step(id),
            !old(self)@.is_paired(id) ==> final(self)@ == old(self)@,
            final(self)@.well_formed(),
    {
        match self.pairs.remove(&id) {
            Some(info) => {
                self.pairs.remove(&info.partner_id);
                proof {
                    let m = old(self)@;
                    let n = self@;
                    assert(n.pairs =~= m.pairs.remove(id).remove(m.partner(id)));
                    assert forall|i: int| 0 <= i < n.queue.len() implies !n.pairs.contains_key(#[trigger] n.queue[i]) by {
                        assert(!m.pairs.contains_key(m.queue[i]));
                    }
                    assert forall|a: Identity| #[trigger] n.pairs.contains_key(a) implies {
                        let b = n.pairs[a].partner_id;
                        &&& b != a
                        &&& n.pairs.contains_key(b)
                        &&& n.pairs[b].partner_id == a
                        &&& n.pairs[b].key == n.pairs[a].key
                    } by {
                        assert(m.pairs.contains_key(a));
                        let b = m.pairs[a].partner_id;
                        assert(m.pairs.contains_key(b));
                    }
                }
                Some(info)
            },
            None => {
                assert(self@.pairs =~= old(self)@.pairs);
                None
            },
        }
    }

    /// Takes `id` out of the queue; says whether it was there.
    pub fn remove_from_queue(&mut self, id: Identity) -> (r: bool)
        requires
            old(self)@.well_formed(),
        ensures
            r == old(self)@.is_queued(id),
            r ==> final(self)@ == (StoreModel {
                queue: old(self)@.queue.remove(old(self)@.queue.index_of(id)),
                pairs: old(self)@.pairs,
            }),
            !r ==> final(self)@ == old(self)@,
            final(self)@.well_formed(),
    {
        let mut i: usize = 0;
        while i < self.queue.len()
            invariant
                self@ == old(self)@,
                old(self)@.well_formed(),
                i <= self.queue@.len(),
                forall|j: int| 0 <= j < i ==> self.queue@[j] != id,
            decreases self.queue@.len() - i,
        {
            if self.queue[i] == id {
                proof {
                    let q = old(self)@.queue;
                    assert(q[i as int] == id);
                    assert(q.contains(id));
                    let k = q.index_of(id);
                    assert(q[k] == id);
                    assert(k == i) by {
                        if k != i {
                            assert(q[k] != q[i as int]);
                        }
                    }
                }
                self.queue.remove(i);
                proof {
                    let m = old(self)@;
                    let n = self@;
                    assert(n.queue =~= m.queue.remove(i as int));
                    assert forall|x: int, y: int| 0 <= x < n.queue.len() && 0 <= y < n.queue.len() && x != y
                        implies n.queue[x] != n.queue[y] by {
                        let x0 = if x < i { x } else { x + 1 };
                        let y0 = if y < i { y } else { y + 1 };
                        assert(n.queue[x] == m.queue[x0]);
                        assert(n.queue[y] == m.queue[y0]);
                        assert(m.queue[x0] != m.queue[y0]);
                    }
                    assert forall|x: int| 0 <= x < n.queue.len() implies !n.pairs.contains_key(#[trigger] n.queue[x]) by {
                        let x0 = if x < i { x } else { x + 1 };
                        assert(n.queue[x] == m.queue[x0]);
                    }
                }
                return true;
            }
            i = i + 1;
        }
        false
    }

    /// Handles a join request of `id`, with `key` as the key of the pair that
    /// it completes, if it completes one: refuses a user who has a partner or
    /// waits already; otherwise queues the user and pairs the two users who
    /// have waited longest, if two wait.
    pub fn join_with_key(&mut self, id: Identity, key: SessionKey) -> (r: Result<Option<(Identity, Identity)>, SessionError>)
        requires
            old(self)@.well_formed(),
        ensures
            r == old(self)@.join_result(id),
            final(self)@ == old(self)@.join_step(id, key),
            final(self)@.well_formed(),
    {
        proof {
            lemma_join_keeps_well_formed(self@, id, key);
        }
        if self.is_paired(id) {
            return Err(SessionError::AlreadyPaired);
        }
        if self.is_queued(id) {
            return Err(SessionError::AlreadyQueued);
        }
        self.enqueue(id);
        let ghost waiting = self@;
        match self.try_form_pair() {
            Some((a, b)) => {
                assert(waiting.queue[0] == a && waiting.queue[1] == b);
                assert(!waiting.pairs.contains_key(waiting.queue[0]));
                assert(!waiting.pairs.contains_key(waiting.queue[1]));
                let _ = self.insert_pair(a, b, key);
                Ok(Some((a, b)))
            },
            None => Ok(None),
        }
    }

    /// Handles a join request of `id`; a pair that it completes gets a fresh
    /// random key.
    pub fn join(&mut self, id: Identity) -> (r: Result<Option<(Identity, Identity)>, SessionError>)
        requires
            old(self)@.well_formed(),
        ensures
            r == old(self)@.join_result(id),
            exists|key: SessionKey| final(self)@ == old(self)@.join_step(id, key),
            final(self)@.well_formed(),
    {
        let key = crate::cipher::random_key();
        self.join_with_key(id, key)
    }

    /// Handles a leave request of `id`: ends the session of a paired user,
    /// with the former partner in the outcome, or takes a waiting user out of
    /// the queue; refuses a user who is neither.
    pub fn leave(&mut self, id: Identity) -> (r: Result<LeaveOutcome, SessionError>)
        requires
            old(self)@.well_formed(),
        ensures
            r == old(self)@.leave_result(id),
            final(self)@ == old(self)@.leave_step(id),
            final(self)@.well_formed(),
    {
        match self.remove_pair(id) {
            Some(info) => Ok(LeaveOutcome::SessionEnded(info.partner_id)),
            None => {
                if self.remove_from_queue(id) {
                    Ok(LeaveOutcome::LeftQueue)
                } else {
                    Err(SessionError::NotInSession)
                }
            },
        }
    }

    /// The entry of `id` in the pair table, if `id` has a partner.
    pub fn get_partner(&self, id: Identity) -> (r: Option<PartnerInfo>)
        ensures
            self@.is_paired(id) ==> r == Some(self@.pairs[id]),
            !self@.is_paired(id) ==> r is None,
    {
        match self.pairs.get(&id) {
            Some(info) => Some(*info),
            None => None,
        }
    }
}

} // verus!
