use nonempty::NonEmpty;
use std::collections::{HashMap, VecDeque};
use vstd::multiset::Multiset;
use vstd::prelude::*;

use crate::util::{
    nondecreasing, nonempty_contains, nonempty_get, nonempty_items, nonempty_len, nonempty_sort,
};

verus! {

broadcast use vstd::std_specs::hash::group_hash_axioms;

/// What a `CleanAndAnnotated` holds.
pub struct AnnotatedView<Resources> {
    pub is_clean: bool,
    pub last_user: Option<usize>,
    pub identifier: usize,
    pub underlying: Resources,
}

/// A resource together with its identifier, whether it is clean, and which
/// philosopher used it last.
pub struct CleanAndAnnotated<Resources> {
    is_clean: bool,
    last_user: Option<usize>,
    identifier: usize,
    underlying: Resources,
}

impl<Resources> View for CleanAndAnnotated<Resources> {
    type V = AnnotatedView<Resources>;

    closed spec fn view(&self) -> AnnotatedView<Resources> {
        AnnotatedView {
            is_clean: self.is_clean,
            last_user: self.last_user,
            identifier: self.identifier,
            underlying: self.underlying,
        }
    }
}

impl<Resources> CleanAndAnnotated<Resources> {
    /// A resource starts off dirty and with no last user.
    pub fn new(underlying: Resources, identifier: usize) -> (c: Self)
        ensures
            c@ == (AnnotatedView {
                is_clean: false,
                last_user: None::<usize>,
                identifier,
                underlying,
            }),
    {
        Self { is_clean: false, last_user: None, identifier, underlying }
    }

    /// The identifier of the resource.
    pub fn identifier(&self) -> (i: usize)
        ensures
            i == self@.identifier,
    {
        self.identifier
    }

    /// Whether the resource is clean.
    pub fn is_clean(&self) -> (b: bool)
        ensures
            b == self@.is_clean,
    {
        self.is_clean
    }

    /// The philosopher that used the resource last, if any.
    pub fn last_user(&self) -> (u: Option<usize>)
        ensures
            u == self@.last_user,
    {
        self.last_user
    }

    /// The resource itself.
    pub fn underlying(&self) -> (r: &Resources)
        ensures
            *r == self@.underlying,
    {
        &self.underlying
    }
}

/// The identifiers of the resources, in order.
pub open spec fn ids_of<Resources>(h: Seq<CleanAndAnnotated<Resources>>) -> Seq<usize> {
    h.map_values(|c: CleanAndAnnotated<Resources>| c@.identifier)
}

/// The resources, in order.
pub open spec fn underlyings_of<Resources>(h: Seq<CleanAndAnnotated<Resources>>) -> Seq<Resources> {
    h.map_values(|c: CleanAndAnnotated<Resources>| c@.underlying)
}

/// Identifiers never decrease along the sequence.
pub open spec fn sorted_by_id<Resources>(h: Seq<CleanAndAnnotated<Resources>>) -> bool {
    forall|i: int, j: int| 0 <= i < j < h.len() ==> h[i]@.identifier <= h[j]@.identifier
}

/// The resources of `h` with identifier `x`, in their order in `h`.
pub open spec fn with_id<Resources>(h: Seq<CleanAndAnnotated<Resources>>, x: usize) -> Seq<
    CleanAndAnnotated<Resources>,
>
    decreases h.len(),
{
    if h.len() == 0 {
        Seq::empty()
    } else {
        let rest = with_id(h.drop_last(), x);
        if h.last()@.identifier == x {
            rest.push(h.last())
        } else {
            rest
        }
    }
}

/// Picking the resources with one identifier out of two sequences one after
/// the other is picking them out of each in turn.
proof fn lemma_with_id_append<Resources>(
    a: Seq<CleanAndAnnotated<Resources>>,
    b: Seq<CleanAndAnnotated<Resources>>,
    x: usize,
)
    ensures
        with_id(a + b, x) == with_id(a, x) + with_id(b, x),
    decreases b.len(),
{
    if b.len() == 0 {
        assert(a + b =~= a);
        assert(with_id(a, x) + with_id(b, x) =~= with_id(a, x));
    } else {
        lemma_with_id_append(a, b.drop_last(), x);
        assert((a + b).drop_last() =~= a + b.drop_last());
        assert((a + b).last() == b.last());
        if b.last()@.identifier == x {
            assert(with_id(a, x) + with_id(b.drop_last(), x).push(b.last()) =~= (with_id(a, x)
                + with_id(b.drop_last(), x)).push(b.last()));
        }
    }
}

/// No resource of `a` has identifier `x`.
proof fn lemma_with_id_none<Resources>(a: Seq<CleanAndAnnotated<Resources>>, x: usize)
    requires
        forall|k: int| 0 <= k < a.len() ==> (#[trigger] a[k])@.identifier != x,
    ensures
        with_id(a, x) == Seq::<CleanAndAnnotated<Resources>>::empty(),
    decreases a.len(),
{
    if a.len() > 0 {
        lemma_with_id_none(a.drop_last(), x);
        assert(a.last() == a[a.len() - 1]);
    }
}

/// A single resource is picked exactly when it has identifier `x`.
proof fn lemma_with_id_single<Resources>(c: CleanAndAnnotated<Resources>, x: usize)
    ensures
        with_id(seq![c], x) == if c@.identifier == x {
            seq![c]
        } else {
            Seq::<CleanAndAnnotated<Resources>>::empty()
        },
{
    let none = Seq::<CleanAndAnnotated<Resources>>::empty();
    assert(seq![c].drop_last() =~= none);
    assert(with_id(none, x) == none);
    assert(with_id(seq![c].drop_last(), x) == none);
    assert(seq![c].last() == c);
    assert(Seq::<CleanAndAnnotated<Resources>>::empty().push(c) =~= seq![c]);
}

/// `h` holds the elements of `of`, as often as `of` does, sorted by
/// identifier, and resources with the same identifier keep their order.
pub open spec fn is_sorted_version<Resources>(
    h: Seq<CleanAndAnnotated<Resources>>,
    of: Seq<CleanAndAnnotated<Resources>>,
) -> bool {
    &&& sorted_by_id(h)
    &&& h.to_multiset() == of.to_multiset()
    &&& forall|x: usize| #[trigger] with_id(h, x) == with_id(of, x)
}

/// Sorts resources by identifier, keeping resources with equal identifiers
/// in their order.
fn sort_by_identifier<Resources>(v: Vec<CleanAndAnnotated<Resources>>) -> (out: Vec<
    CleanAndAnnotated<Resources>,
>)
    ensures
        is_sorted_version(out@, v@),
{
    broadcast use vstd::seq_lib::group_to_multiset_ensures;

    let ghost orig = v@;
    let mut v = v;
    let mut out: Vec<CleanAndAnnotated<Resources>> = Vec::new();
    proof {
        assert forall|y: usize| #[trigger] with_id(v@, y) + with_id(out@, y) == with_id(orig, y) by {
            assert(with_id(out@, y) =~= Seq::<CleanAndAnnotated<Resources>>::empty());
            assert(with_id(v@, y) + with_id(out@, y) =~= with_id(orig, y));
        }
    }
    while v.len() > 0
        invariant
            sorted_by_id(out@),
            out@.to_multiset().add(v@.to_multiset()) == orig.to_multiset(),
            forall|y: usize| #[trigger] with_id(v@, y) + with_id(out@, y) == with_id(orig, y),
        decreases v@.len(),
    {
        let ghost before_v = v@;
        let x = v.pop().unwrap();
        proof {
            assert(before_v =~= v@.push(x));
        }
        let mut p: usize = 0;
        while p < out.len() && out[p].identifier < x.identifier
            invariant
                0 <= p <= out@.len(),
                forall|k: int| 0 <= k < p ==> out@[k]@.identifier < x@.identifier,
            decreases out@.len() - p,
        {
            p += 1;
        }
        let ghost before_out = out@;
        out.insert(p, x);
        proof {
            assert forall|i: int, j: int| 0 <= i < j < out@.len() implies out@[i]@.identifier
                <= out@[j]@.identifier by {
                if j < p {
                    assert(out@[i] == before_out[i] && out@[j] == before_out[j]);
                } else if j == p {
                    assert(out@[i] == before_out[i]);
                } else if i < p {
                    assert(out@[i] == before_out[i] && out@[j] == before_out[j - 1]);
                    assert(before_out[p as int]@.identifier >= x@.identifier);
                    assert(before_out[i]@.identifier <= before_out[p as int]@.identifier);
                } else if i == p {
                    assert(out@[j] == before_out[j - 1]);
                    assert(before_out[p as int]@.identifier >= x@.identifier);
                } else {
                    assert(out@[i] == before_out[i - 1] && out@[j] == before_out[j - 1]);
                }
            }
            vstd::seq_lib::to_multiset_insert(before_out, p as int, x);
            vstd::seq_lib::to_multiset_build(v@, x);
            assert(out@ == before_out.insert(p as int, x));
            assert(out@.to_multiset() == before_out.to_multiset().insert(x));
            assert(before_v.to_multiset() == v@.to_multiset().insert(x));
            assert(out@.to_multiset().add(v@.to_multiset()) =~= before_out.to_multiset().add(
                before_v.to_multiset(),
            ));
            // resources with the same identifier keep their order
            let front = before_out.take(p as int);
            let back = before_out.skip(p as int);
            assert(before_out =~= front + back);
            assert(out@ =~= front + seq![x] + back);
            assert forall|y: usize| #[trigger] with_id(v@, y) + with_id(out@, y) == with_id(orig, y) by {
                lemma_with_id_append(front, back, y);
                lemma_with_id_append(front + seq![x], back, y);
                lemma_with_id_append(front, seq![x], y);
                lemma_with_id_single(x, y);
                assert(with_id(before_v, y) + with_id(before_out, y) == with_id(orig, y));
                assert(before_v.drop_last() =~= v@);
                assert(before_v.last() == x);
                if x@.identifier == y {
                    assert forall|k: int| 0 <= k < front.len() implies (#[trigger] front[k])@.identifier != y by {
                        assert(front[k] == before_out[k]);
                    }
                    lemma_with_id_none(front, y);
                    assert(with_id(v@, y) + with_id(out@, y) =~= with_id(before_v, y) + with_id(before_out, y));
                } else {
                    assert(with_id(v@, y) + with_id(out@, y) =~= with_id(before_v, y) + with_id(before_out, y));
                }
            }
        }
    }
    proof {
        assert(v@.to_multiset() =~= Multiset::empty());
        assert(out@.to_multiset().add(v@.to_multiset()) =~= out@.to_multiset());
        assert(v@ =~= Seq::<CleanAndAnnotated<Resources>>::empty());
        assert forall|y: usize| #[trigger] with_id(out@, y) == with_id(orig, y) by {
            assert(with_id(v@, y) =~= Seq::<CleanAndAnnotated<Resources>>::empty());
            assert(with_id(v@, y) + with_id(out@, y) =~= with_id(out@, y));
        }
    }
    out
}

/// `h[k]` is the first dirty resource with identifier `what`.
pub open spec fn is_first_dirty<Resources>(h: Seq<CleanAndAnnotated<Resources>>, what: usize, k: int) -> bool {
    &&& 0 <= k < h.len()
    &&& h[k]@.identifier == what
    &&& !h[k]@.is_clean
    &&& forall|j: int| 0 <= j < k ==> !(h[j]@.identifier == what && !h[j]@.is_clean)
}

/// No held resource with identifier `what` is dirty.
pub open spec fn no_dirty<Resources>(h: Seq<CleanAndAnnotated<Resources>>, what: usize) -> bool {
    forall|j: int| 0 <= j < h.len() ==> !(h[j]@.identifier == what && !h[j]@.is_clean)
}

/// The outcome of a request for a resource.
pub enum HandOver<Resources> {
    /// No dirty resource with that identifier is held.
    NotHeld,
    /// One is held, but there is no way to send it to the one asking.
    NoRoute,
    /// It was taken out of `position` to be sent, clean, to the philosopher
    /// at position `to`.
    Give { to: usize, position: usize, resource: CleanAndAnnotated<Resources> },
}

/// What a philosopher does next while it clears its backlog.
pub enum ClearAction {
    /// The time for clearing is up.
    Stop,
    /// All jobs left are its own: gather resources and do them.
    Selfish,
    /// It has no job left: give resources to whoever asks.
    Selfless,
    /// Both: ask, do jobs and give, then look again.
    Mixed,
}

/// What happened while a philosopher worked fairly.
pub enum FairEvent<Context> {
    /// A new context to do the job with.
    Work(Context),
    /// No more contexts will come.
    Stop,
    /// Nothing came in time.
    Quiet,
}

/// What a philosopher working fairly does next.
pub enum FairAction {
    /// Try the job at the front of the backlog.
    TryFrontJob,
    /// Clear the backlog, then stop.
    ClearBacklogAndStop,
    /// Go on as before.
    Continue,
}

/// Where in a round of waiting, gathering and giving a philosopher is.
pub enum RoundPhase {
    /// It asked for what it misses and has just waited for a resource.
    Gathering,
    /// Working selfishly, it waits for the resource it asked for.
    Waiting,
    /// Working selfishly, it is done waiting for one resource.
    WaitedOnce,
    /// It has just waited for a request from a peer.
    Answering,
    /// It is at the end of a round of clearing its backlog.
    RoundDone,
    /// Working selflessly, it has just waited for a request from a peer.
    Giving,
}

/// What a philosopher does after a step of a round.
pub enum RoundAction {
    /// Go on in the same phase.
    Continue,
    /// Leave the phase.
    Stop,
    /// Leave the phase because its time is up.
    OutOfTime,
}

/// How a philosopher clears its backlog, given the jobs left in the system.
pub enum Stance {
    /// All jobs left are its own: gather resources and do them.
    Selfish,
    /// It has no job left: give resources to whoever asks.
    Selfless,
    /// Both: alternate between asking, doing jobs and giving.
    Mixed,
}

/// The resources of the sequence, in order.
fn into_underlyings<Resources>(v: Vec<CleanAndAnnotated<Resources>>) -> (out: Vec<Resources>)
    ensures
        out@ == underlyings_of(v@),
{
    let ghost items = v@;
    let mut out: Vec<Resources> = Vec::new();
    for c in it: v
        invariant
            items == it.seq(),
            out@ == underlyings_of(items.take(it.index())),
    {
        proof {
            assert(items.take(it.index() + 1) =~= items.take(it.index()).push(c));
        }
        out.push(c.underlying);
    }
    proof {
        assert(items.take(items.len() as int) =~= items);
    }
    out
}

/// A copy of the vector.
fn copy_positions(v: &Vec<usize>) -> (out: Vec<usize>)
    ensures
        out@ == v@,
{
    let mut out: Vec<usize> = Vec::new();
    let mut k: usize = 0;
    while k < v.len()
        invariant
            0 <= k <= v@.len(),
            out@ == v@.take(k as int),
        decreases v@.len() - k,
    {
        out.push(v[k]);
        proof {
            assert(v@.take(k + 1) =~= v@.take(k as int).push(v@[k as int]));
        }
        k += 1;
    }
    assert(v@.take(v@.len() as int) =~= v@);
    out
}

/// `how_many` copies of the job `f`.
pub fn make_many_same_job<Job: Copy>(f: Job, how_many: usize) -> (jobs: Vec<Job>)
    ensures
        jobs@.len() == how_many,
        forall|k: int| 0 <= k < how_many ==> jobs@[k] == f,
{
    let mut to_return: Vec<Job> = Vec::new();
    let mut k: usize = 0;
    while k < how_many
        invariant
            0 <= k <= how_many,
            to_return@.len() == k,
            forall|j: int| 0 <= j < k ==> to_return@[j] == f,
        decreases how_many - k,
    {
        to_return.push(f);
        k += 1;
    }
    to_return
}

/// The job `f` itself.
pub fn make_one_job<Job>(f: Job) -> (job: Job)
    ensures
        job == f,
{
    f
}

/// What a `Philosopher` holds: its identifier, the resources it holds, its
/// job, where to send resources to each peer and requests for each
/// resource (as positions of philosophers), the identifiers of the
/// resources it needs, and its backlog of contexts.
pub struct PhilosopherView<Resources, Context, Job> {
    pub my_id: usize,
    pub holding: Seq<CleanAndAnnotated<Resources>>,
    pub job: Job,
    pub resource_sending: Map<usize, usize>,
    pub request_sending: Map<usize, Seq<usize>>,
    pub needed: Seq<usize>,
    pub context_queue: Seq<Context>,
}

/// A philosopher of the dining philosophers problem: it holds resources,
/// has a job to do with the resources it needs, and a backlog of contexts
/// to do that job with.
pub struct Philosopher<Resources, Context, Job> {
    pub(crate) my_id: usize,
    pub(crate) holding: Vec<CleanAndAnnotated<Resources>>,
    job: Job,
    resource_sending: HashMap<usize, usize>,
    request_sending: HashMap<usize, Vec<usize>>,
    resources_needed: NonEmpty<usize>,
    context_queue: VecDeque<Context>,
}

impl<Resources, Context, Job> View for Philosopher<Resources, Context, Job> {
    type V = PhilosopherView<Resources, Context, Job>;

    closed spec fn view(&self) -> PhilosopherView<Resources, Context, Job> {
        PhilosopherView {
            my_id: self.my_id,
            holding: self.holding@,
            job: self.job,
            resource_sending: self.resource_sending@,
            request_sending: self.request_sending@.map_values(|v: Vec<usize>| v@),
            needed: nonempty_items(self.resources_needed),
            context_queue: self.context_queue@,
        }
    }
}

impl<Resources, Context, Job> PhilosopherView<Resources, Context, Job> {
    /// Everything but the held resources is as in `other`.
    pub open spec fn same_but_holding(self, other: Self) -> bool {
        &&& self.my_id == other.my_id
        &&& self.job == other.job
        &&& self.resource_sending == other.resource_sending
        &&& self.request_sending == other.request_sending
        &&& self.needed == other.needed
        &&& self.context_queue == other.context_queue
    }

    /// Everything but the backlog is as in `other`.
    pub open spec fn same_but_queue(self, other: Self) -> bool {
        &&& self.my_id == other.my_id
        &&& self.holding == other.holding
        &&& self.job == other.job
        &&& self.resource_sending == other.resource_sending
        &&& self.request_sending == other.request_sending
        &&& self.needed == other.needed
    }

    /// Everything but the held resources and the backlog is as in `other`.
    pub open spec fn same_setup(self, other: Self) -> bool {
        &&& self.my_id == other.my_id
        &&& self.job == other.job
        &&& self.resource_sending == other.resource_sending
        &&& self.request_sending == other.request_sending
        &&& self.needed == other.needed
    }

    /// Some held resource is dirty.
    pub open spec fn has_dirty_resource(self) -> bool {
        exists|k: int| 0 <= k < self.holding.len() && !self.holding[k]@.is_clean
    }

    /// Whether a resource with identifier `what` is held.
    pub open spec fn holds_id(self, what: usize) -> bool {
        ids_of(self.holding).contains(what)
    }

    /// Whether the held resources, sorted by identifier, are exactly the
    /// needed ones.
    pub open spec fn has_all_needed(self, sorted: Seq<CleanAndAnnotated<Resources>>) -> bool {
        ids_of(sorted) == self.needed
    }
}

impl<Resources, Context, Job> Philosopher<Resources, Context, Job> {
    /// A philosopher with the given identifier, resources and job, needing
    /// the given resources; the resources held and needed are sorted by
    /// identifier, and it has no backlog and nowhere to send anything yet.
    pub fn new(
        my_id: usize,
        starting_resources: Vec<CleanAndAnnotated<Resources>>,
        job: Job,
        resources_needed: NonEmpty<usize>,
    ) -> (p: Self)
        ensures
            p@.my_id == my_id,
            is_sorted_version(p@.holding, starting_resources@),
            p@.job == job,
            p@.resource_sending == Map::<usize, usize>::empty(),
            p@.request_sending == Map::<usize, Seq<usize>>::empty(),
            nondecreasing(p@.needed),
            p@.needed.to_multiset() == nonempty_items(resources_needed).to_multiset(),
            p@.context_queue == Seq::<Context>::empty(),
    {
        let holding = sort_by_identifier(starting_resources);
        let mut resources_needed = resources_needed;
        nonempty_sort(&mut resources_needed);
        let p = Self {
            my_id,
            holding,
            job,
            resource_sending: HashMap::new(),
            request_sending: HashMap::new(),
            resources_needed,
            context_queue: VecDeque::new(),
        };
        assert(p@.request_sending =~= Map::<usize, Seq<usize>>::empty());
        p
    }

    /// The identifier of this philosopher.
    pub fn my_id(&self) -> (id: usize)
        ensures
            id == self@.my_id,
    {
        self.my_id
    }

    /// The job of this philosopher.
    pub fn job(&self) -> (j: &Job)
        ensures
            *j == self@.job,
    {
        &self.job
    }

    /// The identifiers of the resources this philosopher needs.
    pub fn view_needed(&self) -> (n: &NonEmpty<usize>)
        ensures
            nonempty_items(*n) == self@.needed,
    {
        &self.resources_needed
    }

    /// The identifiers of the resources this philosopher needs, as a vector.
    pub fn needed_vec(&self) -> (v: Vec<usize>)
        ensures
            v@ == self@.needed,
    {
        let n = nonempty_len(&self.resources_needed);
        let mut v: Vec<usize> = Vec::new();
        let mut i: usize = 0;
        while i < n
            invariant
                n == self@.needed.len(),
                0 <= i <= n,
                v@ == self@.needed.take(i as int),
            decreases n - i,
        {
            v.push(nonempty_get(&self.resources_needed, i));
            proof {
                assert(self@.needed.take(i + 1) =~= self@.needed.take(i as int).push(self@.needed[i as int]));
            }
            i += 1;
        }
        assert(self@.needed.take(n as int) =~= self@.needed);
        v
    }

    /// No contexts are waiting in the backlog.
    pub fn has_no_backlog(&self) -> (b: bool)
        ensures
            b == (self@.context_queue.len() == 0),
    {
        self.context_queue.len() == 0
    }

    /// How many contexts wait in the backlog.
    pub fn count_backlog(&self) -> (n: usize)
        ensures
            n == self@.context_queue.len(),
    {
        self.context_queue.len()
    }

    /// Whether some held resource is dirty.
    pub fn has_dirty(&self) -> (b: bool)
        ensures
            b == self@.has_dirty_resource(),
    {
        let mut k: usize = 0;
        while k < self.holding.len()
            invariant
                0 <= k <= self.holding@.len(),
                forall|j: int| 0 <= j < k ==> self.holding@[j]@.is_clean,
            decreases self.holding@.len() - k,
        {
            if !self.holding[k].is_clean {
                return true;
            }
            k += 1;
        }
        false
    }

    /// The identifiers and cleanliness of the held resources, in order.
    pub fn holding_summary(&self) -> (v: Vec<(usize, bool)>)
        ensures
            v@.len() == self@.holding.len(),
            forall|k: int|
                0 <= k < v@.len() ==> #[trigger] v@[k] == (
                    self@.holding[k]@.identifier,
                    self@.holding[k]@.is_clean,
                ),
    {
        let mut v: Vec<(usize, bool)> = Vec::new();
        let mut k: usize = 0;
        while k < self.holding.len()
            invariant
                0 <= k <= self.holding@.len(),
                v@.len() == k,
                forall|j: int|
                    0 <= j < k ==> #[trigger] v@[j] == (
                        self.holding@[j]@.identifier,
                        self.holding@[j]@.is_clean,
                    ),
            decreases self.holding@.len() - k,
        {
            v.push((self.holding[k].identifier, self.holding[k].is_clean));
            k += 1;
        }
        v
    }

    /// Makes every held resource dirty, with this philosopher as its last
    /// user, so that it is given up when requested.
    pub fn make_all_dirty(&mut self)
        ensures
            final(self)@.same_but_holding(old(self)@),
            final(self)@.holding.len() == old(self)@.holding.len(),
            forall|k: int|
                0 <= k < old(self)@.holding.len() ==> #[trigger] final(self)@.holding[k]@ == (
                AnnotatedView {
                    is_clean: false,
                    last_user: Some(old(self)@.my_id),
                    identifier: old(self)@.holding[k]@.identifier,
                    underlying: old(self)@.holding[k]@.underlying,
                }),
    {
        let mut k: usize = 0;
        while k < self.holding.len()
            invariant
                0 <= k <= self.holding@.len(),
                self@.same_but_holding(old(self)@),
                self.holding@.len() == old(self).holding@.len(),
                forall|j: int|
                    0 <= j < k ==> #[trigger] self.holding@[j]@ == (AnnotatedView {
                        is_clean: false,
                        last_user: Some(old(self)@.my_id),
                        identifier: old(self)@.holding[j]@.identifier,
                        underlying: old(self)@.holding[j]@.underlying,
                    }),
                forall|j: int| k <= j < self.holding@.len() ==> #[trigger] self.holding@[j] == old(self)@.holding[j],
            decreases self.holding@.len() - k,
        {
            let id = self.my_id;
            self.holding[k].is_clean = false;
            self.holding[k].last_user = Some(id);
            k += 1;
        }
    }
}

impl<Resources, Context, Job> PhilosopherView<Resources, Context, Job> {
    /// `needed[k]` is the first needed resource that is not held.
    pub open spec fn is_first_missing(self, k: int) -> bool {
        &&& 0 <= k < self.needed.len()
        &&& !self.holds_id(self.needed[k])
        &&& forall|j: int| 0 <= j < k ==> self.holds_id(self.needed[j])
    }

    /// Every needed resource is held.
    pub open spec fn misses_none(self) -> bool {
        forall|j: int| 0 <= j < self.needed.len() ==> self.holds_id(self.needed[j])
    }
}

impl<Resources, Context, Job> Philosopher<Resources, Context, Job> {
    /// Sorts the held resources by identifier; if they are then exactly the
    /// needed ones, takes them all out and hands them back, in that order,
    /// for the job.
    pub fn start_job(&mut self) -> (taken: Option<Vec<Resources>>)
        ensures
            final(self)@.same_but_holding(old(self)@),
            taken is None ==> is_sorted_version(final(self)@.holding, old(self)@.holding) && !old(self)@.has_all_needed(final(self)@.holding),
            taken matches Some(rs) ==> final(self)@.holding.len() == 0 && exists|
                h: Seq<CleanAndAnnotated<Resources>>,
            |
                is_sorted_version(h, old(self)@.holding) && old(self)@.has_all_needed(h) && rs@
                    == underlyings_of(h),
    {
        let mut tmp: Vec<CleanAndAnnotated<Resources>> = Vec::new();
        std::mem::swap(&mut tmp, &mut self.holding);
        self.holding = sort_by_identifier(tmp);
        let n = nonempty_len(&self.resources_needed);
        let mut have_all_needed = self.holding.len() == n;
        if have_all_needed {
            let mut k: usize = 0;
            while k < n && self.holding[k].identifier == nonempty_get(&self.resources_needed, k)
                invariant
                    n == self@.needed.len(),
                    n == self.holding@.len(),
                    0 <= k <= n,
                    forall|j: int| 0 <= j < k ==> self.holding@[j]@.identifier == self@.needed[j],
                decreases n - k,
            {
                k += 1;
            }
            have_all_needed = k == n;
            proof {
                if have_all_needed {
                    assert(ids_of(self.holding@) =~= self@.needed);
                } else {
                    assert(ids_of(self.holding@)[k as int] != self@.needed[k as int]);
                }
            }
        } else {
            assert(ids_of(self.holding@).len() != self@.needed.len());
        }
        if have_all_needed {
            let mut all: Vec<CleanAndAnnotated<Resources>> = Vec::new();
            std::mem::swap(&mut all, &mut self.holding);
            Some(into_underlyings(all))
        } else {
            None
        }
    }

    /// Takes back the resources a job handed back, in the order of the needed
    /// identifiers, each dirty and last used by this philosopher.
    pub fn end_job(&mut self, recovered: Vec<Resources>)
        requires
            old(self)@.holding.len() == 0,
            recovered@.len() == old(self)@.needed.len(),
        ensures
            final(self)@.same_but_holding(old(self)@),
            final(self)@.holding.len() == recovered@.len(),
            forall|k: int|
                0 <= k < recovered@.len() ==> #[trigger] final(self)@.holding[k]@ == (AnnotatedView {
                    is_clean: false,
                    last_user: Some(old(self)@.my_id),
                    identifier: old(self)@.needed[k],
                    underlying: recovered@[k],
                }),
    {
        let ghost items = recovered@;
        let n = nonempty_len(&self.resources_needed);
        for r in it: recovered
            invariant
                items == it.seq(),
                n == self@.needed.len(),
                items.len() == n,
                self@.same_but_holding(old(self)@),
                self@.holding.len() == it.index(),
                forall|k: int|
                    0 <= k < it.index() ==> #[trigger] self@.holding[k]@ == (AnnotatedView {
                        is_clean: false,
                        last_user: Some(old(self)@.my_id),
                        identifier: old(self)@.needed[k],
                        underlying: items[k],
                    }),
        {
            let k = self.holding.len();
            let identifier = nonempty_get(&self.resources_needed, k);
            let mut annotated_resource = CleanAndAnnotated::new(r, identifier);
            annotated_resource.is_clean = false;
            annotated_resource.last_user = Some(self.my_id);
            self.holding.push(annotated_resource);
        }
    }

    /// Answers a request from `who` for the resource `what`: if a dirty one
    /// is held and there is a way to send it to `who`, takes the first such
    /// one out, clean, to be sent.
    pub fn hand_over(&mut self, who: usize, what: usize) -> (out: HandOver<Resources>)
        ensures
            out is NotHeld ==> no_dirty(old(self)@.holding, what) && final(self)@ == old(self)@,
            out is NoRoute ==> (exists|k: int| is_first_dirty(old(self)@.holding, what, k))
                && !old(self)@.resource_sending.contains_key(who) && final(self)@ == old(self)@,
            out matches HandOver::Give { to, position, resource } ==> {
                &&& is_first_dirty(old(self)@.holding, what, position as int)
                &&& old(self)@.resource_sending.contains_key(who)
                &&& to == old(self)@.resource_sending[who]
                &&& resource@ == (AnnotatedView {
                    is_clean: true,
                    ..old(self)@.holding[position as int]@
                })
                &&& final(self)@.holding == old(self)@.holding.remove(position as int)
                &&& final(self)@.same_but_holding(old(self)@)
            },
    {
        let mut k: usize = 0;
        while k < self.holding.len() && !(self.holding[k].identifier == what && !self.holding[k].is_clean)
            invariant
                0 <= k <= self.holding@.len(),
                forall|j: int| 0 <= j < k ==> !(self.holding@[j]@.identifier == what && !self.holding@[j]@.is_clean),
            decreases self.holding@.len() - k,
        {
            k += 1;
        }
        if k == self.holding.len() {
            return HandOver::NotHeld;
        }
        assert(is_first_dirty(self.holding@, what, k as int));
        match self.resource_sending.get(&who) {
            Some(to) => {
                let to = *to;
                let mut to_send = self.holding.remove(k);
                to_send.is_clean = true;
                HandOver::Give { to, position: k, resource: to_send }
            },
            None => HandOver::NoRoute,
        }
    }

    /// Takes back, dirty and at `position`, a resource that could not be
    /// sent after all.
    pub fn take_back(&mut self, position: usize, resource: CleanAndAnnotated<Resources>)
        requires
            position <= old(self)@.holding.len(),
        ensures
            final(self)@.same_but_holding(old(self)@),
            final(self)@.holding.len() == old(self)@.holding.len() + 1,
            final(self)@.holding[position as int]@ == (AnnotatedView { is_clean: false, ..resource@ }),
            forall|k: int| 0 <= k < position ==> #[trigger] final(self)@.holding[k] == old(self)@.holding[k],
            forall|k: int|
                position < k <= old(self)@.holding.len() ==> #[trigger] final(self)@.holding[k] == old(self)@.holding[k - 1],
    {
        let mut resource = resource;
        resource.is_clean = false;
        self.holding.insert(position, resource);
    }

    /// Whether a resource with identifier `what` is held.
    fn holds(&self, what: usize) -> (b: bool)
        ensures
            b == self@.holds_id(what),
    {
        let mut k: usize = 0;
        while k < self.holding.len()
            invariant
                0 <= k <= self.holding@.len(),
                forall|j: int| 0 <= j < k ==> self.holding@[j]@.identifier != what,
            decreases self.holding@.len() - k,
        {
            if self.holding[k].identifier == what {
                assert(ids_of(self.holding@)[k as int] == what);
                return true;
            }
            k += 1;
        }
        proof {
            if ids_of(self.holding@).contains(what) {
                let j = choose|j: int| 0 <= j < ids_of(self.holding@).len() && ids_of(self.holding@)[j] == what;
                assert(self.holding@[j]@.identifier == what);
            }
        }
        false
    }

    /// The positions to ask for the resource `r`, if any are known.
    fn targets_for(&self, r: usize) -> (out: Option<(usize, Vec<usize>)>)
        ensures
            out is Some <==> self@.request_sending.contains_key(r),
            out matches Some((rr, v)) ==> rr == r && v@ == self@.request_sending[r],
    {
        match self.request_sending.get(&r) {
            Some(v) => Some((r, copy_positions(v))),
            None => None,
        }
    }

    /// Where to send a request for a resource: for `Some(r)`, the positions of
    /// the philosophers to ask for `r`, if any are known; for `None`, the same
    /// for the first needed resource that is not held, if there is one.
    pub fn request_targets(&self, which_one: Option<usize>) -> (out: Option<(usize, Vec<usize>)>)
        ensures
            which_one is Some ==> (out is Some <==> self@.request_sending.contains_key(
                which_one->0,
            )),
            which_one is Some ==> (out matches Some((rr, v)) ==> rr == which_one->0 && v@
                == self@.request_sending[which_one->0]),
            which_one is None && self@.misses_none() ==> out is None,
            which_one is None && !self@.misses_none() ==> exists|k: int|
                #![trigger self@.needed[k]]
                self@.is_first_missing(k) && (out is Some <==> self@.request_sending.contains_key(
                    self@.needed[k],
                )) && (out matches Some((rr, v)) ==> rr == self@.needed[k] && v@
                    == self@.request_sending[self@.needed[k]]),
    {
        match which_one {
            None => {
                let n = nonempty_len(&self.resources_needed);
                let mut k: usize = 0;
                while k < n
                    invariant
                        which_one is None,
                        n == self@.needed.len(),
                        0 <= k <= n,
                        forall|j: int| 0 <= j < k ==> self@.holds_id(self@.needed[j]),
                    decreases n - k,
                {
                    let first_needed = nonempty_get(&self.resources_needed, k);
                    if !self.holds(first_needed) {
                        assert(self@.is_first_missing(k as int));
                        return self.targets_for(first_needed);
                    }
                    k += 1;
                }
                None
            },
            Some(r) => self.targets_for(r),
        }
    }

    /// Where a binary search by identifier places `x` among the held
    /// resources: if they are sorted, every one before it has an identifier
    /// at most `x` and every one from it on at least `x`.
    fn insert_position(&self, x: usize) -> (p: usize)
        ensures
            p <= self@.holding.len(),
            sorted_by_id(self@.holding) ==> forall|k: int|
                0 <= k < p ==> self@.holding[k]@.identifier <= x,
            sorted_by_id(self@.holding) ==> forall|k: int|
                p <= k < self@.holding.len() ==> self@.holding[k]@.identifier >= x,
    {
        let mut lo: usize = 0;
        let mut hi: usize = self.holding.len();
        while lo < hi
            invariant
                0 <= lo <= hi <= self.holding@.len(),
                sorted_by_id(self.holding@) ==> (forall|k: int|
                    0 <= k < lo ==> self.holding@[k]@.identifier < x),
                sorted_by_id(self.holding@) ==> (forall|k: int|
                    hi <= k < self.holding@.len() ==> self.holding@[k]@.identifier > x),
            decreases hi - lo,
        {
            let mid = lo + (hi - lo) / 2;
            let probe = self.holding[mid].identifier;
            if probe < x {
                lo = mid + 1;
            } else if probe > x {
                hi = mid;
            } else {
                proof {
                    if sorted_by_id(self.holding@) {
                        assert forall|k: int| 0 <= k < mid implies self.holding@[k]@.identifier <= x by {
                            assert(self.holding@[k]@.identifier <= self.holding@[mid as int]@.identifier);
                        }
                        assert forall|k: int| mid <= k < self.holding@.len() implies self.holding@[k]@.identifier >= x by {
                            if k > mid {
                                assert(self.holding@[mid as int]@.identifier <= self.holding@[k]@.identifier);
                            }
                        }
                    }
                }
                return mid;
            }
        }
        lo
    }

    /// Puts a received resource into the held ones, at the place a binary
    /// search by identifier finds; held resources sorted by identifier stay
    /// sorted.
    pub fn receive(&mut self, resource: CleanAndAnnotated<Resources>)
        ensures
            final(self)@.same_but_holding(old(self)@),
            exists|p: int|
                0 <= p <= old(self)@.holding.len() && final(self)@.holding == old(self)@.holding.insert(
                    p,
                    resource,
                ),
            sorted_by_id(old(self)@.holding) ==> sorted_by_id(final(self)@.holding),
    {
        let where_to_insert = self.insert_position(resource.identifier);
        let ghost before = self.holding@;
        self.holding.insert(where_to_insert, resource);
        proof {
            assert(self.holding@ == before.insert(where_to_insert as int, resource));
            if sorted_by_id(before) {
                assert forall|i: int, j: int| 0 <= i < j < self.holding@.len() implies self.holding@[i]@.identifier
                    <= self.holding@[j]@.identifier by {
                    let p = where_to_insert as int;
                    if j < p {
                        assert(self.holding@[i] == before[i] && self.holding@[j] == before[j]);
                    } else if j == p {
                        assert(self.holding@[i] == before[i]);
                    } else if i < p {
                        assert(self.holding@[i] == before[i] && self.holding@[j] == before[j - 1]);
                    } else if i == p {
                        assert(self.holding@[j] == before[j - 1]);
                    } else {
                        assert(self.holding@[i] == before[i - 1] && self.holding@[j] == before[j - 1]);
                    }
                }
            }
        }
    }

    /// Remembers that the philosopher `who` may request resources from this
    /// one, which are sent to it at position `position`.
    pub fn peer_will_request(&mut self, who: usize, position: usize)
        ensures
            final(self)@.resource_sending == old(self)@.resource_sending.insert(who, position),
            final(self)@.my_id == old(self)@.my_id,
            final(self)@.holding == old(self)@.holding,
            final(self)@.job == old(self)@.job,
            final(self)@.request_sending == old(self)@.request_sending,
            final(self)@.needed == old(self)@.needed,
            final(self)@.context_queue == old(self)@.context_queue,
    {
        let _old_value = self.resource_sending.insert(who, position);
    }

    /// If this philosopher needs the resource `what`, remembers that it can
    /// request it from the philosopher at position `position`.
    pub fn i_will_request(&mut self, what: usize, position: usize)
        ensures
            old(self)@.needed.contains(what) ==> final(self)@.request_sending == old(self)@.request_sending.insert(
                what,
                if old(self)@.request_sending.contains_key(what) {
                    old(self)@.request_sending[what]
                } else {
                    Seq::<usize>::empty()
                }.push(position),
            ),
            !old(self)@.needed.contains(what) ==> final(self)@.request_sending == old(self)@.request_sending,
            final(self)@.resource_sending == old(self)@.resource_sending,
            final(self)@.my_id == old(self)@.my_id,
            final(self)@.holding == old(self)@.holding,
            final(self)@.job == old(self)@.job,
            final(self)@.needed == old(self)@.needed,
            final(self)@.context_queue == old(self)@.context_queue,
    {
        if nonempty_contains(&self.resources_needed, &what) {
            let ghost before = self.request_sending@;
            let mut present = match self.request_sending.remove(&what) {
                Some(v) => v,
                None => Vec::new(),
            };
            present.push(position);
            self.request_sending.insert(what, present);
            proof {
                assert(self.request_sending@.map_values(|v: Vec<usize>| v@) =~= before.map_values(
                    |v: Vec<usize>| v@,
                ).insert(what, present@));
            }
        }
    }

    /// Takes the resource if this philosopher needs it (and hands back
    /// nothing); otherwise hands it back.
    pub fn get_resource_not_peer(&mut self, resource: CleanAndAnnotated<Resources>) -> (back: Option<
        CleanAndAnnotated<Resources>,
    >)
        ensures
            final(self)@.same_but_holding(old(self)@),
            old(self)@.needed.contains(resource@.identifier) ==> back is None && final(self)@.holding
                == old(self)@.holding.push(resource),
            !old(self)@.needed.contains(resource@.identifier) ==> back == Some(resource) && final(self)@.holding == old(self)@.holding,
    {
        if nonempty_contains(&self.resources_needed, &resource.identifier) {
            self.holding.push(resource);
            None
        } else {
            Some(resource)
        }
    }

    /// Adds a context at the back of the backlog.
    pub fn push_context_back(&mut self, ctx: Context)
        ensures
            final(self)@.same_but_queue(old(self)@),
            final(self)@.context_queue == old(self)@.context_queue.push(ctx),
    {
        self.context_queue.push_back(ctx);
    }

    /// Puts a context back at the front of the backlog.
    pub fn push_context_front(&mut self, ctx: Context)
        ensures
            final(self)@.same_but_queue(old(self)@),
            final(self)@.context_queue == seq![ctx] + old(self)@.context_queue,
    {
        self.context_queue.push_front(ctx);
    }

    /// Takes the context at the front of the backlog, if any.
    pub fn pop_context_front(&mut self) -> (ctx: Option<Context>)
        ensures
            final(self)@.same_but_queue(old(self)@),
            old(self)@.context_queue.len() == 0 ==> ctx is None && final(self)@.context_queue
                == old(self)@.context_queue,
            old(self)@.context_queue.len() > 0 ==> ctx == Some(old(self)@.context_queue[0])
                && final(self)@.context_queue == old(self)@.context_queue.drop_first(),
    {
        self.context_queue.pop_front()
    }

    /// The next step of clearing the backlog, `est_used_ms` milliseconds of
    /// waiting and `elapsed_ms` milliseconds of time into it, with a budget
    /// of `full_ms`: stop once the waiting reaches the budget or the time
    /// exceeds five budgets, otherwise act as `clearing_stance` says.
    pub fn clearing_step(&self, jobs_in_system: usize, est_used_ms: u64, elapsed_ms: u64, full_ms: u64) -> (a: ClearAction)
        ensures
            a is Stop <==> est_used_ms >= full_ms || elapsed_ms > 5 * full_ms,
            a is Selfish <==> !(est_used_ms >= full_ms || elapsed_ms > 5 * full_ms) && jobs_in_system > 0
                && jobs_in_system == self@.context_queue.len(),
            a is Selfless <==> !(est_used_ms >= full_ms || elapsed_ms > 5 * full_ms) && !(jobs_in_system > 0
                && jobs_in_system == self@.context_queue.len()) && self@.context_queue.len() == 0,
            a is Mixed <==> !(est_used_ms >= full_ms || elapsed_ms > 5 * full_ms) && !(jobs_in_system > 0
                && jobs_in_system == self@.context_queue.len()) && self@.context_queue.len() > 0,
    {
        let five_budgets: u128 = 5 * (full_ms as u128);
        if est_used_ms >= full_ms || (elapsed_ms as u128) > five_budgets {
            return ClearAction::Stop;
        }
        match self.clearing_stance(jobs_in_system) {
            Stance::Selfish => ClearAction::Selfish,
            Stance::Selfless => ClearAction::Selfless,
            Stance::Mixed => ClearAction::Mixed,
        }
    }

    /// The next step of working fairly after `ev`: a new context goes to the
    /// back of the backlog and the front job is tried; the end of contexts
    /// means clearing the backlog and stopping; otherwise nothing changes.
    pub fn fair_step(&mut self, ev: FairEvent<Context>) -> (a: FairAction)
        ensures
            ev matches FairEvent::Work(c) ==> a is TryFrontJob && final(self)@.same_but_queue(old(self)@)
                && final(self)@.context_queue == old(self)@.context_queue.push(c),
            ev is Stop ==> a is ClearBacklogAndStop && final(self)@ == old(self)@,
            ev is Quiet ==> a is Continue && final(self)@ == old(self)@,
    {
        match ev {
            FairEvent::Work(ctx) => {
                self.context_queue.push_back(ctx);
                FairAction::TryFrontJob
            },
            FairEvent::Stop => FairAction::ClearBacklogAndStop,
            FairEvent::Quiet => FairAction::Continue,
        }
    }

    /// The next action in `phase`, `est_used_ms` milliseconds of waiting into
    /// the phase's budget of `full_ms`, with `jobs_in_system` jobs left in the
    /// system, `received` whether a resource just came and `got_request`
    /// whether a request just came:
    /// - gathering goes on while resources keep coming within one budget;
    /// - a selfish wait goes on while nothing came within one budget, and
    ///   selfish waiting as a whole stops past ten budgets;
    /// - answering goes on while requests come, a dirty resource is held and
    ///   the budget lasts;
    /// - a round of clearing is the last once no job is left in the system;
    /// - giving stops once no job is left, and runs out of time past twenty
    ///   budgets.
    pub fn round_step(
        &self,
        phase: RoundPhase,
        jobs_in_system: usize,
        received: bool,
        got_request: bool,
        est_used_ms: u64,
        full_ms: u64,
    ) -> (a: RoundAction)
        ensures
            phase is Gathering ==> (a is Continue <==> received && est_used_ms <= full_ms) && !(a is OutOfTime),
            phase is Waiting ==> (a is Continue <==> !received && est_used_ms <= full_ms) && !(a is OutOfTime),
            phase is WaitedOnce ==> (a is Stop <==> est_used_ms > 10 * full_ms) && !(a is OutOfTime),
            phase is Answering ==> (a is Continue <==> got_request && self@.has_dirty_resource()
                && est_used_ms <= full_ms) && !(a is OutOfTime),
            phase is RoundDone ==> (a is Stop <==> jobs_in_system == 0) && !(a is OutOfTime),
            phase is Giving ==> (a is Stop <==> jobs_in_system == 0) && (a is OutOfTime <==> jobs_in_system
                != 0 && est_used_ms > 20 * full_ms),
    {
        let within = est_used_ms <= full_ms;
        let keep_on = match phase {
            RoundPhase::Gathering => received && within,
            RoundPhase::Waiting => !received && within,
            RoundPhase::WaitedOnce => (est_used_ms as u128) <= 10 * (full_ms as u128),
            RoundPhase::Answering => got_request && within && self.has_dirty(),
            RoundPhase::RoundDone => jobs_in_system != 0,
            RoundPhase::Giving => {
                if jobs_in_system == 0 {
                    false
                } else if (est_used_ms as u128) > 20 * (full_ms as u128) {
                    return RoundAction::OutOfTime;
                } else {
                    true
                }
            },
        };
        if keep_on {
            RoundAction::Continue
        } else {
            RoundAction::Stop
        }
    }

    /// Takes the context at the front of the backlog and, if all needed
    /// resources are held, hands it out with them for the job (as
    /// `start_job` does); otherwise the context stays at the front and the
    /// held resources are sorted, as `start_job` leaves them.
    pub fn next_backlog_job(&mut self) -> (out: Option<(Context, Vec<Resources>)>)
        ensures
            final(self)@.same_setup(old(self)@),
            out matches Some((c, rs)) ==> {
                &&& old(self)@.context_queue.len() > 0
                &&& c == old(self)@.context_queue[0]
                &&& final(self)@.context_queue == old(self)@.context_queue.drop_first()
                &&& final(self)@.holding.len() == 0
                &&& exists|h: Seq<CleanAndAnnotated<Resources>>|
                    is_sorted_version(h, old(self)@.holding) && old(self)@.has_all_needed(h) && rs@
                        == underlyings_of(h)
            },
            out is None ==> final(self)@.context_queue == old(self)@.context_queue,
            out is None && old(self)@.context_queue.len() == 0 ==> final(self)@ == old(self)@,
            out is None && old(self)@.context_queue.len() > 0 ==> is_sorted_version(
                final(self)@.holding,
                old(self)@.holding,
            ) && !old(self)@.has_all_needed(final(self)@.holding),
    {
        match self.pop_context_front() {
            None => None,
            Some(ctx) => {
                match self.start_job() {
                    Some(rs) => Some((ctx, rs)),
                    None => {
                        let ghost q = self@.context_queue;
                        self.push_context_front(ctx);
                        proof {
                            assert(seq![ctx] + q =~= old(self)@.context_queue);
                        }
                        None
                    },
                }
            },
        }
    }

    /// How to clear the backlog when `jobs_in_system` jobs are left in the
    /// whole system: selfishly when they are all this philosopher's, selflessly
    /// when none is, and mixed otherwise.
    pub fn clearing_stance(&self, jobs_in_system: usize) -> (s: Stance)
        ensures
            s is Selfish <==> jobs_in_system > 0 && jobs_in_system == self@.context_queue.len(),
            s is Selfless <==> !(jobs_in_system > 0 && jobs_in_system == self@.context_queue.len())
                && self@.context_queue.len() == 0,
            s is Mixed <==> !(jobs_in_system > 0 && jobs_in_system == self@.context_queue.len())
                && self@.context_queue.len() > 0,
    {
        if jobs_in_system > 0 && jobs_in_system == self.context_queue.len() {
            Stance::Selfish
        } else if self.context_queue.len() == 0 {
            Stance::Selfless
        } else {
            Stance::Mixed
        }
    }
}

/// Giving out a resource and then taking it back at the position it came
/// from leaves the philosopher as it was: `before` is the philosopher before
/// `hand_over` gave out `resource` from `position`, `given` the philosopher
/// after it, and `after` the philosopher after `take_back`.
pub proof fn lemma_take_back_undoes_hand_over<Resources, Context, Job>(
    before: PhilosopherView<Resources, Context, Job>,
    given: PhilosopherView<Resources, Context, Job>,
    after: PhilosopherView<Resources, Context, Job>,
    what: usize,
    position: usize,
    resource: CleanAndAnnotated<Resources>,
)
    requires
        is_first_dirty(before.holding, what, position as int),
        resource@ == (AnnotatedView { is_clean: true, ..before.holding[position as int]@ }),
        given.holding == before.holding.remove(position as int),
        given.same_but_holding(before),
        after.same_but_holding(given),
        after.holding.len() == given.holding.len() + 1,
        after.holding[position as int]@ == (AnnotatedView { is_clean: false, ..resource@ }),
        forall|k: int| 0 <= k < position ==> #[trigger] after.holding[k] == given.holding[k],
        forall|k: int|
            position < k <= given.holding.len() ==> #[trigger] after.holding[k] == given.holding[k - 1],
    ensures
        after == before,
{
    assert(after.holding[position as int] == before.holding[position as int]);
    assert(after.holding =~= before.holding) by {
        assert forall|k: int| 0 <= k < before.holding.len() implies after.holding[k] == before.holding[k] by {
            if k < position {
                assert(given.holding[k] == before.holding[k]);
            } else if k > position {
                assert(given.holding[k - 1] == before.holding[k]);
            }
        }
    }
}

/// Handing a resource from one philosopher to another keeps the resources:
/// `giver` and `receiver` are the two before, `given` the giver after
/// `hand_over` gave out `resource` from `position`, and `received` the
/// receiver after `receive` took it. The identifiers the two hold together
/// stay the same, each as often as before; only a dirty resource moves, and
/// it arrives clean.
pub proof fn lemma_hand_over_conserves<Resources, Context, Job>(
    giver: PhilosopherView<Resources, Context, Job>,
    given: PhilosopherView<Resources, Context, Job>,
    receiver: PhilosopherView<Resources, Context, Job>,
    received: PhilosopherView<Resources, Context, Job>,
    what: usize,
    position: usize,
    resource: CleanAndAnnotated<Resources>,
)
    requires
        is_first_dirty(giver.holding, what, position as int),
        resource@ == (AnnotatedView { is_clean: true, ..giver.holding[position as int]@ }),
        given.holding == giver.holding.remove(position as int),
        exists|p: int|
            0 <= p <= receiver.holding.len() && received.holding == receiver.holding.insert(p, resource),
    ensures
        ids_of(given.holding).to_multiset().add(ids_of(received.holding).to_multiset()) == ids_of(
            giver.holding,
        ).to_multiset().add(ids_of(receiver.holding).to_multiset()),
        !giver.holding[position as int]@.is_clean,
        resource@.is_clean,
        resource@.identifier == what,
        received.holding.contains(resource),
{
    broadcast use vstd::multiset::group_multiset_axioms;

    let p = choose|p: int|
        0 <= p <= receiver.holding.len() && received.holding == receiver.holding.insert(p, resource);
    let gi = ids_of(giver.holding);
    let ri = ids_of(receiver.holding);
    assert(ids_of(given.holding) =~= gi.remove(position as int));
    assert(ids_of(received.holding) =~= ri.insert(p, what));
    vstd::seq_lib::to_multiset_remove(gi, position as int);
    vstd::seq_lib::to_multiset_insert(ri, p, what);
    assert(gi[position as int] == what);
    vstd::seq_lib::to_multiset_contains(gi, what);
    assert(gi.to_multiset().remove(what).add(ri.to_multiset().insert(what)) =~= gi.to_multiset().add(
        ri.to_multiset(),
    ));
    assert(received.holding[p] == resource);
}

/// The backlog after putting the contexts of `given` at its back, one after
/// another.
pub open spec fn pushed_back<Context>(q: Seq<Context>, given: Seq<Context>) -> Seq<Context>
    decreases given.len(),
{
    if given.len() == 0 {
        q
    } else {
        pushed_back(q.push(given[0]), given.drop_first())
    }
}

/// The first `k` contexts taken from the front of the backlog `q`, one after
/// another.
pub open spec fn taken_front<Context>(q: Seq<Context>, k: nat) -> Seq<Context>
    decreases k,
{
    if k == 0 || q.len() == 0 {
        Seq::empty()
    } else {
        seq![q[0]] + taken_front(q.drop_first(), (k - 1) as nat)
    }
}

/// Taking contexts from the front hands them out in the order of the backlog.
proof fn lemma_taken_front<Context>(q: Seq<Context>, k: nat)
    requires
        k <= q.len(),
    ensures
        taken_front(q, k) == q.take(k as int),
    decreases k,
{
    if k > 0 {
        lemma_taken_front(q.drop_first(), (k - 1) as nat);
        assert(seq![q[0]] + q.drop_first().take(k - 1) =~= q.take(k as int));
    } else {
        assert(q.take(0) =~= Seq::<Context>::empty());
    }
}

/// The jobs of one philosopher are done in the order their contexts were
/// given: putting the contexts of `given` at the back of the backlog `q`, one
/// after another, leaves `q` followed by them, and taking every context from
/// the front then hands out `q` and then `given`, in order.
pub proof fn lemma_backlog_keeps_order<Context>(q: Seq<Context>, given: Seq<Context>)
    ensures
        pushed_back(q, given) == q + given,
        taken_front(pushed_back(q, given), q.len() + given.len()) == q + given,
    decreases given.len(),
{
    if given.len() == 0 {
        assert(q + given =~= q);
    } else {
        lemma_backlog_keeps_order(q.push(given[0]), given.drop_first());
        assert(q.push(given[0]) + given.drop_first() =~= q + given);
    }
    lemma_taken_front(q + given, q.len() + given.len());
    assert((q + given).take((q.len() + given.len()) as int) =~= q + given);
}

/// The number of failed request sends in a row after one more try: back to
/// zero when a request went out or none was due, one more when one was due
/// but none went out.
pub fn next_failed_sends(had_request_to_send: bool, sent_a_request: bool, count_failed_send: u8) -> (n: u8)
    requires
        had_request_to_send && !sent_a_request ==> count_failed_send < u8::MAX,
    ensures
        n == if had_request_to_send && !sent_a_request {
            count_failed_send + 1
        } else {
            0
        },
{
    if had_request_to_send && sent_a_request {
        0
    } else if had_request_to_send {
        count_failed_send + 1
    } else {
        0
    }
}

/// Whether to try again to send a request: one is due and fewer than three
/// sends in a row have failed.
pub fn keep_requesting(had_request_to_send: bool, count_failed_send: u8) -> (b: bool)
    ensures
        b == (had_request_to_send && count_failed_send < 3),
{
    had_request_to_send && count_failed_send < 3
}

/// Whether no philosopher has a backlog left.
pub fn all_backlogs_empty<Resources, Context, Job>(philosophers: &Vec<Philosopher<Resources, Context, Job>>) -> (b: bool)
    ensures
        b == forall|k: int| 0 <= k < philosophers@.len() ==> (#[trigger] philosophers@[k])@.context_queue.len() == 0,
{
    let mut k: usize = 0;
    while k < philosophers.len()
        invariant
            0 <= k <= philosophers@.len(),
            forall|j: int| 0 <= j < k ==> (#[trigger] philosophers@[j])@.context_queue.len() == 0,
        decreases philosophers@.len() - k,
    {
        if !philosophers[k].has_no_backlog() {
            return false;
        }
        k += 1;
    }
    true
}

/// The position of the first philosopher with identifier `id`, if any.
pub fn position_of<Resources, Context, Job>(
    philosophers: &Vec<Philosopher<Resources, Context, Job>>,
    id: usize,
) -> (pos: Option<usize>)
    ensures
        pos is None ==> forall|k: int| 0 <= k < philosophers@.len() ==> (#[trigger] philosophers@[k])@.my_id != id,
        pos matches Some(k) ==> k < philosophers@.len() && philosophers@[k as int]@.my_id == id
            && forall|j: int| 0 <= j < k ==> (#[trigger] philosophers@[j])@.my_id != id,
{
    let mut k: usize = 0;
    while k < philosophers.len()
        invariant
            0 <= k <= philosophers@.len(),
            forall|j: int| 0 <= j < k ==> (#[trigger] philosophers@[j])@.my_id != id,
        decreases philosophers@.len() - k,
    {
        if philosophers[k].my_id() == id {
            return Some(k);
        }
        k += 1;
    }
    None
}

} // verus!
