//! The execution engine: systems run in registration order, and the events
//! each system or handler emits are dispatched depth-first to the handlers
//! registered for their type-key.
//!
//! Systems and handlers are the embedding application's callables, which the
//! library cannot run itself. The engine is therefore a step machine: the
//! caller asks `next_action` what to run, runs it, collects what it emitted
//! into a `Context`, and hands that back through `report`; the machine works
//! out — and this module proves — which batches reach which handlers and in
//! what order.

use vstd::prelude::*;

verus! {

use crate::events::Context;
use crate::events::EventHandlers;
use crate::events::ids_for;
use crate::events::queued_after;
use crate::events::lemma_emission_order;

/// What the driving loop must run next.
#[derive(Clone, Copy, Debug, PartialEq, Eq, Structural)]
pub enum Action {
    /// Run the system with this index, with a fresh context.
    RunSystem(usize),
    /// Run this handler with the current batch (see `current_batch`) of
    /// events of this type-key, and a fresh context.
    RunHandler { handler: usize, event_key: u64 },
    /// The pass is complete.
    Done,
}

/// The observable state of one pending dispatch: a batch of events of one
/// type-key and the handlers still to receive it, in registration order.
pub struct PendingView<V> {
    /// The batch's event type-key.
    pub key: u64,
    /// The batched event values, in emission order.
    pub batch: Seq<V>,
    /// The ids of the handlers still to run, first next.
    pub handlers: Seq<usize>,
}

/// One pending dispatch: a batch of events of one type-key and the handlers
/// still to receive it.
struct Pending<V> {
    event_key: u64,
    batch: Vec<V>,
    handlers: Vec<usize>,
}

impl<V> Pending<V> {
    spec fn view_spec(self) -> PendingView<V> {
        PendingView { key: self.event_key, batch: self.batch@, handlers: self.handlers@ }
    }
}

/// The dispatch stack after the current action is accounted for: the top
/// pending loses the handler that just ran, and leaves the stack once its
/// handlers are exhausted. An empty stack (a system ran) is unchanged.
pub open spec fn advanced_stack<V>(s: Seq<PendingView<V>>) -> Seq<PendingView<V>> {
    if s.len() == 0 {
        s
    } else {
        let top = s.last();
        if top.handlers.len() <= 1 {
            s.drop_last()
        } else {
            s.drop_last().push(
                PendingView { key: top.key, batch: top.batch, handlers: top.handlers.drop_first() },
            )
        }
    }
}

/// The pending dispatches a drained context gives rise to, in bucket order:
/// one per type-key whose batch is non-empty and which has registered
/// handlers; its batch is the queued batch and its handlers are exactly the
/// ids registered for the key, in registration order.
pub open spec fn pendings_of<V>(regs: Seq<u64>, keys: Seq<u64>, queued: Map<u64, Seq<V>>) -> Seq<
    PendingView<V>,
>
    decreases keys.len(),
{
    if keys.len() == 0 {
        Seq::empty()
    } else {
        let rest = pendings_of(regs, keys.drop_last(), queued);
        let k = keys.last();
        if queued.contains_key(k) && queued[k].len() > 0 && ids_for(regs, k).len() > 0 {
            rest.push(PendingView { key: k, batch: queued[k], handlers: ids_for(regs, k) })
        } else {
            rest
        }
    }
}

/// Every pending dispatch carries a non-empty batch and at least one
/// handler.
pub proof fn lemma_pendings_of_wf<V>(regs: Seq<u64>, keys: Seq<u64>, queued: Map<u64, Seq<V>>)
    ensures
        forall|p: int|
            0 <= p < pendings_of(regs, keys, queued).len() ==> (#[trigger] pendings_of(
                regs,
                keys,
                queued,
            )[p]).handlers.len() > 0 && pendings_of(regs, keys, queued)[p].batch.len() > 0,
    decreases keys.len(),
{
    if keys.len() > 0 {
        lemma_pendings_of_wf(regs, keys.drop_last(), queued);
        let all = pendings_of(regs, keys, queued);
        let rest = pendings_of(regs, keys.drop_last(), queued);
        assert forall|p: int|
            0 <= p < all.len() implies (#[trigger] all[p]).handlers.len() > 0 && all[p].batch.len()
            > 0 by {
            if p < rest.len() {
                assert(all[p] == rest[p]);
            }
        }
    }
}

/// Dispatch isolation and ordering: each pending dispatch of a drained
/// context carries exactly the queued batch of its own type-key — batches
/// of different type-keys are never interleaved — and exactly the handlers
/// registered for that key; every queued type-key with a non-empty batch
/// and at least one handler gets a pending dispatch; and the dispatches
/// come in bucket order.
pub proof fn lemma_dispatch_batches<V>(regs: Seq<u64>, keys: Seq<u64>, queued: Map<u64, Seq<V>>)
    ensures
        forall|p: int|
            0 <= p < pendings_of(regs, keys, queued).len() ==> {
                let pv = #[trigger] pendings_of(regs, keys, queued)[p];
                &&& queued.contains_key(pv.key)
                &&& pv.batch == queued[pv.key]
                &&& pv.handlers == ids_for(regs, pv.key)
            },
        pendings_of(regs, keys, queued).map_values(|p: PendingView<V>| p.key) == keys.filter(
            |k: u64| queued.contains_key(k) && queued[k].len() > 0 && ids_for(regs, k).len() > 0,
        ),
    decreases keys.len(),
{
    let pred = |k: u64| queued.contains_key(k) && queued[k].len() > 0 && ids_for(regs, k).len()
        > 0;
    reveal(Seq::filter);
    if keys.len() == 0 {
        assert(pendings_of(regs, keys, queued).map_values(|p: PendingView<V>| p.key)
            =~= keys.filter(pred));
    } else {
        lemma_dispatch_batches(regs, keys.drop_last(), queued);
        assert(pendings_of(regs, keys, queued).map_values(|p: PendingView<V>| p.key)
            =~= keys.filter(pred));
    }
}

/// One pass of the engine, driven as a step machine: `next_action` says
/// what to run, `report` accounts for the action that ran and queues the
/// dispatches for what it emitted, depth-first.
pub struct Run<V> {
    next_system: usize,
    n_systems: usize,
    stack: Vec<Pending<V>>,
}

impl<V> Run<V> {
    /// The index of the next system to run.
    pub closed spec fn next_system(self) -> usize {
        self.next_system
    }

    /// The number of systems this pass runs.
    pub closed spec fn n_systems(self) -> usize {
        self.n_systems
    }

    /// The pending dispatches, the last being handled first.
    pub closed spec fn stack_view(self) -> Seq<PendingView<V>> {
        self.stack@.map_values(|p: Pending<V>| p.view_spec())
    }

    /// Every pending dispatch still has a handler to run.
    pub open spec fn inv(self) -> bool {
        forall|i: int|
            0 <= i < self.stack_view().len() ==> (#[trigger] self.stack_view()[i]).handlers.len()
                > 0
    }

    /// What the driving loop must run next: the top pending dispatch if
    /// any, else the next system, else nothing — the pass is done.
    pub open spec fn spec_next_action(self) -> Action {
        if self.stack_view().len() > 0 {
            Action::RunHandler {
                handler: self.stack_view().last().handlers[0],
                event_key: self.stack_view().last().key,
            }
        } else if self.next_system() < self.n_systems() {
            Action::RunSystem(self.next_system())
        } else {
            Action::Done
        }
    }

    /// Begins a pass over `n_systems` systems.
    pub fn new(n_systems: usize) -> (r: Self)
        ensures
            r.inv(),
            r.next_system() == 0,
            r.n_systems() == n_systems,
            r.stack_view() == Seq::<PendingView<V>>::empty(),
    {
        let r = Run { next_system: 0, n_systems, stack: Vec::new() };
        proof {
            assert(r.stack_view() =~= Seq::<PendingView<V>>::empty());
        }
        r
    }

    /// Begins a pass that dispatches one already-emitted event and runs no
    /// systems: the engine's direct trigger entry point.
    pub fn trigger(handlers: &EventHandlers, event_key: u64, value: V) -> (r: Self)
        ensures
            r.inv(),
            r.next_system() == 0,
            r.n_systems() == 0,
            ids_for(handlers.regs(), event_key).len() > 0 ==> r.stack_view() == seq![
                (PendingView {
                    key: event_key,
                    batch: seq![value],
                    handlers: ids_for(handlers.regs(), event_key),
                }),
            ],
            ids_for(handlers.regs(), event_key).len() == 0 ==> r.stack_view() == Seq::<
                PendingView<V>,
            >::empty(),
    {
        let hs = handlers.handlers_for(event_key);
        let mut stack: Vec<Pending<V>> = Vec::new();
        if hs.len() > 0 {
            let mut batch: Vec<V> = Vec::new();
            batch.push(value);
            proof {
                assert(batch@ =~= seq![value]);
            }
            stack.push(Pending { event_key, batch, handlers: hs });
        }
        let r = Run { next_system: 0, n_systems: 0, stack };
        proof {
            if ids_for(handlers.regs(), event_key).len() > 0 {
                assert(r.stack_view() =~= seq![
                    (PendingView {
                        key: event_key,
                        batch: seq![value],
                        handlers: ids_for(handlers.regs(), event_key),
                    }),
                ]);
            } else {
                assert(r.stack_view() =~= Seq::<PendingView<V>>::empty());
            }
        }
        r
    }

    /// Returns what the driving loop must run next.
    pub fn next_action(&self) -> (a: Action)
        requires
            self.inv(),
        ensures
            a == self.spec_next_action(),
    {
        let n = self.stack.len();
        if n > 0 {
            let top = &self.stack[n - 1];
            Action::RunHandler { handler: top.handlers[0], event_key: top.event_key }
        } else if self.next_system < self.n_systems {
            Action::RunSystem(self.next_system)
        } else {
            Action::Done
        }
    }

    /// The batch the handler named by the current action receives: the
    /// events of its type-key, in emission order.
    pub fn current_batch(&self) -> (b: &Vec<V>)
        requires
            self.inv(),
            self.stack_view().len() > 0,
        ensures
            b@ == self.stack_view().last().batch,
    {
        let n = self.stack.len();
        &self.stack[n - 1].batch
    }

    /// Accounts for the action that just ran and queues dispatches for what
    /// it emitted: the context is drained, each non-empty bucket with
    /// registered handlers becomes a pending dispatch, and those dispatches
    /// are placed above everything already pending — they are therefore
    /// fully drained, depth-first, before any older work resumes. The
    /// drained context comes back empty, ready for the pool.
    pub fn report(&mut self, handlers: &EventHandlers, ctx: &mut Context<V>)
        requires
            old(self).inv(),
            old(ctx).inv(),
            !(old(self).spec_next_action() is Done),
        ensures
            final(self).inv(),
            final(ctx).inv(),
            final(self).n_systems() == old(self).n_systems(),
            old(self).stack_view().len() > 0 ==> final(self).next_system() == old(
                self,
            ).next_system(),
            old(self).stack_view().len() == 0 ==> final(self).next_system() == old(
                self,
            ).next_system() + 1,
            final(self).stack_view() == advanced_stack(old(self).stack_view()) + pendings_of(
                handlers.regs(),
                old(ctx).key_order(),
                old(ctx).queued(),
            ).reverse(),
            final(ctx).key_order() == old(ctx).key_order(),
            forall|k: u64| #[trigger]
                final(ctx).queued().contains_key(k) <==> old(ctx).queued().contains_key(k),
            forall|k: u64| #[trigger]
                final(ctx).queued().contains_key(k) ==> final(ctx).queued()[k] == Seq::<
                    V,
                >::empty(),
    {
        let ghost regs = handlers.regs();
        let ghost ko = old(ctx).key_order();
        let ghost q = old(ctx).queued();
        // Account for the action that ran.
        if self.stack.len() > 0 {
            let ghost sv0 = self.stack_view();
            let top_i = self.stack.len() - 1;
            let hlen = self.stack[top_i].handlers.len();
            if hlen <= 1 {
                self.stack.pop();
                proof {
                    assert(self.stack_view() =~= advanced_stack(sv0));
                }
            } else {
                let t = vstd::std_specs::vec::vec_index_mut(&mut self.stack, top_i);
                let _ = t.handlers.remove(0);
                proof {
                    assert(self.stack@[top_i as int].handlers@ =~= sv0.last().handlers.drop_first());
                    assert(self.stack_view() =~= advanced_stack(sv0));
                }
            }
        } else {
            self.next_system = self.next_system + 1;
        }
        let ghost advanced = self.stack_view();
        proof {
            assert(advanced == advanced_stack(old(self).stack_view()));
            old(ctx).lemma_wf();
        }
        // Drain the context and queue the dispatches it gives rise to.
        let mut drained = ctx.drain();
        let ghost d0 = drained@;
        let n = drained.len();
        let mut pend: Vec<Pending<V>> = Vec::new();
        let mut i: usize = 0;
        proof {
            assert(ko.take(0) =~= Seq::<u64>::empty());
            assert(pend@.map_values(|p: Pending<V>| p.view_spec()) =~= pendings_of(
                regs,
                ko.take(0),
                q,
            ));
        }
        while i < n
            invariant
                regs == handlers.regs(),
                i <= n,
                n == ko.len(),
                i + drained@.len() == n,
                drained@ == d0.skip(i as int),
                d0.len() == n,
                forall|j: int|
                    0 <= j < n ==> (#[trigger] d0[j].0) == ko[j] && q.contains_key(ko[j])
                        && d0[j].1@ == q[ko[j]],
                pend@.map_values(|p: Pending<V>| p.view_spec()) == pendings_of(
                    regs,
                    ko.take(i as int),
                    q,
                ),
                forall|j: int|
                    0 <= j < pend@.len() ==> (#[trigger] pend@[j]).handlers@.len() > 0,
            decreases n - i,
        {
            let (key, batch) = drained.remove(0);
            proof {
                assert(d0.skip(i as int)[0] == d0[i as int]);
                assert(key == d0[i as int].0 && batch@ == d0[i as int].1@);
                assert(ko.take(i + 1).drop_last() =~= ko.take(i as int));
                assert(ko.take(i + 1).last() == ko[i as int]);
            }
            let ghost k = ko[i as int];
            proof {
                assert(q.contains_key(k) && d0[i as int].1@ == q[k]);
            }
            if batch.len() > 0 {
                let hs = handlers.handlers_for(key);
                if hs.len() > 0 {
                    pend.push(Pending { event_key: key, batch, handlers: hs });
                    proof {
                        assert(pend@.last().view_spec() == (PendingView {
                            key: k,
                            batch: q[k],
                            handlers: ids_for(regs, k),
                        }));
                        assert(pend@.map_values(|p: Pending<V>| p.view_spec()) =~= pendings_of(
                            regs,
                            ko.take(i as int),
                            q,
                        ).push(
                            (PendingView { key: k, batch: q[k], handlers: ids_for(regs, k) }),
                        ));
                    }
                } else {
                    proof {
                        assert(ids_for(regs, k).len() == 0);
                    }
                }
            } else {
                proof {
                    assert(q[k].len() == 0);
                }
            }
            proof {
                assert(pend@.map_values(|p: Pending<V>| p.view_spec()) =~= pendings_of(
                    regs,
                    ko.take(i + 1),
                    q,
                ));
                assert(drained@ =~= d0.skip(i + 1));
            }
            i = i + 1;
        }
        proof {
            assert(ko.take(n as int) =~= ko);
        }
        let ghost target = pendings_of(regs, ko, q);
        proof {
            assert(pend@.map_values(|p: Pending<V>| p.view_spec()) =~= target.take(
                pend@.len() as int,
            ));
            assert(self.stack_view() =~= advanced + target.skip(pend@.len() as int).reverse());
        }
        // Place the new dispatches above everything already pending, the
        // first bucket topmost so that it is handled first.
        while pend.len() > 0
            invariant
                pend@.len() <= target.len(),
                pend@.map_values(|p: Pending<V>| p.view_spec()) == target.take(pend@.len() as int),
                forall|j: int|
                    0 <= j < pend@.len() ==> (#[trigger] pend@[j]).handlers@.len() > 0,
                self.stack_view() == advanced + target.skip(pend@.len() as int).reverse(),
                self.n_systems() == old(self).n_systems(),
                old(self).stack_view().len() > 0 ==> self.next_system() == old(
                    self,
                ).next_system(),
                old(self).stack_view().len() == 0 ==> self.next_system() == old(
                    self,
                ).next_system() + 1,
            decreases pend@.len(),
        {
            let ghost pend0 = pend@;
            let ghost st0 = self.stack@;
            let ghost l = pend@.len() as int;
            let p = match pend.pop() {
                Some(p) => p,
                None => vstd::pervasive::unreached(),
            };
            self.stack.push(p);
            proof {
                assert(self.stack_view() =~= st0.map_values(|x: Pending<V>| x.view_spec()).push(
                    p.view_spec(),
                ));
                assert(pend@.map_values(|x: Pending<V>| x.view_spec()) =~= target.take(l - 1));
                assert(p == pend0[l - 1]);
                assert(pend0.map_values(|x: Pending<V>| x.view_spec())[l - 1] == p.view_spec());
                assert(target.take(l)[l - 1] == target[l - 1]);
                assert(p.view_spec() == target[l - 1]);
                assert(target.skip(l - 1).reverse() =~= target.skip(l).reverse().push(
                    target[l - 1],
                ));
                assert(self.stack_view() =~= advanced + target.skip(l - 1).reverse());
            }
        }
        proof {
            assert(target.skip(0) =~= target);
            assert(self.stack_view() == advanced + target.reverse());
            lemma_pendings_of_wf(regs, ko, q);
            assert forall|j: int|
                0 <= j < self.stack_view().len() implies (#[trigger] self.stack_view()[j]).handlers.len()
                > 0 by {
                if j < advanced.len() {
                    assert(self.stack_view()[j] == advanced[j]);
                } else {
                    assert(self.stack_view()[j] == target.reverse()[j - advanced.len()]);
                    assert(target.reverse()[j - advanced.len()] == target[target.len() - 1 - (j
                        - advanced.len())]);
                }
            }
        }
    }
}

/// Dispatch ordering, end to end: when the queued map arose from a
/// sequence of emissions into an empty context, every pending dispatch
/// hands its handlers — exactly those registered for its type-key, in
/// registration order — a batch equal to that key's emitted values in
/// emission order; values of other type-keys never appear in it.
pub proof fn lemma_batches_are_emission_order<V>(
    regs: Seq<u64>,
    keys: Seq<u64>,
    es: Seq<(u64, V)>,
    p: int,
)
    requires
        0 <= p < pendings_of(regs, keys, queued_after(Map::empty(), es)).len(),
    ensures
        ({
            let q = queued_after(Map::<u64, Seq<V>>::empty(), es);
            let pv = pendings_of(regs, keys, q)[p];
            &&& pv.batch == es.filter(|pair: (u64, V)| pair.0 == pv.key).map_values(
                |pair: (u64, V)| pair.1,
            )
            &&& pv.handlers == ids_for(regs, pv.key)
        }),
{
    let q = queued_after(Map::<u64, Seq<V>>::empty(), es);
    lemma_dispatch_batches(regs, keys, q);
    let pv = pendings_of(regs, keys, q)[p];
    lemma_emission_order(Map::<u64, Seq<V>>::empty(), es, pv.key);
    assert(pv.batch =~= es.filter(|pair: (u64, V)| pair.0 == pv.key).map_values(
        |pair: (u64, V)| pair.1,
    ));
}

/// Depth-first dispatch: accounting for the action that ran never touches
/// the dispatches below the top of the stack, and placing the new
/// dispatches above them means every older dispatch waits until the new
/// ones — and, recursively, whatever they emit — are fully drained.
pub proof fn lemma_depth_first<V>(base: Seq<PendingView<V>>, news: Seq<PendingView<V>>)
    ensures
        forall|i: int| 0 <= i < base.len() - 1 ==> advanced_stack(base)[i] == base[i],
        forall|i: int|
            0 <= i < advanced_stack(base).len() ==> (advanced_stack(base) + news.reverse())[i]
                == advanced_stack(base)[i],
        news.len() > 0 ==> (advanced_stack(base) + news.reverse()).last() == news[0],
{
    if news.len() > 0 {
        assert(news.reverse()[news.len() - 1] == news[0]);
        assert((advanced_stack(base) + news.reverse()).last() == news.reverse()[news.len() - 1]);
    }
}

/// The ordered list of systems and the pool of reusable per-run contexts.
/// The systems themselves are the embedding application's callables; the
/// engine holds their count, and each system's id is its registration
/// index.
pub struct Executor<V> {
    n_systems: usize,
    pool: Vec<Context<V>>,
}

impl<V> Default for Executor<V> {
    /// Creates an executor with no systems and an empty context pool.
    fn default() -> (r: Self)
        ensures
            r.inv(),
            r.systems() == 0,
            r.pool_size() == 0,
    {
        Executor { n_systems: 0, pool: Vec::new() }
    }
}

impl<V> Executor<V> {
    /// The number of registered systems.
    pub closed spec fn systems(self) -> usize {
        self.n_systems
    }

    /// The number of pooled contexts.
    pub closed spec fn pool_size(self) -> nat {
        self.pool@.len()
    }

    /// Every pooled context is well formed and holds no queued events.
    pub closed spec fn inv(self) -> bool {
        forall|i: int|
            0 <= i < self.pool@.len() ==> (#[trigger] self.pool@[i]).inv() && forall|k: u64|
                #[trigger] self.pool@[i].queued().contains_key(k) ==> self.pool@[i].queued()[k]
                    == Seq::<V>::empty()
    }

    /// Creates an executor with no systems and an empty context pool.
    pub fn new() -> (r: Self)
        ensures
            r.inv(),
            r.systems() == 0,
            r.pool_size() == 0,
    {
        Executor { n_systems: 0, pool: Vec::new() }
    }

    /// Registers the next system and returns its index.
    pub fn add(&mut self) -> (id: usize)
        requires
            old(self).inv(),
            old(self).systems() < usize::MAX,
        ensures
            final(self).inv(),
            final(self).systems() == old(self).systems() + 1,
            final(self).pool_size() == old(self).pool_size(),
            id == old(self).systems(),
    {
        let id = self.n_systems;
        self.n_systems = self.n_systems + 1;
        id
    }

    /// Builder form of `add`, registering one more system.
    pub fn with(self) -> (r: Self)
        requires
            self.inv(),
            self.systems() < usize::MAX,
        ensures
            r.inv(),
            r.systems() == self.systems() + 1,
            r.pool_size() == self.pool_size(),
    {
        let mut this = self;
        this.add();
        this
    }

    /// Returns the number of systems registered for this executor.
    pub fn num_systems(&self) -> (n: usize)
        ensures
            n == self.systems(),
    {
        self.n_systems
    }

    /// Begins a pass over the registered systems.
    pub fn begin(&self) -> (r: Run<V>)
        ensures
            r.inv(),
            r.next_system() == 0,
            r.n_systems() == self.systems(),
            r.stack_view() == Seq::<PendingView<V>>::empty(),
    {
        Run::new(self.n_systems)
    }

    /// Checks a context out of the pool, allocating a fresh one if the
    /// pool is empty. The context holds no queued events.
    pub fn checkout(&mut self) -> (r: Context<V>)
        requires
            old(self).inv(),
        ensures
            final(self).inv(),
            final(self).systems() == old(self).systems(),
            old(self).pool_size() > 0 ==> final(self).pool_size() == old(self).pool_size() - 1,
            old(self).pool_size() == 0 ==> final(self).pool_size() == 0,
            r.inv(),
            forall|k: u64| #[trigger] r.queued().contains_key(k) ==> r.queued()[k] == Seq::<
                V,
            >::empty(),
    {
        match self.pool.pop() {
            Some(ctx) => ctx,
            None => Context::new(),
        }
    }

    /// Returns a context to the pool for reuse, clearing it first: its
    /// buckets keep their backing allocations.
    pub fn restore(&mut self, ctx: Context<V>)
        requires
            old(self).inv(),
            ctx.inv(),
        ensures
            final(self).inv(),
            final(self).systems() == old(self).systems(),
            final(self).pool_size() == old(self).pool_size() + 1,
    {
        let mut ctx = ctx;
        ctx.clear();
        self.pool.push(ctx);
    }
}

} // verus!
