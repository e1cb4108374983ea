use fecs::Action;
use fecs::EventHandlers;
use fecs::Executor;
use fecs::OwnedResources;

#[test]
fn system_basic() {
    let mut resources = OwnedResources::new();
    resources.insert(1, 1024i32);

    let mut executor: Executor<i32> = Executor::new();
    let sys = executor.add();
    let handlers = EventHandlers::new();

    let mut run = executor.begin();
    loop {
        match run.next_action() {
            Action::RunSystem(index) => {
                assert_eq!(index, sys);
                let mut ctx = executor.checkout();
                // the system: *res += 1024
                let g = resources.get_mut(1);
                let v = *resources.read_mut(&g);
                resources.write(&g, v + 1024);
                resources.release_mut(g);
                run.report(&handlers, &mut ctx);
                executor.restore(ctx);
            },
            Action::RunHandler { .. } => unreachable!(),
            Action::Done => break,
        }
    }

    let g = resources.get(1);
    assert_eq!(*resources.read(&g), 2048);
    resources.release(g);
}

#[test]
fn dispatch_ordering() {
    let mut handlers = EventHandlers::new();
    let h1a = handlers.add(1);
    let h1b = handlers.add(1);
    let h2 = handlers.add(2);

    let mut executor: Executor<i32> = Executor::new();
    executor.add();

    let mut log: Vec<(usize, Vec<i32>)> = Vec::new();
    let mut run = executor.begin();
    loop {
        match run.next_action() {
            Action::RunSystem(_) => {
                let mut ctx = executor.checkout();
                ctx.emit(1, 10);
                ctx.emit(2, 30);
                ctx.emit(1, 20);
                run.report(&handlers, &mut ctx);
                executor.restore(ctx);
            },
            Action::RunHandler { handler, .. } => {
                log.push((handler, run.current_batch().clone()));
                let mut ctx = executor.checkout();
                run.report(&handlers, &mut ctx);
                executor.restore(ctx);
            },
            Action::Done => break,
        }
    }

    // each handler of an event type receives that type's values, in
    // emission order and never interleaved with another type's
    assert_eq!(log, vec![(h1a, vec![10, 20]), (h1b, vec![10, 20]), (h2, vec![30])]);
}

#[test]
fn depth_first_dispatch() {
    let mut handlers = EventHandlers::new();
    let ha = handlers.add(1);
    let hb = handlers.add(2);
    let hc = handlers.add(3);

    let mut executor: Executor<u8> = Executor::new();
    executor.add();

    let mut order: Vec<u64> = Vec::new();
    let mut run = executor.begin();
    loop {
        match run.next_action() {
            Action::RunSystem(_) => {
                let mut ctx = executor.checkout();
                ctx.emit(1, 0u8);
                run.report(&handlers, &mut ctx);
                executor.restore(ctx);
            },
            Action::RunHandler { handler, event_key } => {
                order.push(event_key);
                let mut ctx = executor.checkout();
                if handler == ha {
                    ctx.emit(2, 0);
                } else if handler == hb {
                    ctx.emit(3, 0);
                } else {
                    assert_eq!(handler, hc);
                }
                run.report(&handlers, &mut ctx);
                executor.restore(ctx);
            },
            Action::Done => break,
        }
    }

    // the chain runs depth-first: each emitted event is fully drained
    // before the enclosing dispatch proceeds
    assert_eq!(order, vec![1, 2, 3]);
}

#[test]
fn context_pool_reuse() {
    let mut executor: Executor<i32> = Executor::new();

    let mut ctx = executor.checkout();
    ctx.emit(1, 42);
    executor.restore(ctx);

    let mut ctx = executor.checkout();
    let drained = ctx.drain();
    for (_key, values) in drained {
        assert_eq!(values, Vec::<i32>::new());
    }
    executor.restore(ctx);
}
