use fecs::Action;
use fecs::Context;
use fecs::EventHandlers;
use fecs::OwnedResources;
use fecs::Run;

struct World {
    slot: i32,
}

#[test]
fn events_basic() {
    let mut world = World { slot: 1000 };
    let mut resources = OwnedResources::new().with(1, 15i32);

    let mut handlers = EventHandlers::new();
    let handler_id = handlers.add(42);

    let mut run: Run<i32> = Run::trigger(&handlers, 42, 256);
    loop {
        match run.next_action() {
            Action::RunHandler { handler, event_key } => {
                assert_eq!(handler, handler_id);
                assert_eq!(event_key, 42);
                let batch = run.current_batch().clone();
                // the handler: copy the event value into the resource and
                // the world
                for event in &batch {
                    let g = resources.get_mut(1);
                    resources.write(&g, *event);
                    resources.release_mut(g);
                    world.slot = *event;
                }
                let mut ctx: Context<i32> = Context::new();
                run.report(&handlers, &mut ctx);
            },
            Action::RunSystem(_) => unreachable!(),
            Action::Done => break,
        }
    }

    let g = resources.get(1);
    assert_eq!(*resources.read(&g), 256);
    resources.release(g);
    assert_eq!(world.slot, 256);
}

#[test]
fn handlers_in_registration_order() {
    let mut handlers = EventHandlers::new();
    let a = handlers.add(5);
    let b = handlers.add(6);
    let c = handlers.add(5);

    assert_eq!(handlers.handlers_for(5), vec![a, c]);
    assert_eq!(handlers.handlers_for(6), vec![b]);
    assert_eq!(handlers.handlers_for(7), Vec::<usize>::new());
    assert_eq!(handlers.len(), 3);
}

#[test]
fn context_buckets() {
    let mut ctx: Context<i32> = Context::new();
    ctx.emit(1, 10);
    ctx.emit(2, 20);
    ctx.emit(1, 11);

    let drained = ctx.drain();
    assert_eq!(drained.len(), 2);
    assert_eq!(drained[0].0, 1);
    assert_eq!(drained[0].1, vec![10, 11]);
    assert_eq!(drained[1].0, 2);
    assert_eq!(drained[1].1, vec![20]);

    // the buckets stay in place after a drain, ready for reuse
    ctx.emit(2, 7);
    let drained = ctx.drain();
    assert_eq!(drained.len(), 2);
    assert_eq!(drained[0].1, Vec::<i32>::new());
    assert_eq!(drained[1].1, vec![7]);
}

#[test]
fn trigger_without_handlers() {
    let handlers = EventHandlers::new();
    let run: Run<i32> = Run::trigger(&handlers, 8, 1);
    assert_eq!(run.next_action(), Action::Done);
}

#[test]
fn trigger_recursive_drain() {
    let mut handlers = EventHandlers::new();
    let h1 = handlers.add(1);
    let h2 = handlers.add(2);

    let mut order: Vec<(usize, i32)> = Vec::new();
    let mut run: Run<i32> = Run::trigger(&handlers, 1, 5);
    loop {
        match run.next_action() {
            Action::RunHandler { handler, .. } => {
                let value = run.current_batch()[0];
                order.push((handler, value));
                let mut ctx: Context<i32> = Context::new();
                if handler == h1 {
                    // this handler emits an event of the second type,
                    // which is drained before the trigger returns
                    ctx.emit(2, value + 1);
                }
                run.report(&handlers, &mut ctx);
            },
            Action::RunSystem(_) => unreachable!(),
            Action::Done => break,
        }
    }
    assert_eq!(order, vec![(h1, 5), (h2, 6)]);
}
