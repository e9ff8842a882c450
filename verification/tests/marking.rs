use rsgc::heap::concurrent_gc::ConcurrentGC;
use rsgc::heap::cycle::GcAction;
use rsgc::heap::degenerated_gc::DegeneratedGC;
use rsgc::heap::deque::Taken;
use rsgc::heap::full_gc::{process_weak, FullGC};
use rsgc::heap::mark::{
    do_chunked_array, do_chunked_array_start, MarkQueueSet, MarkTask, TerminateStep, Terminator,
};
use rsgc::heap::mark_sweep::MarkSweep;
use rsgc::heap::marking::{MarkStep, MarkingTask, Object, STWMark};
use rsgc::heap::marking_context::MarkingContext;
use rsgc::heap::root_processor::{
    RootSet, RootStep, RootTask, RootWork, SimpleRoot, ThreadRootProcessor,
};
use rsgc::heap::satb_mark_queue::{SATBMarkQueue, SATBMarkQueueSet};
use rsgc::heap::taskqueue::{BufferedOverflowTaskQueue, ParallelClaimableQueueSet};
use rsgc::heap::DegenPoint;

const START: usize = 65536;

fn object(place: usize, fields: Vec<usize>) -> Object {
    Object {
        addr: START + 64 * place,
        traced: true,
        varsize: false,
        ranged: false,
        fields: fields.iter().map(|f| START + 64 * f).collect(),
        elements: vec![],
    }
}

/// 0 -> 1 -> 2 -> 0, 3 -> 4, and an array at 5 of 0.
fn objects() -> Vec<Object> {
    let mut objs = vec![
        object(0, vec![1]),
        object(1, vec![2, 2]),
        object(2, vec![0]),
        object(3, vec![4]),
        object(4, vec![]),
        object(5, vec![]),
    ];
    objs[5].varsize = true;
    objs[5].ranged = true;
    objs[5].elements = vec![START; 5000];
    objs
}

fn mark_from(root: usize, threads: usize) -> Vec<bool> {
    let objs = objects();
    let mut ctx = MarkingContext::new(START, 4096, threads);
    STWMark::new().mark(&mut ctx, &objs, &vec![START + 64 * root]);
    let mut idle = 0;
    while idle < 100 {
        idle += 1;
        for id in 0..threads {
            if MarkingTask::new(id).run::<false>(&mut ctx, &objs, 3, false) != MarkStep::Idle {
                idle = 0;
            }
        }
    }
    objs.iter().map(|o| ctx.is_marked(o.addr)).collect()
}

#[test]
fn exactly_what_the_roots_lead_to_is_marked() {
    for threads in [1, 3] {
        assert_eq!(mark_from(0, threads), vec![true, true, true, false, false, false]);
        assert_eq!(mark_from(3, threads), vec![false, false, false, true, true, false]);
        assert_eq!(mark_from(5, threads), vec![true, true, true, false, false, true]);
    }
}

#[test]
fn cancelled_marking_does_nothing() {
    let objs = objects();
    let mut ctx = MarkingContext::new(START, 4096, 1);
    STWMark::new().mark(&mut ctx, &objs, &vec![START]);
    let step = MarkingTask::new(0).run::<true>(&mut ctx, &objs, 3, true);
    assert_eq!(step, MarkStep::Cancelled);
    assert!(!ctx.is_marked(START + 64));
}

#[test]
fn mark_sweep_marks_the_same() {
    let objs = objects();
    let mut ms = MarkSweep::new(objs.len());
    ms.do_mark(&objs, &vec![START + 64 * 3]);
    assert_eq!(ms.marked, vec![false, false, false, true, true, false]);
}

#[test]
fn threads_that_share_the_work_mark_the_same() {
    let objs = objects();
    for (root, marked) in [
        (3, vec![false, false, false, true, true, false]),
        (5, vec![true, true, true, false, false, true]),
    ] {
        let mut ms = MarkSweep::new(objs.len());
        ms.mark_roots(&objs, &vec![START + 64 * root]);
        let (mut queues, _) = ms.start_parallel_marking(3);
        let mut idle = 0;
        while idle < 100 {
            idle += 1;
            for id in 0..3 {
                if let Taken::Task(_) = ms.parallel_step(&objs, &mut queues, id) {
                    idle = 0;
                }
            }
        }
        assert_eq!(ms.marked, marked);
    }
}

#[test]
fn weak_references_to_what_is_not_marked_are_cleared() {
    let mut ctx = MarkingContext::new(START, 4096, 1);
    assert!(ctx.mark(START + 64));
    assert!(!ctx.mark(START + 64));
    let mut weak = vec![Some(START), Some(START + 64), None];
    process_weak(&ctx, &mut weak);
    assert_eq!(weak, vec![None, Some(START + 64), None]);
}

#[test]
fn a_task_is_decoded_as_it_was_encoded() {
    let task = MarkTask::new2(0x1_2345_6780, true, false, 3, 17);
    assert_eq!(task.obj(), 0x1_2345_6780);
    assert_eq!(task.chunk(), 3);
    assert_eq!(task.pow(), 17);
    assert!(!task.is_weak());
    assert!(!task.count_liveness());
    assert!(!task.is_not_chunked());
    let plain = MarkTask::new(0x1_2345_6780, false, true);
    assert!(plain.is_not_chunked());
    assert!(plain.is_weak());
    assert!(plain.count_liveness());
    assert_eq!(plain.to_word(), 0x1_2345_6782);
    assert_eq!(MarkTask::max_addressable(), 1 << 49);
    assert_eq!(MarkTask::chunk_size(), 1024);
}

#[test]
fn chunks_cover_an_array_once() {
    for len in [1u64, 2048, 2049, 5000, 1 << 20, (1 << 20) + 7, 1 << 30, (1 << 30) + 1, 1 << 31] {
        let plan = do_chunked_array_start(len);
        let mut seen = 0u64;
        let mut todo: Vec<(u64, u64)> = plan.chunks.iter().map(|c| (c.chunk, c.pow)).collect();
        seen += plan.to - plan.from;
        while let Some((chunk, pow)) = todo.pop() {
            let part = do_chunked_array(chunk, pow);
            seen += part.to - part.from;
            todo.extend(part.chunks.iter().map(|c| (c.chunk, c.pow)));
        }
        assert_eq!(seen, len);
    }
}

#[test]
fn queues_give_back_each_task_once() {
    let mut queues = MarkQueueSet::new(2);
    for k in 0..1000u64 {
        queues.push(0, MarkTask::new(16 * k, false, false));
    }
    queues.inject(MarkTask::new(16 * 1000, false, false));
    let mut got: Vec<u64> = Vec::new();
    let mut misses = 0;
    while misses < 100 {
        match queues.take(1) {
            Taken::Task(word) => got.push(word / 16),
            _ => misses += 1,
        }
        match queues.take(0) {
            Taken::Task(word) => got.push(word / 16),
            _ => misses += 1,
        }
    }
    got.sort();
    assert_eq!(got, (0..=1000).collect::<Vec<u64>>());
}

fn full_queues(threads: usize) -> MarkQueueSet {
    let mut queues = MarkQueueSet::new(threads);
    for id in 1..threads {
        for k in 0..200u64 {
            queues.push(id, MarkTask::new(16 * (1000 * id as u64 + k), false, false));
        }
    }
    queues
}

#[test]
fn a_thief_gets_a_task_if_all_others_have_some() {
    for threads in [2, 4] {
        let mut queues = full_queues(threads);
        assert!(matches!(queues.steal(0), Taken::Task(_)));
    }
    let mut queues = full_queues(3);
    assert!(matches!(queues.steal_from(0, 1), Taken::Task(word) if word / 16 / 1000 == 2));
    assert!(matches!(queues.steal_from(0, 0), Taken::Task(word) if word / 16 / 1000 == 1));
    assert_eq!(MarkQueueSet::new(3).steal_from(0, 1), Taken::Empty);
    assert_eq!(MarkQueueSet::new(3).steal(1), Taken::Empty);
    assert_eq!(MarkQueueSet::new(1).steal(0), Taken::Empty);
}

#[test]
fn the_last_worker_ends_the_work() {
    let mut terminator = Terminator::new(2);
    assert_eq!(terminator.try_terminate(), TerminateStep::Sleep);
    assert!(!terminator.zero_or_increase_workers());
    assert_eq!(terminator.try_terminate(), TerminateStep::Sleep);
    assert_eq!(terminator.try_terminate(), TerminateStep::Done);
    assert!(terminator.zero_or_increase_workers());
    assert_eq!(Terminator::new(1).try_terminate(), TerminateStep::Done);
}

#[test]
fn a_sole_thread_runs_root_tasks_in_order() {
    let mut set = RootSet::new();
    set.add_root(7);
    set.add_roots(&vec![8, 9]);
    assert_eq!(set.roots(), &vec![7, 8, 9]);
    let mut processor = set.process(false, 4);
    let mut thread = ThreadRootProcessor::new(0);
    let mut ran = Vec::new();
    loop {
        match thread.run(&mut processor) {
            RootStep::Run(task) => {
                ran.push(task);
                if task == (RootTask { root: 8, task: RootWork::Execute }) {
                    thread.add_task(&mut processor, 1, false);
                    thread.add_task(&mut processor, 2, true);
                }
            }
            RootStep::Again => {}
            RootStep::Sleep => panic!("nobody to wait for"),
            RootStep::Done => break,
        }
    }
    assert_eq!(
        ran,
        vec![
            RootTask { root: 7, task: RootWork::Execute },
            RootTask { root: 8, task: RootWork::Execute },
            RootTask { root: 8, task: RootWork::Added(2) },
            RootTask { root: 9, task: RootWork::Execute },
            RootTask { root: 8, task: RootWork::Added(1) },
        ]
    );
}

#[test]
fn a_simple_root_has_its_names() {
    let root = SimpleRoot::new("Conservative roots", "CS");
    assert_eq!(root.name(), "Conservative roots");
    assert_eq!(root.abbreviated_name(), "CS");
}

#[test]
fn a_buffered_queue_gives_back_every_task() {
    let mut queue: BufferedOverflowTaskQueue<u32, 2> = BufferedOverflowTaskQueue::new();
    assert!(queue.is_empty());
    for k in 0..5 {
        assert!(queue.push(k));
    }
    let mut got = Vec::new();
    while let Some(task) = queue.pop() {
        got.push(task);
    }
    assert_eq!(got, vec![4, 1, 0, 3, 2]);
    queue.push(9);
    queue.clear();
    assert!(queue.is_empty());
    assert_eq!(queue.pop(), None);
}

#[test]
fn each_queue_is_claimed_once() {
    let mut set = ParallelClaimableQueueSet::new(vec!['a', 'b']);
    assert_eq!(set.claim_next(), Some(0));
    assert_eq!(set.claim_next(), Some(1));
    assert_eq!(set.claim_next(), None);
    set.clear_claimed();
    assert_eq!(set.claim_next(), Some(0));
    assert_eq!(set.size(), 2);
    assert_eq!(*set.queue(1), 'b');
}

#[test]
fn a_full_cycle_stops_the_world_first_and_resumes_it_last() {
    let steps = FullGC::new().do_collect(true);
    assert_eq!(steps[0], GcAction::StopTheWorld);
    assert_eq!(steps[7], GcAction::Sweep { concurrent: false, parallel: true });
    assert_eq!(steps[10], GcAction::ResumeTheWorld);
    assert_eq!(steps[11], GcAction::Finished { done: true });
    assert_eq!(steps.len(), 12);
}

#[test]
fn a_concurrent_cycle_can_be_cancelled_while_it_marks() {
    let mut gc = ConcurrentGC::new();
    let mut last = GcAction::PrepareGc;
    for _ in 0..7 {
        last = gc.collect(false);
    }
    assert_eq!(last, GcAction::Mark);
    assert_eq!(gc.collect(true), GcAction::Finished { done: false });
    assert_eq!(gc.degen_point, DegenPoint::ConcurrentMark);
    let steps = DegeneratedGC::new(gc.degen_point).collect(true);
    assert!(steps.contains(&GcAction::FinishMark));
    assert!(!steps.contains(&GcAction::PrepareGc));
    let whole = DegeneratedGC::new(DegenPoint::OutsideCycle).collect(false);
    assert!(whole.contains(&GcAction::PrepareGc));
    assert!(whole.contains(&GcAction::MarkStw));
}

#[test]
fn a_concurrent_cycle_runs_to_its_end() {
    let mut gc = ConcurrentGC::new();
    let mut steps = Vec::new();
    loop {
        let step = gc.collect(false);
        steps.push(step);
        if let GcAction::Finished { done } = step {
            assert!(done);
            break;
        }
    }
    assert_eq!(steps.len(), 17);
    assert_eq!(steps[14], GcAction::Sweep { concurrent: true, parallel: true });
}

#[test]
fn recorded_references_come_back_in_a_buffer() {
    let mut ctx = MarkingContext::new(START, 4096, 1);
    for k in 0..20 {
        ctx.mark(START + 64 * k);
    }
    let mut set = SATBMarkQueueSet::new(10);
    set.set_buffer_enqueue_threshold_percentage(60);
    assert_eq!(set.buffer_enqueue_threshold(), 4);
    let mut queue = SATBMarkQueue::create();
    for k in 0..15 {
        set.enqueue_known_active(&ctx, &mut queue, START + 64 * k);
    }
    assert_eq!(set.completed_buffers_num(), 1);
    set.flush_queue(&ctx, &mut queue);
    let mut seen = Vec::new();
    while let Some(buffer) = set.apply_closure_to_completed_buffer() {
        seen.extend(buffer);
    }
    seen.sort();
    assert_eq!(seen, (0..15).map(|k| START + 64 * k).collect::<Vec<usize>>());
    assert_eq!(set.completed_buffers_num(), 0);
}
