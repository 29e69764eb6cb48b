use aster_bench::barrier::SpinBarrier;

#[test]
fn single_participant_never_blocks() {
    let barrier = SpinBarrier::new(1);
    for _ in 0..1000 {
        barrier.wait();
    }
}
