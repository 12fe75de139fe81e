use dsdenc::driver::DriverCtx;
use dsdenc::helpers::progress_percent;

#[test]
fn first_frame_is_discarded_and_silent() {
    let mut d = DriverCtx::new(4, 2, 4);
    assert!(!d.done());
    let step = d.next_frame();
    assert!(step.discard);
    assert_eq!(step.read, 4);
    assert_eq!(step.pad, 0);
    assert_eq!(step.emit, 0);
}

#[test]
fn exact_multiple_of_frame_size_runs_one_extra_frame() {
    let mut d = DriverCtx::new(4, 2, 4);
    let s1 = d.next_frame();
    assert!(s1.discard && s1.read == 4 && s1.emit == 0);
    assert!(!d.done());
    let s2 = d.next_frame();
    assert!(!s2.discard);
    assert_eq!(s2.read, 0);
    assert_eq!(s2.pad, 4);
    assert_eq!(s2.emit, 8);
    assert!(d.done());
    assert_eq!(s1.emit + s2.emit, 4 * 2);
}

#[test]
fn short_final_frame_is_zero_filled_and_output_truncated() {
    let mut d = DriverCtx::new(4, 2, 6);
    let s1 = d.next_frame();
    assert!(s1.discard);
    assert_eq!(s1.read, 4);
    assert_eq!(s1.pad, 0);
    let s2 = d.next_frame();
    assert!(!s2.discard);
    assert_eq!(s2.read, 2);
    assert_eq!(s2.pad, 2);
    assert_eq!(s2.emit, 8);
    assert!(!d.done());
    let s3 = d.next_frame();
    assert_eq!(s3.read, 0);
    assert_eq!(s3.pad, 4);
    assert_eq!(s3.emit, 4);
    assert!(d.done());
    assert_eq!(s1.emit + s2.emit + s3.emit, 6 * 2);
}

#[test]
fn long_run_emits_duration_times_oversample() {
    let frame: usize = 8;
    let oversample: usize = 4;
    let duration: usize = 8 * 5 + 3;
    let mut d = DriverCtx::new(frame, oversample, duration);
    let mut total: usize = 0;
    let mut read_total: usize = 0;
    let mut frames: usize = 0;
    let mut discards: usize = 0;
    while !d.done() {
        let step = d.next_frame();
        total += step.emit;
        read_total += step.read;
        frames += 1;
        if step.discard {
            discards += 1;
        }
    }
    assert_eq!(total, duration * oversample);
    assert_eq!(read_total, duration);
    assert_eq!(discards, 1);
    // duration spans six frames; one more drains the one-frame delay
    assert_eq!(frames, 7);
}

#[test]
fn empty_source_still_drains_the_delay_frame() {
    let mut d = DriverCtx::new(4, 2, 0);
    assert!(!d.done());
    let s1 = d.next_frame();
    assert!(s1.discard);
    assert_eq!(s1.read, 0);
    assert_eq!(s1.pad, 4);
    assert_eq!(s1.emit, 0);
    assert!(d.done());
}

#[test]
fn progress_percent_is_exact() {
    assert_eq!(progress_percent(50, 200), 25);
    assert_eq!(progress_percent(0, 7), 0);
    assert_eq!(progress_percent(7, 7), 100);
    assert_eq!(progress_percent(2, 3), 66);
}
