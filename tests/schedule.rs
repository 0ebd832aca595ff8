use particle_sim::collision::CollisionPass;
use particle_sim::progress::ProgressBar;

#[test]
fn pass_starts_with_every_particle() {
    let p = CollisionPass::new(3, 5, 2);
    assert_eq!(p.active, vec![0, 1, 2]);
    assert_eq!(p.step, 0);
    assert!(p.is_running());
    assert!(p.refresh_due());
}

#[test]
fn pass_stops_when_few_settle() {
    let mut p = CollisionPass::new(3, 5, 2);
    p.finish_iteration(&vec![1, 0, 1]);
    assert_eq!(p.step, 5);
    assert_eq!(p.active, vec![0, 1, 2]);
    assert!(!p.is_running());
}

#[test]
fn pass_keeps_colliding_particles() {
    let mut p = CollisionPass::new(12, 5, 2);
    let mut counts = vec![0u32; 12];
    counts[0] = 2;
    counts[7] = 1;
    p.finish_iteration(&counts);
    assert_eq!(p.step, 1);
    assert_eq!(p.active, vec![0, 7]);
    assert!(!p.refresh_due());
    assert!(p.is_running());
}

#[test]
fn pass_with_no_steps_does_not_run() {
    let p = CollisionPass::new(4, 0, 1);
    assert!(!p.is_running());
}

#[test]
fn progress_counts_iterations() {
    let mut bar = ProgressBar::new(10);
    assert_eq!(bar.done, 0);
    bar.increment();
    bar.increment();
    assert_eq!(bar.done, 2);
    assert_eq!(bar.total, 10);
}

#[test]
fn progress_status_values() {
    let mut bar = ProgressBar::new(10);
    bar.done = 4;
    bar.iteration_elapsed = 2000;
    let s = bar.status();
    assert_eq!((s.filled, s.empty, s.percent), (16, 24, 40));
    assert_eq!((s.minutes_left, s.seconds_left), (0, 12));
    bar.done = 0;
    bar.iteration_elapsed = 30000;
    let s = bar.status();
    assert_eq!((s.filled, s.empty, s.percent), (0, 40, 0));
    assert_eq!((s.minutes_left, s.seconds_left), (5, 0));
    bar.done = 10;
    let s = bar.status();
    assert_eq!((s.filled, s.empty, s.percent, s.minutes_left), (40, 0, 100, 0));
}
