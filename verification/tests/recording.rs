use shuttle::recording::{local_frames, Recording};

const BACKTRACE: &str = "   2: core::panicking::assert_failed_inner
   3: core::panicking::assert_failed
             at /rustc/129f3b9964af4d4a709d1383930ade12dfe7c081/library/core/src/panicking.rs:364:5
   4: my_crate::tests::example_impl
             at ./src/example.rs:15:5
   5: my_crate::tests::helper
             at ./src/other.rs:7:9
   6: my_crate::tests::example_impl
             at ./src/example.rs:99999999999999999999999:1
";

#[test]
fn only_frames_in_the_project_sources_are_kept() {
    let frames = local_frames(BACKTRACE);
    assert_eq!(
        frames,
        vec![
            ("my_crate::tests::example_impl".to_string(), "./src/example.rs".to_string(), 15, 5),
            ("my_crate::tests::helper".to_string(), "./src/other.rs".to_string(), 7, 9),
        ]
    );
    assert!(local_frames("no frames here").is_empty());
}

#[test]
fn files_and_functions_are_interned_and_steps_bound_each_task() {
    let mut rec = Recording::new();
    rec.add_task();
    rec.add_task();
    let frames = local_frames(BACKTRACE);
    rec.record_frames(1, frames.clone());
    rec.record_frames(0, Vec::new());
    rec.record_frames(1, frames);
    assert_eq!(rec.files(), &["./src/example.rs".to_string(), "./src/other.rs".to_string()]);
    assert_eq!(rec.functions().len(), 2);
    assert_eq!(rec.tasks(), &[(1, 1), (0, 2)]);
    assert_eq!(rec.steps().len(), 3);
    assert_eq!(rec.steps()[2], (1, vec![(0, 0, 15, 5), (1, 1, 7, 9)]));
    assert_eq!(rec.steps()[1], (0, vec![]));
}
