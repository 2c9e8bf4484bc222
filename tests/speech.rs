use kokoros::speech::{SpeechError, SpeechRun};

#[test]
fn run_collects_chunk_audio_in_order() {
    let mut run: SpeechRun<f32> = SpeechRun::new(vec!["Hello world.".to_string(), "This is a test.".to_string()]);
    assert_eq!(run.pending(), Some("Hello world.".to_string()));
    run.deliver(vec![0.5, 0.25]);
    assert_eq!(run.pending(), Some("This is a test.".to_string()));
    run.deliver(vec![-1.0, 1.0, 0.0]);
    assert_eq!(run.pending(), None);
    let audio = run.finish();
    assert_eq!(audio, vec![0.5, 0.25, -1.0, 1.0, 0.0]);
    assert_eq!(audio.len(), 2 + 3);
}

#[test]
fn empty_run_calls_nothing() {
    let run: SpeechRun<f32> = SpeechRun::new(vec![]);
    assert_eq!(run.pending(), None);
    assert!(run.finish().is_empty());
}

#[test]
fn failure_names_the_chunk() {
    let mut run: SpeechRun<f32> = SpeechRun::new(vec!["a.".to_string(), "b.".to_string()]);
    run.deliver(vec![1.0]);
    match run.fail(true, "engine error".to_string()) {
        SpeechError::ChunkInferenceFailed { chunk_text, cause } => {
            assert_eq!(chunk_text, "b.");
            assert_eq!(cause, "engine error");
        }
        other => panic!("{:?}", other),
    }
    let run: SpeechRun<f32> = SpeechRun::new(vec!["c.".to_string()]);
    match run.fail(false, "bad language".to_string()) {
        SpeechError::PhonemizeFailed { chunk_text, cause } => {
            assert_eq!(chunk_text, "c.");
            assert_eq!(cause, "bad language");
        }
        other => panic!("{:?}", other),
    }
}
