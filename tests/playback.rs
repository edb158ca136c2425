use mp3_player::playback::{Batch, Outcome, PlaybackError};

fn files(names: &[&str]) -> Vec<String> {
    names.iter().map(|n| n.to_string()).collect()
}

fn announcements(batch: &mut Batch, outcomes: &[Outcome]) -> Vec<String> {
    let mut lines = Vec::new();
    let mut k = 0;
    while let Some(a) = batch.next_announcement() {
        lines.push(format!("Playing [{}/{}]: {}", a.index, a.total, a.path));
        batch.record(outcomes[k]);
        k += 1;
    }
    lines
}

#[test]
fn empty_batch_plays_nothing() {
    let batch = Batch::new(Vec::new());
    assert!(batch.is_empty());
    assert!(batch.is_finished());
    assert!(batch.next_announcement().is_none());
    assert_eq!(batch.played(), 0);
}

#[test]
fn bad_file_in_the_middle_does_not_stop_the_batch() {
    let mut batch = Batch::new(files(&["a.mp3", "broken.mp3", "c.mp3"]));
    let lines = announcements(
        &mut batch,
        &[Outcome::Played, Outcome::Failed(PlaybackError::Decode), Outcome::Played],
    );
    assert_eq!(
        lines,
        vec!["Playing [1/3]: a.mp3", "Playing [2/3]: broken.mp3", "Playing [3/3]: c.mp3"]
    );
    assert_eq!(batch.failed(), &vec![1usize]);
    assert_eq!(batch.played(), 2);
    assert!(batch.is_finished());
}

#[test]
fn every_failure_kind_is_recorded() {
    let mut batch = Batch::new(files(&["a", "b", "c", "d"]));
    announcements(
        &mut batch,
        &[
            Outcome::Failed(PlaybackError::Open),
            Outcome::Played,
            Outcome::Failed(PlaybackError::Device),
            Outcome::Failed(PlaybackError::Decode),
        ],
    );
    assert_eq!(batch.failed(), &vec![0usize, 2, 3]);
    assert_eq!(batch.played(), 1);
}

#[test]
fn repeated_run_announces_the_same() {
    let list = files(&["x/1.mp3", "x/2.mp3"]);
    let mut first = Batch::new(list.clone());
    let mut second = Batch::new(list);
    let a = announcements(&mut first, &[Outcome::Played, Outcome::Played]);
    let b = announcements(
        &mut second,
        &[Outcome::Failed(PlaybackError::Open), Outcome::Played],
    );
    assert_eq!(a, b);
    assert_eq!(a.len(), 2);
    assert_eq!(first.total(), 2);
}
