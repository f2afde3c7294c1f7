use cortex::llm::{OllamaLlm, StubLlm, TurnSource};

#[test]
fn stub_replays_its_script() {
    let mut stub = StubLlm::with_script(&[&[1, 2], &[], &[3]]);
    assert_eq!(stub.len(), 3);
    assert!(!stub.is_empty());
    assert_eq!(stub.next_turn(), Some(vec![1, 2]));
    assert_eq!(stub.next_turn(), Some(vec![]));
    let mut copy = stub.clone();
    assert_eq!(stub.next_turn(), Some(vec![3]));
    assert_eq!(stub.next_turn(), None);
    assert_eq!(stub.next_turn(), None);
    assert_eq!(copy.next_turn(), Some(vec![3]));
}

#[test]
fn exhausted_stubs_go_on_counting() {
    let mut stub = StubLlm::with_script(&[&[7]]);
    for asked in 0..4 {
        assert_eq!(format!("{stub:?}"), format!("StubLlm {{ turns: [[7]], pos: {asked} }}"));
        assert_eq!(stub.next_turn().is_some(), asked == 0);
    }
}

/// A source of one's own.
struct Countdown(u32);

impl TurnSource for Countdown {
    fn next_turn(&mut self) -> Option<Vec<u32>> {
        self.0 = self.0.checked_sub(1)?;
        Some(vec![self.0])
    }
}

#[test]
fn sources_are_open_to_others() {
    assert_eq!(drained(Countdown(2)), vec![vec![1], vec![0]]);
    assert_eq!(drained(StubLlm::with_script(&[&[1], &[0]])), vec![vec![1], vec![0]]);
}

fn drained<S: TurnSource>(mut source: S) -> Vec<Vec<u32>> {
    let mut turns = Vec::new();
    while let Some(ids) = source.next_turn() {
        turns.push(ids);
    }
    turns
}

#[test]
fn empty_stub_is_exhausted() {
    let mut stub = StubLlm::default();
    assert!(stub.is_empty());
    assert_eq!(stub.next_turn(), None);
    assert_eq!(StubLlm::new(vec![vec![9]]).next_turn(), Some(vec![9]));
}

#[test]
fn words_get_ids_in_order_of_first_appearance() {
    let mut llm = OllamaLlm::new("model", "prompt", 2);
    assert_eq!(llm.tokenize("the cat  the\u{2003}dog\n"), vec![0, 1, 0, 2]);
    assert_eq!(llm.vocab_len(), 3);
    assert_eq!(llm.tokenize("dog bird cat"), vec![2, 3, 1]);
    assert_eq!(llm.vocab_len(), 4);
    assert_eq!(llm.tokenize("  "), Vec::<u32>::new());
    assert!(llm.fits("more words"));
}

#[test]
fn sessions_end_after_their_turns() {
    let mut llm = OllamaLlm::new("m", "p", 1);
    assert_eq!((llm.model(), llm.prompt()), ("m", "p"));
    assert!(llm.begin_turn());
    assert!(!llm.begin_turn());
    assert!(!OllamaLlm::new("m", "p", 0).begin_turn());
}

#[test]
fn completions_are_trimmed_and_may_be_missing() {
    assert_eq!(
        OllamaLlm::completion(true, " \n hi there \t"),
        Some("hi there".to_string())
    );
    assert_eq!(OllamaLlm::completion(false, "text"), None);
}

#[test]
fn empty_completions_make_no_turn() {
    let mut llm = OllamaLlm::new("m", "p", 3);
    assert_eq!(llm.finish_turn(None), None);
    assert_eq!(llm.finish_turn(Some(String::new())), None);
    assert_eq!(llm.vocab_len(), 0);
    assert_eq!(llm.finish_turn(Some("a b a".to_string())), Some(vec![0, 1, 0]));
    assert_eq!(llm.clone().vocab_len(), 2);
}
