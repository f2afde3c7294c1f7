use cortex::app::{should_commit, sketch_of, AppError, CortexApp, LogEntry, APP_ENCODING_NAME};
use cortex::index::{HashedToken, LutIndex};
use cortex::lattice::{HLLSet, TOTAL_BITS};
use cortex::message::ids_message;
use cortex::tid::token_in_bytes;
use cortex::working_set::NamedLut;
use cortex::TokenId;

fn place(token: &Vec<u8>) -> (u32, u32) {
    let mut h: u64 = 0xcbf2_9ce4_8422_2325;
    for &b in token {
        h = (h ^ b as u64).wrapping_mul(0x0000_0100_0000_01b3);
    }
    h ^= h >> 29;
    ((h % 1024) as u32, ((h >> 10) % 32) as u32)
}

fn key(tokens: &Vec<Vec<u8>>) -> String {
    format!("h:{tokens:?}")
}

fn digest(tokens: &Vec<Vec<u8>>) -> String {
    format!("v:{tokens:?}")
}

fn luts(ids: &[TokenId]) -> Vec<NamedLut> {
    let mut lut = LutIndex::new();
    for &n in ids {
        let bytes = token_in_bytes(n);
        let position = place(&bytes);
        lut.insert_token(HashedToken { bytes, hash: 0, position });
    }
    vec![NamedLut { name: "main".to_string(), lut }]
}

fn zero_tf() -> Vec<u64> {
    vec![0; TOTAL_BITS as usize]
}

/// A store that keeps the log and the head states.
struct Store {
    log: Vec<(String, String)>,
    states: Option<HLLSet>,
}

fn run_turn(app: &mut CortexApp, store: &mut Store, ids: &[TokenId]) -> Option<String> {
    let g1 = sketch_of(ids, &place);
    let head = store.log.last().map(|(id, _)| id.clone());
    let proposal = app.begin_turn(ids, (&g1, &g1, &g1), &zero_tf(), head);
    let new_bits = match &store.states {
        Some(s) => proposal.g1.difference(s).popcount() as u64,
        None => proposal.g1.popcount() as u64,
    };
    let commit = if should_commit(new_bits) {
        let id = format!("c{}", store.log.len());
        store.log.push((id.clone(), proposal.message.clone()));
        store.states = Some(proposal.g1.clone());
        Some(id)
    } else {
        None
    };
    let known: Vec<TokenId> = (0..20).collect();
    app.finish_turn(ids, g1, commit.clone(), &luts(&known), &key, &digest);
    commit
}

#[test]
fn loop_commits_new_bits_and_skips_the_rest() {
    let mut app = CortexApp::new();
    let mut store = Store { log: Vec::new(), states: None };
    assert_eq!(run_turn(&mut app, &mut store, &[1, 2, 3]), Some("c0".to_string()));
    assert_eq!(run_turn(&mut app, &mut store, &[3, 2]), None);
    assert_eq!(run_turn(&mut app, &mut store, &[4]), Some("c1".to_string()));
    assert_eq!(app.turn_count(), 3);
    assert_eq!(app.turns().len(), 3);
    assert_eq!(app.working_g1(), &sketch_of(&[1, 2, 3, 4], &place));
    assert!(app.context().matrix().grounded(3));
    assert_eq!(app.context().matrix().cell(3, 2), Some(1));
    assert!(!app.context().matrix().grounded(4), "a lone token has no transition");
}

#[test]
fn a_repeated_turn_is_recorded_without_a_commit() {
    let mut app = CortexApp::new();
    let mut store = Store { log: Vec::new(), states: None };
    run_turn(&mut app, &mut store, &[1, 2]);
    let working = app.working_g1().clone();
    assert_eq!(run_turn(&mut app, &mut store, &[1, 2]), None);
    assert_eq!(app.working_g1(), &working);
    assert_eq!(store.log.len(), 1);
    assert_eq!(app.turn_count(), 2);
    assert_eq!(app.turns()[1].ids, vec![1, 2]);
    assert_eq!(app.turns()[1].commit, None);
}

#[test]
fn recovery_gives_back_exactly_the_committed_turns() {
    let mut app = CortexApp::new();
    let mut store = Store { log: Vec::new(), states: None };
    for ids in [&[][..], &[1, 2], &[2, 1], &[], &[3], &[1, 2, 3], &[4]] {
        run_turn(&mut app, &mut store, ids);
    }
    let log: Vec<LogEntry> = store
        .log
        .iter()
        .map(|(id, m)| LogEntry { id: id.clone(), message: Some(m.clone()) })
        .collect();
    let turns = CortexApp::read_log(&log, &place);
    let s = store.states.unwrap();
    let known: Vec<TokenId> = (0..20).collect();
    let opened = CortexApp::open(
        turns,
        Some((s.clone(), s.clone(), s)),
        None,
        &luts(&known),
        &key,
        &digest,
    );
    let kept: Vec<_> = app.turns().iter().filter(|t| t.commit.is_some()).collect();
    assert_eq!(kept.len(), 3);
    assert_eq!(opened.turn_count(), 3);
    for (back, was) in opened.turns().iter().zip(kept) {
        assert_eq!(back.ids, was.ids);
        assert_eq!(back.g1, was.g1);
        assert_eq!(back.commit, was.commit);
    }
    assert_eq!(opened.working_g1(), app.working_g1());
}

#[test]
fn recovery_reads_back_committed_turns() {
    let mut app = CortexApp::new();
    let mut store = Store { log: Vec::new(), states: None };
    run_turn(&mut app, &mut store, &[1, 2, 3]);
    run_turn(&mut app, &mut store, &[2, 3]);
    run_turn(&mut app, &mut store, &[7, 1]);

    let log: Vec<LogEntry> = store
        .log
        .iter()
        .map(|(id, m)| LogEntry { id: id.clone(), message: Some(m.clone()) })
        .collect();
    let turns = CortexApp::read_log(&log, &place);
    let ids: Vec<Vec<TokenId>> = turns.iter().map(|t| t.ids.clone()).collect();
    assert_eq!(ids, vec![vec![1, 2, 3], vec![7, 1]], "skipped turns are not rebuilt");
    assert_eq!(turns[1].commit, Some("c1".to_string()));
    assert_eq!(turns[1].g1, sketch_of(&[7, 1], &place));

    let s = store.states.unwrap();
    let known: Vec<TokenId> = (0..20).collect();
    let opened = CortexApp::open(
        turns,
        Some((s.clone(), s.clone(), s)),
        None,
        &luts(&known),
        &key,
        &digest,
    );
    assert_eq!(opened.turn_count(), 2);
    assert_eq!(opened.working_g1(), app.working_g1());
    assert_eq!(opened.context().tree().leaves().len(), 2);
    assert_eq!(opened.context().matrix().cell(7, 1), Some(1));
}

#[test]
fn foreign_and_unreadable_commits_are_passed_over() {
    let log = [
        LogEntry { id: "a".to_string(), message: Some("merge".to_string()) },
        LogEntry { id: "b".to_string(), message: None },
        LogEntry { id: "c".to_string(), message: Some(ids_message(&[])) },
        LogEntry { id: "d".to_string(), message: Some(ids_message(&[5])) },
    ];
    let turns = CortexApp::read_log(&log, &place);
    assert_eq!(turns.len(), 1);
    assert_eq!(turns[0].commit, Some("d".to_string()));
}

#[test]
fn opening_nothing_is_starting_afresh() {
    let opened = CortexApp::open(Vec::new(), None, None, &[], &key, &digest);
    assert_eq!(opened.turn_count(), 0);
    assert!(opened.working_g1().is_empty());
    assert!(opened.context().tree().leaves().is_empty());
    assert_eq!(opened.current_tf(&zero_tf()), zero_tf());
    assert_eq!(CortexApp::default().turn_count(), 0);
}

#[test]
fn frequencies_add_to_the_baseline() {
    let mut base = zero_tf();
    base[5] = 40;
    let app = CortexApp::open(Vec::new(), None, Some(base), &[], &key, &digest);
    let mut since = zero_tf();
    since[5] = 2;
    since[32767] = 1;
    let tf = app.current_tf(&since);
    assert_eq!((tf[5], tf[32767], tf[0]), (42, 1, 0));
}

#[test]
fn proposals_carry_parents_and_message() {
    let mut app = CortexApp::new();
    let g = HLLSet::from_bits(&[1]);
    let h = HLLSet::from_bits(&[2]);
    let i = HLLSet::from_bits(&[3]);
    let p = app.begin_turn(&[8, 9], (&g, &h, &i), &zero_tf(), Some("c7".to_string()));
    assert_eq!(p.message, "ids=8,9");
    assert_eq!(p.parents, vec!["c7".to_string()]);
    assert_eq!((p.g1, p.g2, p.g3), (g.clone(), h.clone(), i.clone()));
    assert_eq!(p.tf.len(), 32768);
    let first = app.begin_turn(&[], (&g, &h, &i), &zero_tf(), None);
    assert!(first.parents.is_empty());
    assert_eq!(app.turn_count(), 0, "a turn counts once it is finished");
}

#[test]
fn steps_report_leaves_and_image() {
    let mut app = CortexApp::new();
    let known: Vec<TokenId> = (0..20).collect();
    let g = sketch_of(&[1, 2], &place);
    let step = app.finish_turn(&[1, 2], g, None, &luts(&known), &key, &digest);
    assert_eq!(step.diff.added.len(), 1);
    assert!(step.diff.removed.is_empty() && step.diff.retained.is_empty());
    assert_eq!(step.full_image, vec![b"tid1".to_vec(), b"tid2".to_vec()]);
    let g = sketch_of(&[3], &place);
    let step = app.finish_turn(&[3], g, Some("c0".to_string()), &luts(&known), &key, &digest);
    assert_eq!((step.diff.added.len(), step.diff.retained.len()), (1, 1));
    assert_eq!(step.full_image.len(), 3);
    assert_eq!(app.turns()[0].commit, None);
    assert_eq!(app.turns()[1].commit, Some("c0".to_string()));
}

#[test]
fn errors_have_words() {
    assert_eq!(AppError::Store("disk".to_string()).to_text(), "store error: disk");
    assert_eq!(AppError::Other("odd".to_string()).to_text(), "odd");
    assert_eq!(APP_ENCODING_NAME, "tid");
    assert!(should_commit(1) && !should_commit(0));
}

#[test]
fn turns_and_steps_can_be_copied() {
    let mut app = CortexApp::default();
    let known: Vec<TokenId> = (0..20).collect();
    let g1 = sketch_of(&[1, 2], &place);
    app.begin_turn(&[1, 2], (&g1, &g1, &g1), &zero_tf(), None);
    let step = app.finish_turn(&[1, 2], g1, Some("c".to_string()), &luts(&known), &key, &digest);
    let turn = app.turns()[0].clone();
    assert_eq!(turn.ids, vec![1, 2]);
    assert_eq!(turn.g1, app.turns()[0].g1);
    assert_eq!(turn.commit, Some("c".to_string()));
    assert_eq!(step.diff.clone(), step.diff);
    assert_eq!(step.diff.added.len(), 1);
    assert!(app.tf_base().iter().all(|&v| v == 0));
    assert_eq!(app.tf_base().len(), TOTAL_BITS as usize);
}
