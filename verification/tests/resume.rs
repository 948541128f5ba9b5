//! Resume states.
use airferry::raptorq_core::{Config, Encoder};
use airferry::transfer_engine::resume::{admit_json_bytes, MAX_RESUME_JSON_BYTES};
use airferry::transfer_engine::ResumeState;
use std::collections::HashSet;

fn valid_state() -> ResumeState {
    let data = vec![7u8; 1024];
    let meta = Encoder::new(&data, Config::default())
        .unwrap()
        .meta()
        .clone();
    ResumeState {
        session_id: 1,
        received: vec![HashSet::new(); meta.blocks.len()],
        meta,
        symbols: Vec::new(),
    }
}

#[test]
fn resume_validation_rejects_bad_coordinates_and_sizes() {
    let mut state = valid_state();
    state.symbols.push((0, 0, vec![0; 3]));
    assert!(state.validate().is_err());

    let mut state = valid_state();
    state.received[0].insert(1 << 24);
    assert!(state.validate().is_err());
}

#[test]
fn resume_rejections_tell_the_reason() {
    assert_eq!(valid_state().validate(), Ok(()));

    let mut s = valid_state();
    s.meta.symbol_size = 0;
    assert_eq!(s.validate(), Err("symbol_size out of range"));

    let mut s = valid_state();
    s.received.push(HashSet::new());
    assert_eq!(s.validate(), Err("too many received block sets"));

    let mut s = valid_state();
    s.received[0].insert(1 << 24);
    assert_eq!(s.validate(), Err("received ESI set exceeds resume budget"));

    let mut s = valid_state();
    s.symbols.push((1, 0, vec![0; 1024]));
    assert_eq!(s.validate(), Err("stored resume symbol coordinate out of range"));

    let mut s = valid_state();
    s.symbols.push((0, 0, vec![0; 1023]));
    assert_eq!(s.validate(), Err("stored resume symbol has wrong size"));

    let mut s = valid_state();
    s.symbols = vec![(0, 0, vec![0; 1024]); 65_538];
    assert_eq!(s.validate(), Err("stored resume symbols exceed byte budget"));
    s.symbols.pop();
    assert_eq!(s.validate(), Ok(()));

    let mut s = valid_state();
    s.symbols = vec![(0, 0, Vec::new()); 1_048_577];
    assert_eq!(s.validate(), Err("too many stored resume symbols"));
}

#[test]
fn serialized_states_have_a_byte_budget() {
    assert_eq!(admit_json_bytes(10, 20), Ok(30));
    assert_eq!(admit_json_bytes(0, MAX_RESUME_JSON_BYTES), Ok(MAX_RESUME_JSON_BYTES));
    assert_eq!(
        admit_json_bytes(1, MAX_RESUME_JSON_BYTES),
        Err("resume JSON exceeds local byte budget")
    );
    assert_eq!(admit_json_bytes(1, usize::MAX), Err("resume JSON size overflow"));
}
