//! Tape membership: an op's output joins the tape only while recording
//! and only from an input on it; only leaves accumulate gradients.
use oxmera_tensor::autograd::{no_grad, output_role, RecordingState, TapeRole};

fn leaf() -> TapeRole {
    TapeRole::Off.with_requires_grad(true)
}

#[test]
fn computed_tensors_are_tracked_but_do_not_require_grad() {
    let state = RecordingState::new();
    // y = leaf * 3.0: the scalar operand is a constant, off the tape.
    let y = output_role(&state, &[leaf(), TapeRole::Off]);
    assert!(y.is_on_tape());
    assert!(!y.requires_grad());
}

#[test]
fn no_grad_is_observable_through_is_tracked() {
    let mut state = RecordingState::new();
    let a = leaf();
    assert!(!no_grad(&mut state, |s| output_role(s, &[a, TapeRole::Off])).is_on_tape());
    assert!(output_role(&state, &[a, TapeRole::Off]).is_on_tape());
}

#[test]
fn constants_and_detached_tensors_are_not_tracked() {
    assert!(!TapeRole::Off.is_on_tape());
    assert!(!leaf().detach().is_on_tape());
    assert!(leaf().is_on_tape(), "a leaf that requires grad is on the tape");
}

#[test]
fn asking_for_gradients_makes_a_leaf_and_asking_not_to_leaves_the_tape() {
    assert_eq!(TapeRole::Off.with_requires_grad(true), TapeRole::Leaf);
    assert_eq!(TapeRole::Leaf.with_requires_grad(true), TapeRole::Leaf);
    assert_eq!(TapeRole::Computed.with_requires_grad(true), TapeRole::Computed);
    assert_eq!(TapeRole::Computed.with_requires_grad(false), TapeRole::Off);
    assert_eq!(TapeRole::Leaf.with_requires_grad(false), TapeRole::Off);
    assert!(TapeRole::Leaf.requires_grad());
    assert!(!TapeRole::Computed.requires_grad());
}

#[test]
fn an_output_of_constants_stays_off_the_tape() {
    let state = RecordingState::new();
    assert_eq!(output_role(&state, &[TapeRole::Off, TapeRole::Off]), TapeRole::Off);
    assert_eq!(output_role(&state, &[]), TapeRole::Off);
    assert_eq!(output_role(&state, &[TapeRole::Off, TapeRole::Computed]), TapeRole::Computed);
}
