//! The recording switch, the backward-pass order, and the backend registry.
use oxmera_tensor::autograd::{
    backward_order, is_recording, no_grad, propagate_grads, NoGradGuard, RecordingState,
};
use oxmera_tensor::backend::{backend_for, Registry};
use oxmera_tensor::error::{Device, Error};

#[test]
fn no_grad_turns_recording_off_and_restores_it() {
    let mut state = RecordingState::new();
    assert!(is_recording(&state));
    let seen = no_grad(&mut state, |s| is_recording(s));
    assert!(!seen);
    assert!(is_recording(&state));
}

#[test]
fn guards_nest() {
    let mut state = RecordingState::new();
    let outer = NoGradGuard::new(&mut state);
    let inner = NoGradGuard::new(&mut state);
    assert!(!is_recording(&state));
    inner.release(&mut state);
    assert!(!is_recording(&state), "recording resumes only when the outermost guard ends");
    outer.release(&mut state);
    assert!(is_recording(&state));
}

#[test]
fn backward_visits_inputs_before_their_consumers_and_the_root_last() {
    // 0, 1 leaves; 2 = f(0, 1); 3 = g(2, 0); 4 = h(3, 2); 5 unrelated.
    let tape: Vec<Vec<usize>> = vec![vec![], vec![], vec![0, 1], vec![2, 0], vec![3, 2], vec![1]];
    let order = backward_order(&tape, 4);
    assert_eq!(order.last(), Some(&4));
    assert_eq!(order.len(), 5);
    assert!(!order.contains(&5));
    let pos = |x: usize| order.iter().position(|&y| y == x).unwrap();
    for (node, inputs) in tape.iter().enumerate() {
        if order.contains(&node) {
            for &i in inputs {
                assert!(pos(i) < pos(node), "{i} must come before {node}");
            }
        }
    }
    assert_eq!(order, vec![1, 0, 2, 3, 4]);
}

#[test]
fn backward_skips_untracked_inputs_and_untracked_roots() {
    let tape: Vec<Vec<usize>> = vec![vec![], vec![0, 7]];
    assert_eq!(backward_order(&tape, 1), vec![0, 1]);
    assert!(backward_order(&tape, 9).is_empty());
}

#[test]
fn a_registered_backend_is_served_and_the_cpu_is_never_missing() {
    let mut reg: Registry<&'static str> = Registry::new();
    assert!(reg.lookup(Device::Cpu).is_none());
    assert_eq!(*backend_for(&mut reg, Device::Cpu, "cpu").unwrap(), "cpu");
    assert_eq!(*reg.lookup(Device::Cpu).unwrap(), "cpu");
    assert!(matches!(
        backend_for(&mut reg, Device::Metal { index: 0 }, "cpu"),
        Err(Error::BackendUnavailable { device: Device::Metal { index: 0 } })
    ));
    reg.register(Device::Metal { index: 1 }, "m1");
    reg.register(Device::Cuda { index: 0 }, "c0");
    reg.register(Device::Metal { index: 0 }, "m0");
    reg.register(Device::Metal { index: 1 }, "m1b");
    assert_eq!(*reg.lookup(Device::Metal { index: 1 }).unwrap(), "m1b");
    assert_eq!(
        reg.devices(),
        vec![Device::Cpu, Device::Cuda { index: 0 }, Device::Metal { index: 0 }, Device::Metal { index: 1 }]
    );
}

#[test]
fn a_tape_numbered_from_the_root_still_lists_inputs_first() {
    // Root 0 consumed 1 and 2; node 2 consumed 1 as well.
    let tape = vec![vec![1, 2], vec![], vec![1]];
    let order = backward_order(&tape, 0);
    assert_eq!(order.last(), Some(&0));
    let pos = |n: usize| order.iter().position(|&x| x == n).unwrap();
    assert!(pos(1) < pos(2));
    assert!(pos(2) < pos(0));
    assert_eq!(order.len(), 3);
}

fn plus(a: &i64, b: &i64) -> Result<i64, String> {
    Ok(a + b)
}

#[test]
fn a_tensor_used_twice_receives_both_gradients() {
    // y = x * x with x = 3: node 0 is y (inputs [1, 1]), node 1 is x.
    let tape = vec![vec![1, 1], vec![]];
    let vjp = |k: usize, g: &i64| -> Result<Vec<Option<i64>>, String> {
        match k {
            0 => Ok(vec![Some(g * 3), Some(g * 3)]),
            _ => Ok(vec![]),
        }
    };
    let grads = propagate_grads(&tape, 0, 1i64, &plus, &vjp).unwrap();
    assert_eq!(grads, vec![Some(1), Some(6)]);
}

#[test]
fn gradients_flow_through_a_diamond_and_skip_unreached_nodes() {
    // 0 = f(1, 2), 2 = g(1); node 3 is not reached; 9 is an untracked index.
    let tape = vec![vec![1, 2], vec![], vec![1, 9], vec![1]];
    let vjp = |k: usize, g: &i64| -> Result<Vec<Option<i64>>, String> {
        match k {
            0 => Ok(vec![Some(10 * g), Some(100 * g)]),
            2 => Ok(vec![Some(2 * g), Some(7)]),
            _ => Ok(vec![]),
        }
    };
    let grads = propagate_grads(&tape, 0, 1i64, &plus, &vjp).unwrap();
    assert_eq!(grads, vec![Some(1), Some(10 + 200), Some(100), None]);
    // A slot whose VJP gives no gradient sends nothing.
    let quiet = |k: usize, _g: &i64| -> Result<Vec<Option<i64>>, String> {
        match k {
            0 => Ok(vec![None, Some(5)]),
            _ => Ok(vec![]),
        }
    };
    assert_eq!(propagate_grads(&tape, 0, 1i64, &plus, &quiet).unwrap(), vec![Some(1), None, Some(5), None]);
}

#[test]
fn the_first_failing_vjp_ends_the_pass() {
    let tape = vec![vec![1], vec![]];
    let vjp = |k: usize, _g: &i64| -> Result<Vec<Option<i64>>, String> {
        if k == 0 { Err("boom".to_string()) } else { Ok(vec![]) }
    };
    assert_eq!(propagate_grads(&tape, 0, 1i64, &plus, &vjp), Err("boom".to_string()));
    assert_eq!(propagate_grads(&tape, 5, 1i64, &plus, &vjp), Ok(vec![None, None]));
}

#[test]
fn no_grad_nests_inside_its_own_closure() {
    let mut state = RecordingState::new();
    let (inner, after_inner) = no_grad(&mut state, |s| {
        let inner = no_grad(s, |s2| is_recording(s2));
        (inner, is_recording(s))
    });
    assert!(!inner);
    assert!(!after_inner);
    assert!(is_recording(&state));
}
