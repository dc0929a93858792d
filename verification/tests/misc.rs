//! Small pieces: op names, ordering, the generator, the ladder harness,
//! walkers, row plans and linear-algebra shapes.
use oxmera_tensor::backend::{
    retry_on_cpu, sort_devices, transfer_route, BinaryOp, ReduceOp, Transfer, UnaryOp,
};
use oxmera_tensor::error::{Device, Error, Issue};
use oxmera_tensor::harness::{answer_is_long_enough, plan_exercise, Command, Kind, Plan, Status};
use oxmera_tensor::layout::Layout;
use oxmera_tensor::linalg::{eigenvalue_dims, square_matrix_dims};
use oxmera_tensor::min3;
use oxmera_tensor::rng::Rng;
use oxmera_tensor::rows::RowPlan;
use oxmera_tensor::shape::{Shape, Strides};
use oxmera_tensor::storage::OpaqueBuffer;
use oxmera_tensor::tensor::Tensor;
use oxmera_tensor::walker::OffsetWalker;
use std::sync::Arc;

#[test]
fn op_names_are_stable_and_every_op_is_listed() {
    assert_eq!(UnaryOp::Relu.name(), "relu");
    assert_eq!(BinaryOp::Maximum.name(), "maximum");
    assert_eq!(ReduceOp::Sum.name(), "sum");
    assert_eq!(UnaryOp::all().len(), 11);
    assert_eq!(BinaryOp::all().len(), 9);
    assert!(!BinaryOp::Gt.is_differentiable());
    assert!(BinaryOp::Pow.is_differentiable());
}

#[test]
fn devices_sort_by_kind_name_then_ordinal() {
    let mut v = vec![Device::Metal { index: 1 }, Device::Cpu, Device::Metal { index: 0 }, Device::Cuda { index: 2 }];
    sort_devices(&mut v);
    assert_eq!(v, vec![Device::Cpu, Device::Cuda { index: 2 }, Device::Metal { index: 0 }, Device::Metal { index: 1 }]);
}

#[test]
fn xorshift_is_deterministic_and_known() {
    let mut a = Rng::new(0x2545_F491_4F6C_DD1D);
    let mut b = Rng::new(0x2545_F491_4F6C_DD1D);
    let x = a.next();
    assert_eq!(x, b.next());
    let mut s = 0x2545_F491_4F6C_DD1Du64;
    s ^= s << 13;
    s ^= s >> 7;
    s ^= s << 17;
    assert_eq!(x, s);
    assert_ne!(a.next(), x);
}

#[test]
fn min3_is_the_smallest() {
    assert_eq!(min3(3, 1, 2), 1);
    assert_eq!(min3(0, 5, 5), 0);
    assert_eq!(min3(7, 7, 4), 4);
}

#[test]
fn the_ladder_runs_what_each_rung_needs() {
    assert_eq!(plan_exercise(false, Kind::Crate, Status::Solved), Plan::NotBuilt);
    assert_eq!(plan_exercise(true, Kind::Kernel, Status::Planned), Plan::Planned);
    assert_eq!(plan_exercise(true, Kind::Crate, Status::Todo), Plan::Run { first: Command::TestNoRun, after: None });
    assert_eq!(
        plan_exercise(true, Kind::Kernel, Status::Solved),
        Plan::Run { first: Command::Check, after: Some(Command::ReconvergeStrict) }
    );
    assert_eq!(plan_exercise(true, Kind::Written, Status::Todo), Plan::AwaitAnswer);
    assert_eq!(plan_exercise(true, Kind::Written, Status::Solved), Plan::CheckAnswer);
    assert_eq!(Command::ReconvergeStrict.args(), vec!["reconverge", "check", "--strict"]);
    assert!(!answer_is_long_enough(79));
    assert!(answer_is_long_enough(80));
}

#[test]
fn the_walker_yields_offsets_in_logical_order_and_wraps() {
    let l = Layout { shape: Shape::new(vec![2, 3]), strides: Strides::new(vec![1, 2]), offset: 0 };
    let mut w = OffsetWalker::at(&l, 0);
    let got: Vec<usize> = (0..7).map(|_| w.next_offset()).collect();
    assert_eq!(got, vec![0, 2, 4, 1, 3, 5, 0]);
    let mut w = OffsetWalker::at(&l, 4);
    assert_eq!(w.next_offset(), 3);
}

#[test]
fn the_row_plan_computes_what_the_elementwise_definition_does() {
    let a = Tensor::from_vec(vec![1i64, 2, 3, 4, 5, 6], Shape::new(vec![2, 3])).unwrap();
    let b = Tensor::from_vec(vec![10i64, 20], Shape::new(vec![2, 1])).unwrap();
    let shape = Shape::new(vec![2, 3]);
    let bv = b.broadcast_to(&shape).unwrap();
    let plan = RowPlan::new(&shape, a.layout(), bv.layout()).unwrap();
    assert_eq!((plan.inner, plan.rows, plan.a_step, plan.b_step), (3, 2, 1, 0));
    let out = plan.run(a.storage().as_slice(), bv.storage().as_slice(), &|x: i64, y: i64| x + y, &shape, a.layout(), bv.layout());
    assert_eq!(out, vec![11, 12, 13, 24, 25, 26]);
    let t = a.t().unwrap();
    let ts = Shape::new(vec![3, 2]);
    assert!(RowPlan::new(&ts, t.layout(), t.layout()).is_none(), "a transposed view is strided innermost");
}

#[test]
fn square_stacks_and_their_eigenvalue_shape() {
    assert_eq!(square_matrix_dims(&[4, 3, 3], "cholesky").unwrap(), (4, 3));
    assert_eq!(square_matrix_dims(&[2, 2], "eigh").unwrap(), (1, 2));
    assert!(matches!(
        square_matrix_dims(&[2, 3], "eigh"),
        Err(Error::InvalidArgument { op: "eigh", issue: Issue::NotSquare })
    ));
    assert!(square_matrix_dims(&[3], "diag").is_err());
    assert_eq!(eigenvalue_dims(&[5, 2, 2]), vec![5, 2]);
}

#[test]
fn eye_has_ones_on_the_diagonal() {
    let e = Tensor::eye(3, 0u8, 1u8).unwrap();
    assert_eq!(e.dims(), &[3, 3]);
    assert_eq!(e.to_vec(), vec![1, 0, 0, 0, 1, 0, 0, 0, 1]);
    assert!(Tensor::eye(0, 0u8, 1u8).unwrap().to_vec().is_empty());
}

#[test]
fn an_opaque_buffer_reports_its_length() {
    let b = OpaqueBuffer::new(Arc::new(vec![1u8, 2, 3]), 3);
    assert_eq!(b.len(), 3);
    assert!(!b.is_empty());
    assert_eq!(b.inner().as_slice(), &[1, 2, 3]);
    assert!(OpaqueBuffer::new(Arc::new(()), 0).is_empty());
}

#[test]
fn data_moves_within_a_device_not_at_all_and_between_accelerators_through_the_host() {
    let metal = Device::Metal { index: 0 };
    let cuda = Device::Cuda { index: 1 };
    assert_eq!(transfer_route(Device::Cpu, Device::Cpu), Transfer::Stay);
    assert_eq!(transfer_route(metal, metal), Transfer::Stay);
    assert_eq!(transfer_route(Device::Cpu, metal), Transfer::Upload);
    assert_eq!(transfer_route(cuda, Device::Cpu), Transfer::Download);
    assert_eq!(transfer_route(metal, cuda), Transfer::Relay);
    assert_eq!(transfer_route(metal, Device::Metal { index: 1 }), Transfer::Relay);
}

#[test]
fn only_a_declined_primitive_off_the_cpu_is_retried_on_the_cpu() {
    let metal = Device::Metal { index: 0 };
    let declined = Error::NotImplemented { op: "index_select", device: metal };
    assert!(retry_on_cpu(&declined, metal));
    assert!(!retry_on_cpu(&declined, Device::Cpu));
    let broken = Error::BackendUnavailable { device: metal };
    assert!(!retry_on_cpu(&broken, metal));
}

#[test]
fn eye_refuses_a_side_whose_square_overflows() {
    match Tensor::eye(1usize << 32, 0u8, 1u8) {
        Err(Error::ShapeOverflow { op: "eye", .. }) => {}
        other => panic!("expected ShapeOverflow, got {:?}", other.map(|t| t.dims().to_vec())),
    }
}

#[test]
fn an_opaque_buffer_wraps_a_type_erased_allocation_without_copying() {
    let inner: Arc<dyn std::any::Any + Send + Sync> = Arc::new(vec![1.5f32, 2.5]);
    let b = OpaqueBuffer::new(inner.clone(), 2);
    assert_eq!(b.len(), 2);
    assert!(!b.is_empty());
    assert!(Arc::ptr_eq(b.inner(), &inner));
    assert_eq!(b.inner().downcast_ref::<Vec<f32>>(), Some(&vec![1.5f32, 2.5]));
}
