use icp::matrix::{MatErrorKind, Matrix};
use icp::registration::{
    check_index_points, check_match, gather_columns, homogeneous, rigid_transform, Action,
    IcpErrorKind, IcpRun, Status,
};
use icp::visualization::VisualError;

#[test]
fn start_rejects_empty_fixed_cloud() {
    let e = IcpRun::start(0, 10, 50, true).err().unwrap();
    assert_eq!(e.kind, IcpErrorKind::InvalidArgument);
}

#[test]
fn start_rejects_bad_arguments() {
    assert_eq!(IcpRun::start(5, 0, 50, true).err().unwrap().kind, IcpErrorKind::InvalidArgument);
    assert_eq!(IcpRun::start(5, 5, 0, true).err().unwrap().kind, IcpErrorKind::InvalidArgument);
    assert_eq!(IcpRun::start(5, 5, 50, false).err().unwrap().kind, IcpErrorKind::InvalidArgument);
    let run = IcpRun::start(5, 5, 50, true).unwrap();
    assert_eq!(run.iterations(), 0);
    assert_eq!(run.max_iterations(), 50);
    assert_eq!(run.status(), Status::Iterating);
}

#[test]
fn converges_after_exactly_two_rounds() {
    let mut run = IcpRun::start(3, 3, 100, true).unwrap();
    assert_eq!(run.record_error(true), Action::Refine);
    assert!(run.is_running());
    assert_eq!(run.record_error(true), Action::Stop);
    assert_eq!(run.iterations(), 2);
    assert_eq!(run.status(), Status::Converged);
    assert!(!run.is_running());
}

#[test]
fn runs_out_of_iterations() {
    let mut run = IcpRun::start(3, 3, 3, true).unwrap();
    let mut rounds = 0;
    while run.is_running() {
        assert_eq!(run.record_error(false), Action::Refine);
        rounds += 1;
    }
    assert_eq!(rounds, 3);
    assert_eq!(run.status(), Status::MaxIterationsReached);
}

#[test]
fn single_iteration_budget() {
    let mut run = IcpRun::start(1, 1, 1, true).unwrap();
    assert_eq!(run.record_error(true), Action::Refine);
    assert_eq!(run.status(), Status::MaxIterationsReached);
}

#[test]
fn failed_query_is_internal_error() {
    assert_eq!(check_match(Some(2), 3).unwrap(), 2);
    assert_eq!(check_match(None, 3).err().unwrap().kind, IcpErrorKind::InternalInvariantViolation);
    assert_eq!(check_match(Some(3), 3).err().unwrap().kind, IcpErrorKind::InternalInvariantViolation);
}

#[test]
fn empty_index_is_rejected() {
    assert_eq!(check_index_points(0).err().unwrap().kind, IcpErrorKind::EmptyInput);
    assert!(check_index_points(1).is_ok());
}

#[test]
fn gathers_matched_columns() {
    let fixed = Matrix::from_column_major(
        3,
        3,
        vec![0.0, 0.0, 0.0, 10.0, 0.0, 0.0, 0.0, 10.0, 0.0],
    )
    .unwrap();
    let m = gather_columns(&fixed, &vec![1, 0, 1, 2]);
    assert_eq!(m.rows(), 3);
    assert_eq!(m.cols(), 4);
    assert_eq!(m.get_column(0), vec![10.0, 0.0, 0.0]);
    assert_eq!(m.get_column(1), vec![0.0, 0.0, 0.0]);
    assert_eq!(m.get_column(2), vec![10.0, 0.0, 0.0]);
    assert_eq!(m.get_column(3), vec![0.0, 10.0, 0.0]);
    assert_eq!(gather_columns(&fixed, &vec![]).cols(), 0);
}

#[test]
fn homogeneous_appends_row_of_ones() {
    let m = Matrix::from_column_major(3, 2, vec![1.0, 2.0, 3.0, 4.0, 5.0, 6.0]).unwrap();
    let h = homogeneous(&m, 1.0);
    assert_eq!((h.rows(), h.cols()), (4, 2));
    assert_eq!(h.get_column(0), vec![1.0, 2.0, 3.0, 1.0]);
    assert_eq!(h.get_column(1), vec![4.0, 5.0, 6.0, 1.0]);
}

#[test]
fn assembles_rigid_transform() {
    let r = Matrix::from_column_major(3, 3, vec![0.0, 1.0, 0.0, -1.0, 0.0, 0.0, 0.0, 0.0, 1.0])
        .unwrap();
    let t = rigid_transform(&r, &[5.0, 6.0, 7.0], 0.0, 1.0).unwrap();
    assert_eq!((t.rows(), t.cols()), (4, 4));
    assert_eq!(t.get_row(0), vec![0.0, -1.0, 0.0, 5.0]);
    assert_eq!(t.get_row(1), vec![1.0, 0.0, 0.0, 6.0]);
    assert_eq!(t.get_row(2), vec![0.0, 0.0, 1.0, 7.0]);
    assert_eq!(t.get_row(3), vec![0.0, 0.0, 0.0, 1.0]);
}

#[test]
fn rigid_transform_rejects_wrong_shapes() {
    let r = Matrix::new(3, 2, 0.0);
    let e = rigid_transform(&r, &[0.0, 0.0, 0.0], 0.0, 1.0).err().unwrap();
    assert_eq!(e.kind, MatErrorKind::SizeMismatch);
    let r = Matrix::new(3, 3, 0.0);
    assert!(rigid_transform(&r, &[0.0, 0.0], 0.0, 1.0).is_err());
}

#[test]
fn visual_error_keeps_message() {
    assert_eq!(VisualError::new("no window").message(), "no window");
}
