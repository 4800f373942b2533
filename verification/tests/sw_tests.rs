use fdm::param::ModelPara;
use fdm::sw::{grid_layout, vp_vs_p};

#[test]
fn model_file_paths() {
    let m = ModelPara::new_with_default("a");
    let (vp, vs, pp) = vp_vs_p("dir", &m);
    assert_eq!(vp, "dir\\avp.grd");
    assert_eq!(vs, "dir\\avs.grd");
    assert_eq!(pp, "dir\\avp.grd");
}

#[test]
fn grid_layout_widens_by_boundary_and_margin() {
    let g = grid_layout(159, 150, 20, 10, 3, 4).unwrap();
    assert_eq!(g.jl, 5);
    assert_eq!((g.nx_pml, g.nz_pml), (199, 190));
    assert_eq!((g.nx_pml_jl, g.nz_pml_jl), (209, 200));
    assert_eq!(g.z_nodes_pml, 5..195);
    assert_eq!(g.x_nodes_pml, 5..204);
    assert_eq!(g.z_nodes, 25..175);
    assert_eq!(g.x_nodes, 25..184);
    assert_eq!((g.nsrcx, g.nsrcz), (28, 29));
}

#[test]
fn grid_layout_overflow() {
    assert!(grid_layout(usize::MAX - 10, 1, 5, 2, 0, 0).is_none());
    assert!(grid_layout(1, 1, 1, 2, usize::MAX, 0).is_none());
    assert!(grid_layout(usize::MAX - 10, 1, 5, 0, 0, 0).is_some());
}
