//! The integer side of setting up a simulation run: where the model files are,
//! and how the model grid grows by the absorbing boundary and the stencil margin.

use crate::param::ModelPara;
use crate::util::push_char;
use vstd::prelude::*;

verus! {

/// `dir`, a backslash, then `name`.
pub open spec fn path_in(dir: Seq<char>, name: Seq<char>) -> Seq<char> {
    dir + seq!['\\'] + name
}

fn join_path(dir: &str, name: &str) -> (s: String)
    ensures
        s@ == path_in(dir@, name@),
{
    let mut s = String::new();
    s.append(dir);
    push_char(&mut s, '\\');
    s.append(name);
    assert(Seq::<char>::empty() + dir@ == dir@);
    s
}

/// The paths of the P-wave velocity, S-wave velocity and density grid files that
/// the parameters name, in the directory `cur_dir_str`.
pub fn vp_vs_p(cur_dir_str: &str, para: &ModelPara) -> (paths: (String, String, String))
    ensures
        paths.0@ == cur_dir_str@ + seq!['\\'] + para.vp_grd@,
        paths.1@ == cur_dir_str@ + seq!['\\'] + para.vs_grd@,
        paths.2@ == cur_dir_str@ + seq!['\\'] + para.pp_grd@,
{
    let vp_grd = join_path(cur_dir_str, para.vp_grd.as_str());
    let vs_grd = join_path(cur_dir_str, para.vs_grd.as_str());
    let pp_grd = join_path(cur_dir_str, para.pp_grd.as_str());
    (vp_grd, vs_grd, pp_grd)
}

/// The node counts and node ranges of a simulation grid: the model grid, widened
/// by the absorbing boundary on each side, then by the stencil margin.
pub struct GridLayout {
    /// Half the difference order: the stencil margin on each side.
    pub jl: usize,
    pub nx_pml: usize,
    pub nz_pml: usize,
    pub nz_pml_jl: usize,
    pub nx_pml_jl: usize,
    /// The nodes inside the stencil margin.
    pub z_nodes_pml: std::ops::Range<usize>,
    pub x_nodes_pml: std::ops::Range<usize>,
    /// The nodes of the model itself.
    pub z_nodes: std::ops::Range<usize>,
    pub x_nodes: std::ops::Range<usize>,
    /// The source node.
    pub nsrcx: usize,
    pub nsrcz: usize,
}

/// Every node count and index of the layout fits in a `usize`.
pub open spec fn layout_fits(
    nx: usize,
    nz: usize,
    pml_h: usize,
    diff_order: usize,
    sx: usize,
    sz: usize,
) -> bool {
    let jl = diff_order / 2;
    &&& nx + 2 * pml_h + 2 * jl <= usize::MAX
    &&& nz + 2 * pml_h + 2 * jl <= usize::MAX
    &&& jl + pml_h + sx <= usize::MAX
    &&& jl + pml_h + sz <= usize::MAX
}

/// The layout of a grid of `nx` by `nz` nodes with `pml_h` absorbing nodes on each
/// side, differences of order `diff_order` and the source at node (`sx`, `sz`) of
/// the model; `None` when a count does not fit in a `usize`.
pub fn grid_layout(
    nx: usize,
    nz: usize,
    pml_h: usize,
    diff_order: usize,
    sx: usize,
    sz: usize,
) -> (r: Option<GridLayout>)
    ensures
        !layout_fits(nx, nz, pml_h, diff_order, sx, sz) ==> r is None,
        layout_fits(nx, nz, pml_h, diff_order, sx, sz) ==> (r matches Some(g) && {
            let jl = diff_order / 2;
            &&& g.jl == jl
            &&& g.nx_pml == nx + 2 * pml_h
            &&& g.nz_pml == nz + 2 * pml_h
            &&& g.nz_pml_jl == nz + 2 * pml_h + 2 * jl
            &&& g.nx_pml_jl == nx + 2 * pml_h + 2 * jl
            &&& g.z_nodes_pml.start == jl && g.z_nodes_pml.end == nz + 2 * pml_h + jl
            &&& g.x_nodes_pml.start == jl && g.x_nodes_pml.end == nx + 2 * pml_h + jl
            &&& g.z_nodes.start == jl + pml_h && g.z_nodes.end == jl + pml_h + nz
            &&& g.x_nodes.start == jl + pml_h && g.x_nodes.end == jl + pml_h + nx
            &&& g.nsrcx == jl + pml_h + sx
            &&& g.nsrcz == jl + pml_h + sz
        }),
{
    let jl = diff_order / 2;
    let m = usize::MAX;
    if pml_h > m / 2 || jl > m / 2 {
        return None;
    }
    let pml2 = 2 * pml_h;
    let jl2 = 2 * jl;
    if nx > m - pml2 || nx + pml2 > m - jl2 || nz > m - pml2 || nz + pml2 > m - jl2 {
        return None;
    }
    if jl + pml_h > m - sx || jl + pml_h > m - sz {
        return None;
    }
    let nx_pml = nx + pml2;
    let nz_pml = nz + pml2;
    let nz_pml_jl = nz_pml + jl2;
    let nx_pml_jl = nx_pml + jl2;
    Some(
        GridLayout {
            jl,
            nx_pml,
            nz_pml,
            nz_pml_jl,
            nx_pml_jl,
            z_nodes_pml: jl..(nz_pml_jl - jl),
            x_nodes_pml: jl..(nx_pml_jl - jl),
            z_nodes: (jl + pml_h)..(jl + pml_h + nz),
            x_nodes: (jl + pml_h)..(jl + pml_h + nx),
            nsrcx: jl + pml_h + sx,
            nsrcz: jl + pml_h + sz,
        },
    )
}

} // verus!
