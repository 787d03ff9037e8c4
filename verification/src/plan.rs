//! The integer and naming part of a dataset's configuration: how many
//! points, dimensions, clusters and neighbours, the seed, and the file the
//! dataset is written to.

use vstd::prelude::*;

verus! {

/// Points in the training split.
pub const N_TRAIN: usize = 70000;

/// Query points in the test split.
pub const N_TEST: usize = 10000;

/// Dimension of every point.
pub const DIM: usize = 768;

/// Neighbours recorded per query.
pub const GT_K: usize = 100;

/// The file extension every output path carries.
pub open spec fn hdf5_suffix() -> Seq<char> {
    seq!['.', 'h', 'd', 'f', '5']
}

pub open spec fn ends_with_hdf5(s: Seq<char>) -> bool {
    s.len() >= 5 && s.subrange(s.len() - 5, s.len() as int) == hdf5_suffix()
}

/// The output path for a requested name: the name itself when it already
/// ends in `.hdf5`, otherwise the name with `.hdf5` appended.
pub open spec fn output_path(name: Seq<char>) -> Seq<char> {
    if ends_with_hdf5(name) {
        name
    } else {
        name + hdf5_suffix()
    }
}

/// The output path for a requested name (see `output_path`).
pub fn output_file_name(output: &str) -> (path: String)
    ensures
        path@ == output_path(output@),
        path@.subrange(0, output@.len() as int) == output@,
        path@.len() == output@.len() + if ends_with_hdf5(output@) { 0int } else { 5int },
        ends_with_hdf5(path@),
{
    proof {
        lemma_output_path_keeps_name(output@);
    }
    let n = output.unicode_len();
    let ends = n >= 5 && output.get_char(n - 5) == '.' && output.get_char(n - 4) == 'h'
        && output.get_char(n - 3) == 'd' && output.get_char(n - 2) == 'f' && output.get_char(n - 1)
        == '5';
    proof {
        if n >= 5 {
            let tail = output@.subrange(n - 5, n as int);
            if ends {
                assert(tail =~= hdf5_suffix());
            } else {
                assert(tail[0] != '.' || tail[1] != 'h' || tail[2] != 'd' || tail[3] != 'f' || tail[4]
                    != '5');
                assert(tail != hdf5_suffix());
            }
        }
    }
    let mut path = output.to_owned();
    if !ends {
        let suffix = ".hdf5";
        proof {
            reveal_strlit(".hdf5");
            assert(suffix@ =~= hdf5_suffix());
        }
        path.append(suffix);
    }
    path
}

/// Sizes, seed and output path of one dataset.
#[derive(Debug)]
pub struct DatasetPlan {
    pub n_train: usize,
    pub n_test: usize,
    pub dim: usize,
    pub n_clusters: usize,
    pub n_superclusters: usize,
    pub gt_k: usize,
    pub seed: u64,
    pub output: String,
}

impl DatasetPlan {
    /// A plan with the fixed split sizes, dimension and neighbour count, the
    /// given cluster counts and seed, and the output path for `output`.
    pub fn new(n_clusters: usize, n_superclusters: usize, seed: u64, output: &String) -> (plan: Self)
        ensures
            plan.n_train == N_TRAIN,
            plan.n_test == N_TEST,
            plan.dim == DIM,
            plan.gt_k == GT_K,
            plan.n_clusters == n_clusters,
            plan.n_superclusters == n_superclusters,
            plan.seed == seed,
            plan.output@ == output_path(output@),
            plan.output@.subrange(0, output@.len() as int) == output@,
            plan.output@.len() == output@.len() + if ends_with_hdf5(output@) { 0int } else { 5int },
            ends_with_hdf5(plan.output@),
    {
        DatasetPlan {
            n_train: N_TRAIN,
            n_test: N_TEST,
            dim: DIM,
            n_clusters,
            n_superclusters,
            gt_k: GT_K,
            seed,
            output: output_file_name(output.as_str()),
        }
    }
}

impl Default for DatasetPlan {
    /// 256 clusters under 24 superclusters, seed 42, written to
    /// `skewed-70000-euclidean.hdf5`.
    fn default() -> (plan: Self)
        ensures
            plan.n_train == N_TRAIN,
            plan.n_test == N_TEST,
            plan.dim == DIM,
            plan.gt_k == GT_K,
            plan.n_clusters == 256,
            plan.n_superclusters == 24,
            plan.seed == 42,
            plan.output@ == "skewed-70000-euclidean.hdf5"@,
    {
        DatasetPlan {
            n_train: N_TRAIN,
            n_test: N_TEST,
            dim: DIM,
            n_clusters: 256,
            n_superclusters: 24,
            gt_k: GT_K,
            seed: 42,
            output: "skewed-70000-euclidean.hdf5".to_owned(),
        }
    }
}


/// Every output path ends in `.hdf5`, and normalising a path that is
/// already an output path leaves it unchanged.
pub proof fn lemma_output_path_idempotent(name: Seq<char>)
    ensures
        ends_with_hdf5(output_path(name)),
        output_path(output_path(name)) == output_path(name),
{
    if !ends_with_hdf5(name) {
        let p = name + hdf5_suffix();
        assert(p.subrange(p.len() - 5, p.len() as int) =~= hdf5_suffix());
    }
}


/// The requested name is kept whole at the front of the output path, and at
/// most the five characters of `.hdf5` follow it: none when the name already
/// ends in `.hdf5`, exactly `.hdf5` otherwise.
pub proof fn lemma_output_path_keeps_name(name: Seq<char>)
    ensures
        output_path(name).subrange(0, name.len() as int) == name,
        ends_with_hdf5(name) ==> output_path(name).len() == name.len(),
        !ends_with_hdf5(name) ==> output_path(name).len() == name.len() + 5
            && output_path(name).subrange(name.len() as int, name.len() + 5int) == seq![
            '.',
            'h',
            'd',
            'f',
            '5',
        ],
        ends_with_hdf5(output_path(name)),
{
    lemma_output_path_idempotent(name);
    let p = output_path(name);
    if ends_with_hdf5(name) {
        assert(p.subrange(0, name.len() as int) =~= name);
    } else {
        assert(p.subrange(0, name.len() as int) =~= name);
        assert(p.subrange(name.len() as int, name.len() + 5int) =~= seq!['.', 'h', 'd', 'f', '5']);
    }
}

} // verus!
