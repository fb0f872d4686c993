//! The generator of clustered instances.
//!
//! Departments of one cluster resemble each other. For the lengths, each
//! cluster draws a centroid uniformly from the range of lengths, and each of
//! its departments a length from the normal distribution round that
//! centroid. The flows come from positions drawn in the same way (see
//! `flows`).
//!
//! The uniform draws come from `rand`. The normal draws need floating
//! point, which this crate does not hold: the caller hands in the function
//! that makes them. It takes the generator to draw from, the mean and the
//! standard deviation, and gives the draw, rounded to an integer. Nothing
//! is asked of what it returns.

use vstd::prelude::*;
use rand_chacha::ChaCha20Rng;
use crate::clusters::{
    first_of,
    total,
    even_partition,
    cluster_sizes,
    lemma_clusters_in_order,
    lemma_partition_is_even,
};
use crate::flows::{
    Positions,
    is_block,
    is_flow_matrix,
    fill_block,
    lemma_filled_block,
    lemma_kept_block,
    lemma_flow_matrix_is_valid,
    lemma_single_cluster,
    gap,
};
use crate::instance::{SrflpInstance, rows_of, is_square, is_symmetric, has_zero_diagonal};
use crate::sampling::{
    keyed_rng,
    rng_from_key,
    uniform_usize,
    uniform_isize,
    clock_now,
    since_epoch,
    whole_millis,
};
use crate::seed::{seed_bytes, expand_seed};

verus! {

/// What an instance is generated from.
#[derive(Debug, Clone)]
pub struct SrflpGenerator {
    /// The seed of the random source; without one, the clock gives it.
    pub seed: Option<u128>,
    /// The number of departments.
    pub nb_departments: usize,
    /// The number of clusters of similar departments.
    pub nb_clusters: usize,
    /// The least centroid of the lengths of a cluster.
    pub min_length: usize,
    /// The greatest centroid of the lengths of a cluster.
    pub max_length: usize,
    /// The standard deviation of the lengths in a cluster.
    pub length_std_dev: usize,
    /// The least centroid of the positions of a cluster.
    pub min_flow_position: isize,
    /// The greatest centroid of the positions of a cluster.
    pub max_flow_position: isize,
    /// The standard deviation of the positions in a cluster.
    pub flow_position_std_dev: isize,
    /// Where the instance is to be written; nowhere means standard output.
    pub output: Option<String>,
}

/// Why no instance is generated.
#[derive(Debug, Clone, Copy, PartialEq, Eq)]
pub enum GenerateError {
    /// There is no cluster to deal the departments to.
    NoCluster,
    /// The range of lengths cannot be moved up to the standard deviation:
    /// its upper end would pass the largest `usize`.
    LengthRange,
    /// The least length is greater than the greatest.
    EmptyLengthRange,
    /// The least position is greater than the greatest.
    EmptyPositionRange,
    /// The standard deviation of the positions is negative.
    NegativeDeviation,
    /// No seed was given and the clock stands before 1970.
    Clock,
}

/// `value` is something that `normal` may return for this mean and
/// deviation.
pub open spec fn drawn_by<N: Fn(&mut ChaCha20Rng, i128, i128) -> isize>(
    normal: &N,
    mean: i128,
    deviation: i128,
    value: isize,
) -> bool {
    exists|rng: &mut ChaCha20Rng| call_ensures(normal, (rng, mean, deviation), value)
}

/// Each of `values` is a draw from the normal distribution round
/// `centroid`.
pub open spec fn all_drawn<N: Fn(&mut ChaCha20Rng, i128, i128) -> isize>(
    normal: &N,
    centroid: i128,
    deviation: i128,
    values: Seq<isize>,
) -> bool {
    forall|k: int|
        0 <= k < values.len() ==> drawn_by(normal, centroid, deviation, #[trigger] values[k])
}

/// `values` are the draws of one cluster: round one centroid, which lies
/// between `low` and `high`.
pub open spec fn cluster_drawn<N: Fn(&mut ChaCha20Rng, i128, i128) -> isize>(
    normal: &N,
    low: i128,
    high: i128,
    deviation: i128,
    values: Seq<isize>,
) -> bool {
    exists|centroid: i128|
        low <= centroid <= high && #[trigger] all_drawn(normal, centroid, deviation, values)
}

/// `normal` can be called with any mean and any deviation that is not
/// negative.
pub open spec fn accepts<N: Fn(&mut ChaCha20Rng, i128, i128) -> isize>(normal: &N) -> bool {
    forall|rng: &mut ChaCha20Rng, mean: i128, deviation: i128|
        deviation >= 0 ==> call_requires(normal, (rng, mean, deviation))
}

/// The values of cluster `a` among `values`, which hold one value for each
/// department.
pub open spec fn part(values: Seq<isize>, sizes: Seq<usize>, a: int) -> Seq<isize> {
    values.subrange(first_of(sizes, a), first_of(sizes, a) + sizes[a])
}

/// Reads the clock: the milliseconds since the beginning of 1970, if the
/// clock stands after it.
fn clock_millis() -> Option<u128> {
    let now = clock_now();
    match since_epoch(&now) {
        Some(span) => Some(whole_millis(&span)),
        None => None,
    }
}

/// Draws `count` values from the normal distribution round `centroid`.
fn draw_cluster<N: Fn(&mut ChaCha20Rng, i128, i128) -> isize>(
    rng: &mut ChaCha20Rng,
    normal: &N,
    centroid: i128,
    deviation: i128,
    count: usize,
) -> (values: Vec<isize>)
    requires
        deviation >= 0,
        accepts(normal),
    ensures
        values@.len() == count,
        all_drawn(normal, centroid, deviation, values@),
{
    let mut values: Vec<isize> = Vec::new();
    let mut k: usize = 0;
    while k < count
        invariant
            k <= count,
            deviation >= 0,
            accepts(normal),
            values@.len() == k,
            all_drawn(normal, centroid, deviation, values@),
        decreases count - k,
    {
        let value = normal(rng, centroid, deviation);
        assert(drawn_by(normal, centroid, deviation, value));
        values.push(value);
        k += 1;
    }
    values
}

/// The first department of each cluster.
fn cluster_starts(nb_departments_per_cluster: &Vec<usize>) -> (starts: Vec<usize>)
    requires
        total(nb_departments_per_cluster@) <= usize::MAX,
    ensures
        starts@.len() == nb_departments_per_cluster@.len(),
        forall|a: int|
            0 <= a < starts@.len() ==> #[trigger] starts@[a] == first_of(
                nb_departments_per_cluster@,
                a,
            ),
{
    let ghost sizes = nb_departments_per_cluster@;
    let mut starts: Vec<usize> = Vec::new();
    let mut first: usize = 0;
    let mut a: usize = 0;
    while a < nb_departments_per_cluster.len()
        invariant
            a <= sizes.len(),
            sizes == nb_departments_per_cluster@,
            total(sizes) <= usize::MAX,
            first == first_of(sizes, a as int),
            starts@.len() == a,
            forall|k: int| 0 <= k < a ==> #[trigger] starts@[k] == first_of(sizes, k),
        decreases sizes.len() - a,
    {
        proof {
            lemma_clusters_in_order(sizes, a as int, sizes.len() as int);
        }
        starts.push(first);
        first = first + nb_departments_per_cluster[a];
        a += 1;
    }
    starts
}

/// A matrix of `n` rows of `n` zeros.
fn zero_matrix(n: usize) -> (matrix: Vec<Vec<isize>>)
    ensures
        is_square(rows_of(matrix@), n as nat),
{
    let mut matrix: Vec<Vec<isize>> = Vec::new();
    let mut i: usize = 0;
    while i < n
        invariant
            i <= n,
            matrix@.len() == i,
            forall|k: int| 0 <= k < i ==> (#[trigger] matrix@[k])@.len() == n,
        decreases n - i,
    {
        matrix.push(vec![0isize; n]);
        i += 1;
    }
    matrix
}

impl SrflpGenerator {
    /// How far the range of lengths moves up, so that it begins no lower
    /// than the standard deviation of the lengths.
    pub open spec fn shift(&self) -> int {
        if self.min_length < self.length_std_dev {
            self.length_std_dev - self.min_length
        } else {
            0
        }
    }

    /// The first thing that is wrong with these parameters, if anything is.
    pub open spec fn refusal(&self) -> Option<GenerateError> {
        if self.nb_clusters == 0 {
            Some(GenerateError::NoCluster)
        } else if self.max_length + self.shift() > usize::MAX {
            Some(GenerateError::LengthRange)
        } else if self.min_length > self.max_length {
            Some(GenerateError::EmptyLengthRange)
        } else if self.min_flow_position > self.max_flow_position {
            Some(GenerateError::EmptyPositionRange)
        } else if self.flow_position_std_dev < 0 {
            Some(GenerateError::NegativeDeviation)
        } else {
            None
        }
    }

    /// These parameters, with the range of lengths moved up.
    pub open spec fn adjusted(&self) -> SrflpGenerator {
        SrflpGenerator {
            min_length: (self.min_length + self.shift()) as usize,
            max_length: (self.max_length + self.shift()) as usize,
            ..*self
        }
    }

    /// `lengths` holds, cluster by cluster, draws round one centroid from
    /// the range of lengths.
    pub open spec fn lengths_drawn<N: Fn(&mut ChaCha20Rng, i128, i128) -> isize>(
        &self,
        normal: &N,
        sizes: Seq<usize>,
        lengths: Seq<isize>,
    ) -> bool {
        &&& lengths.len() == total(sizes)
        &&& forall|a: int|
            0 <= a < sizes.len() ==> cluster_drawn(
                normal,
                self.min_length as i128,
                self.max_length as i128,
                self.length_std_dev as i128,
                #[trigger] part(lengths, sizes, a),
            )
    }

    /// Each group of `positions` holds draws round one centroid from the
    /// range of positions.
    pub open spec fn positions_drawn<N: Fn(&mut ChaCha20Rng, i128, i128) -> isize>(
        &self,
        normal: &N,
        sizes: Seq<usize>,
        positions: Positions,
    ) -> bool {
        &&& forall|a: int|
            0 <= a < sizes.len() ==> cluster_drawn(
                normal,
                self.min_flow_position as i128,
                self.max_flow_position as i128,
                self.flow_position_std_dev as i128,
                #[trigger] positions.own[a],
            )
        &&& forall|a: int, b: int|
            0 <= a < b < sizes.len() ==> cluster_drawn(
                normal,
                self.min_flow_position as i128,
                self.max_flow_position as i128,
                self.flow_position_std_dev as i128,
                #[trigger] positions.facing[a][b],
            )
    }

    /// `matrix` is the flow matrix of positions that were drawn cluster by
    /// cluster.
    pub open spec fn flows_drawn<N: Fn(&mut ChaCha20Rng, i128, i128) -> isize>(
        &self,
        normal: &N,
        sizes: Seq<usize>,
        matrix: Seq<Seq<isize>>,
    ) -> bool {
        exists|positions: Positions|
            {
                &&& positions.fits(sizes)
                &&& self.positions_drawn(normal, sizes, positions)
                &&& #[trigger] is_flow_matrix(matrix, sizes, positions)
            }
    }

    /// `instance` is what these parameters generate: as many departments
    /// as asked for, dealt evenly to the clusters, with lengths and flows
    /// drawn cluster by cluster.
    pub open spec fn has_generated<N: Fn(&mut ChaCha20Rng, i128, i128) -> isize>(
        &self,
        normal: &N,
        instance: SrflpInstance,
    ) -> bool {
        let sizes = even_partition(self.nb_departments, self.nb_clusters);
        &&& instance.nb_departments == self.nb_departments
        &&& self.lengths_drawn(normal, sizes, instance.lengths@)
        &&& self.flows_drawn(normal, sizes, rows_of(instance.flows@))
    }

    /// Says what is wrong with the parameters, if anything is.
    pub fn validate(&self) -> (r: Result<(), GenerateError>)
        ensures
            match r {
                Ok(_) => self.refusal() is None,
                Err(e) => self.refusal() == Some(e),
            },
    {
        if self.nb_clusters == 0 {
            return Err(GenerateError::NoCluster);
        }
        if self.min_length < self.length_std_dev && self.length_std_dev - self.min_length
            > usize::MAX - self.max_length {
            return Err(GenerateError::LengthRange);
        }
        if self.min_length > self.max_length {
            return Err(GenerateError::EmptyLengthRange);
        }
        if self.min_flow_position > self.max_flow_position {
            return Err(GenerateError::EmptyPositionRange);
        }
        if self.flow_position_std_dev < 0 {
            return Err(GenerateError::NegativeDeviation);
        }
        Ok(())
    }

    /// The random source: keyed by the seed, or by the clock where there is
    /// no seed.
    pub fn rng(&self) -> (r: Result<ChaCha20Rng, GenerateError>)
        ensures
            self.seed matches Some(seed) ==> r == Ok::<ChaCha20Rng, GenerateError>(
                keyed_rng(seed_bytes(seed)),
            ),
            match r {
                Ok(rng) => exists|seed: u128| rng == keyed_rng(seed_bytes(seed)),
                Err(e) => e == GenerateError::Clock && self.seed is None,
            },
    {
        let seed = match self.seed {
            Some(seed) => seed,
            None => match clock_millis() {
                Some(millis) => millis,
                None => {
                    return Err(GenerateError::Clock);
                },
            },
        };
        let rng = rng_from_key(expand_seed(seed));
        Ok(rng)
    }

    /// Draws the lengths: for each cluster a centroid, then a length for
    /// each of its departments.
    fn generate_lengths<N: Fn(&mut ChaCha20Rng, i128, i128) -> isize>(
        &self,
        rng: &mut ChaCha20Rng,
        normal: &N,
        nb_departments_per_cluster: &Vec<usize>,
    ) -> (lengths: Vec<isize>)
        requires
            self.min_length <= self.max_length,
            nb_departments_per_cluster@.len() == self.nb_clusters,
            accepts(normal),
        ensures
            self.lengths_drawn(normal, nb_departments_per_cluster@, lengths@),
    {
        let ghost sizes = nb_departments_per_cluster@;
        let mut lengths: Vec<isize> = Vec::new();
        let mut i: usize = 0;
        while i < self.nb_clusters
            invariant
                i <= self.nb_clusters,
                self.min_length <= self.max_length,
                sizes == nb_departments_per_cluster@,
                sizes.len() == self.nb_clusters,
                accepts(normal),
                lengths@.len() == first_of(sizes, i as int),
                forall|a: int|
                    0 <= a < i ==> cluster_drawn(
                        normal,
                        self.min_length as i128,
                        self.max_length as i128,
                        self.length_std_dev as i128,
                        #[trigger] part(lengths@, sizes, a),
                    ),
            decreases self.nb_clusters - i,
        {
            let centroid = uniform_usize(rng, self.min_length, self.max_length);
            let mut drawn = draw_cluster(
                rng,
                normal,
                centroid as i128,
                self.length_std_dev as i128,
                nb_departments_per_cluster[i],
            );
            let ghost before = lengths@;
            let ghost values = drawn@;
            lengths.append(&mut drawn);
            proof {
                assert(first_of(sizes, i + 1) == first_of(sizes, i as int) + sizes[i as int]);
                assert forall|a: int| 0 <= a < i + 1 implies cluster_drawn(
                    normal,
                    self.min_length as i128,
                    self.max_length as i128,
                    self.length_std_dev as i128,
                    #[trigger] part(lengths@, sizes, a),
                ) by {
                    if a < i {
                        lemma_clusters_in_order(sizes, a, i as int);
                        assert(part(lengths@, sizes, a) =~= part(before, sizes, a));
                    } else {
                        assert(part(lengths@, sizes, a) =~= values);
                        assert(all_drawn(
                            normal,
                            centroid as i128,
                            self.length_std_dev as i128,
                            values,
                        ));
                    }
                }
            }
            i += 1;
        }
        lengths
    }

    /// Draws the positions and fills the flow matrix. Cluster by cluster:
    /// the positions of the cluster's own departments, the flows among
    /// them, and then, for each later cluster, positions for that cluster's
    /// departments and the flows between the two.
    fn generate_flows<N: Fn(&mut ChaCha20Rng, i128, i128) -> isize>(
        &self,
        rng: &mut ChaCha20Rng,
        normal: &N,
        nb_departments_per_cluster: &Vec<usize>,
    ) -> (flows: Vec<Vec<isize>>)
        requires
            self.min_flow_position <= self.max_flow_position,
            self.flow_position_std_dev >= 0,
            nb_departments_per_cluster@.len() == self.nb_clusters,
            total(nb_departments_per_cluster@) == self.nb_departments,
            accepts(normal),
        ensures
            self.flows_drawn(normal, nb_departments_per_cluster@, rows_of(flows@)),
    {
        let ghost sizes = nb_departments_per_cluster@;
        let low = self.min_flow_position;
        let high = self.max_flow_position;
        let deviation = self.flow_position_std_dev;
        let starts = cluster_starts(nb_departments_per_cluster);
        let mut flows = zero_matrix(self.nb_departments);
        let ghost mut own: Seq<Seq<isize>> = Seq::empty();
        let ghost mut facing: Seq<Seq<Seq<isize>>> = Seq::empty();
        let mut a: usize = 0;
        while a < self.nb_clusters
            invariant
                a <= self.nb_clusters,
                low == self.min_flow_position,
                high == self.max_flow_position,
                deviation == self.flow_position_std_dev,
                low <= high,
                deviation >= 0,
                accepts(normal),
                sizes == nb_departments_per_cluster@,
                sizes.len() == self.nb_clusters,
                total(sizes) == self.nb_departments,
                starts@.len() == sizes.len(),
                forall|k: int| 0 <= k < starts@.len() ==> #[trigger] starts@[k] == first_of(sizes, k),
                is_square(rows_of(flows@), self.nb_departments as nat),
                own.len() == a,
                facing.len() == a,
                forall|c: int| 0 <= c < a ==> (#[trigger] own[c]).len() == sizes[c],
                forall|c: int| 0 <= c < a ==> (#[trigger] facing[c]).len() == sizes.len(),
                forall|c: int, d: int|
                    0 <= c < a && c < d < sizes.len() ==> (#[trigger] facing[c][d]).len()
                        == sizes[d],
                forall|c: int|
                    0 <= c < a ==> cluster_drawn(
                        normal,
                        low as i128,
                        high as i128,
                        deviation as i128,
                        #[trigger] own[c],
                    ),
                forall|c: int, d: int|
                    0 <= c < a && c < d < sizes.len() ==> cluster_drawn(
                        normal,
                        low as i128,
                        high as i128,
                        deviation as i128,
                        #[trigger] facing[c][d],
                    ),
                forall|c: int, d: int|
                    0 <= c < a && c <= d < sizes.len() ==> #[trigger] is_block(
                        rows_of(flows@),
                        sizes,
                        c,
                        d,
                        own[c],
                        Positions { own, facing }.across(c, d),
                    ),
            decreases self.nb_clusters - a,
        {
            let centroid_a = uniform_isize(rng, low, high);
            let positions_a = draw_cluster(
                rng,
                normal,
                centroid_a as i128,
                deviation as i128,
                nb_departments_per_cluster[a],
            );
            let ghost rows = positions_a@;
            assert(all_drawn(normal, centroid_a as i128, deviation as i128, rows));
            let ghost mut others: Seq<Seq<isize>> = Seq::new(
                sizes.len(),
                |d: int|
                    if d == a {
                        rows
                    } else {
                        Seq::empty()
                    },
            );
            let mut b: usize = a;
            while b < self.nb_clusters
                invariant
                    a <= b <= self.nb_clusters,
                    a < self.nb_clusters,
                    low == self.min_flow_position,
                    high == self.max_flow_position,
                    deviation == self.flow_position_std_dev,
                    low <= high,
                    deviation >= 0,
                    accepts(normal),
                    sizes == nb_departments_per_cluster@,
                    sizes.len() == self.nb_clusters,
                    total(sizes) == self.nb_departments,
                    starts@.len() == sizes.len(),
                    forall|k: int|
                        0 <= k < starts@.len() ==> #[trigger] starts@[k] == first_of(sizes, k),
                    is_square(rows_of(flows@), self.nb_departments as nat),
                    rows == positions_a@,
                    rows.len() == sizes[a as int],
                    own.len() == a,
                    facing.len() == a,
                    others.len() == sizes.len(),
                    others[a as int] == rows,
                    forall|d: int| a < d < b ==> (#[trigger] others[d]).len() == sizes[d],
                    forall|d: int|
                        a < d < b ==> cluster_drawn(
                            normal,
                            low as i128,
                            high as i128,
                            deviation as i128,
                            #[trigger] others[d],
                        ),
                    forall|c: int, d: int|
                        0 <= c < a && c <= d < sizes.len() ==> #[trigger] is_block(
                            rows_of(flows@),
                            sizes,
                            c,
                            d,
                            own[c],
                            Positions { own, facing }.across(c, d),
                        ),
                    forall|d: int|
                        a <= d < b ==> #[trigger] is_block(
                            rows_of(flows@),
                            sizes,
                            a as int,
                            d,
                            rows,
                            others[d],
                        ),
                decreases self.nb_clusters - b,
            {
                let ghost before = rows_of(flows@);
                let ghost earlier = others;
                let ghost columns;
                proof {
                    lemma_clusters_in_order(sizes, a as int, sizes.len() as int);
                    lemma_clusters_in_order(sizes, b as int, sizes.len() as int);
                }
                if a == b {
                    fill_block(&mut flows, starts[a], &positions_a, starts[a], &positions_a);
                    proof {
                        columns = rows;
                    }
                } else {
                    let centroid_b = uniform_isize(rng, low, high);
                    let positions_b = draw_cluster(
                        rng,
                        normal,
                        centroid_b as i128,
                        deviation as i128,
                        nb_departments_per_cluster[b],
                    );
                    proof {
                        lemma_clusters_in_order(sizes, a as int, b as int);
                        columns = positions_b@;
                        assert(all_drawn(normal, centroid_b as i128, deviation as i128, columns));
                        others = others.update(b as int, columns);
                    }
                    fill_block(&mut flows, starts[a], &positions_a, starts[b], &positions_b);
                }
                proof {
                    let after = rows_of(flows@);
                    lemma_filled_block(before, after, sizes, a as int, b as int, rows, columns);
                    assert forall|c: int, d: int|
                        0 <= c < a && c <= d < sizes.len() implies #[trigger] is_block(
                        after,
                        sizes,
                        c,
                        d,
                        own[c],
                        Positions { own, facing }.across(c, d),
                    ) by {
                        assert(is_block(
                            before,
                            sizes,
                            c,
                            d,
                            own[c],
                            Positions { own, facing }.across(c, d),
                        ));
                        lemma_kept_block(
                            before,
                            after,
                            sizes,
                            a as int,
                            b as int,
                            rows,
                            columns,
                            c,
                            d,
                            own[c],
                            Positions { own, facing }.across(c, d),
                        );
                    }
                    assert forall|d: int| a <= d < b + 1 implies #[trigger] is_block(
                        after,
                        sizes,
                        a as int,
                        d,
                        rows,
                        others[d],
                    ) by {
                        if d < b {
                            let kept = earlier[d];
                            assert(is_block(before, sizes, a as int, d, rows, kept));
                            lemma_kept_block(
                                before,
                                after,
                                sizes,
                                a as int,
                                b as int,
                                rows,
                                columns,
                                a as int,
                                d,
                                rows,
                                kept,
                            );
                        }
                    }
                }
                b += 1;
            }
            proof {
                let ghost old_own = own;
                let ghost old_facing = facing;
                own = own.push(rows);
                facing = facing.push(others);
                assert forall|c: int, d: int|
                    0 <= c < a + 1 && c <= d < sizes.len() implies #[trigger] is_block(
                    rows_of(flows@),
                    sizes,
                    c,
                    d,
                    own[c],
                    Positions { own, facing }.across(c, d),
                ) by {
                    if c < a {
                        assert(is_block(
                            rows_of(flows@),
                            sizes,
                            c,
                            d,
                            old_own[c],
                            Positions { own: old_own, facing: old_facing }.across(c, d),
                        ));
                    } else {
                        assert(is_block(rows_of(flows@), sizes, a as int, d, rows, others[d]));
                    }
                }
            }
            a += 1;
        }
        proof {
            let positions = Positions { own, facing };
            assert(positions.fits(sizes));
            assert(self.positions_drawn(normal, sizes, positions));
            assert(is_flow_matrix(rows_of(flows@), sizes, positions));
        }
        flows
    }

    /// Generates an instance.
    ///
    /// Parameters that cannot be used are refused before anything is
    /// drawn, and leave `self` as it was. More clusters than departments
    /// are accepted: the clusters that get no department still draw their
    /// centroids. Lengths are not kept above zero. Otherwise the range of lengths is
    /// first moved up so that it begins no lower than the standard
    /// deviation of the lengths, and stays so in `self`. With a seed the
    /// generation cannot fail.
    ///
    /// The instance has one length for each department, and its flow matrix
    /// is square and symmetric with a zero diagonal.
    pub fn generate<N: Fn(&mut ChaCha20Rng, i128, i128) -> isize>(&mut self, normal: &N) -> (r:
        Result<SrflpInstance, GenerateError>)
        requires
            accepts(normal),
        ensures
            match r {
                Ok(instance) => {
                    &&& old(self).refusal() is None
                    &&& *final(self) == old(self).adjusted()
                    &&& final(self).has_generated(normal, instance)
                    &&& instance@.nb_departments == old(self).nb_departments
                    &&& instance@.lengths.len() == instance@.nb_departments
                    &&& is_square(instance@.flows, instance@.nb_departments)
                    &&& is_symmetric(instance@.flows)
                    &&& has_zero_diagonal(instance@.flows)
                },
                Err(e) => {
                    &&& *final(self) == *old(self)
                    &&& if e == GenerateError::Clock {
                        old(self).refusal() is None && old(self).seed is None
                    } else {
                        old(self).refusal() == Some(e)
                    }
                },
            },
            old(self).refusal() is None && old(self).seed is Some ==> r is Ok,
    {
        match self.validate() {
            Ok(_) => {},
            Err(e) => {
                return Err(e);
            },
        }
        let mut rng = match self.rng() {
            Ok(rng) => rng,
            Err(e) => {
                return Err(e);
            },
        };
        if self.min_length < self.length_std_dev {
            self.max_length += self.length_std_dev - self.min_length;
            self.min_length = self.length_std_dev;
        }
        assert(*self == old(self).adjusted());
        let nb_departments_per_cluster = cluster_sizes(self.nb_departments, self.nb_clusters);
        let lengths = self.generate_lengths(&mut rng, normal, &nb_departments_per_cluster);
        let flows = self.generate_flows(&mut rng, normal, &nb_departments_per_cluster);
        proof {
            let sizes = nb_departments_per_cluster@;
            let matrix = rows_of(flows@);
            let positions = choose|positions: Positions|
                {
                    &&& positions.fits(sizes)
                    &&& self.positions_drawn(normal, sizes, positions)
                    &&& #[trigger] is_flow_matrix(matrix, sizes, positions)
                };
            lemma_flow_matrix_is_valid(matrix, sizes, positions);
        }
        Ok(SrflpInstance { nb_departments: self.nb_departments, lengths, flows })
    }
}

/// With one cluster only, there are positions, all of them draws round one
/// centroid from the range of positions, such that the flow between any two
/// departments is the distance between their positions.
pub proof fn lemma_one_cluster<N: Fn(&mut ChaCha20Rng, i128, i128) -> isize>(
    generator: SrflpGenerator,
    normal: &N,
    instance: SrflpInstance,
)
    requires
        generator.nb_clusters == 1,
        generator.has_generated(normal, instance),
    ensures
        exists|positions: Seq<isize>|
            {
                &&& positions.len() == instance@.nb_departments
                &&& #[trigger] cluster_drawn(
                    normal,
                    generator.min_flow_position as i128,
                    generator.max_flow_position as i128,
                    generator.flow_position_std_dev as i128,
                    positions,
                )
                &&& forall|i: int, j: int|
                    0 <= i < positions.len() && 0 <= j < positions.len()
                        ==> #[trigger] instance@.flows[i][j] == gap(positions[i], positions[j])
            },
{
    let sizes = even_partition(generator.nb_departments, generator.nb_clusters);
    let matrix = rows_of(instance.flows@);
    lemma_partition_is_even(generator.nb_departments, 1);
    let positions = choose|positions: Positions|
        {
            &&& positions.fits(sizes)
            &&& generator.positions_drawn(normal, sizes, positions)
            &&& #[trigger] is_flow_matrix(matrix, sizes, positions)
        };
    lemma_single_cluster(matrix, sizes, positions);
    let own = positions.own[0];
    assert(first_of(sizes, 1) == first_of(sizes, 0) + sizes[0]);
    assert(own.len() == instance@.nb_departments);
    assert(cluster_drawn(
        normal,
        generator.min_flow_position as i128,
        generator.max_flow_position as i128,
        generator.flow_position_std_dev as i128,
        own,
    ));
}

} // verus!
