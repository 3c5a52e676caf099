use imgcpr::Distance;
use imgcpr::Itp;
use imgcpr::fit;
use imgcpr::lloyd_step;
use imgcpr::get_palette_k_means;
use imgcpr::naive_sharding;

fn itp(i: u32, t: u32, p: u32) -> Itp {
    Itp { i, t, p }
}

#[test]
fn itp_distance_is_euclidean() {
    assert_eq!(itp(1, 2, 3).distance2(&itp(4, 6, 3)), 25);
    assert_eq!(itp(7, 7, 7).distance2(&itp(7, 7, 7)), 0);
    assert_eq!(itp(4, 6, 3).distance2(&itp(1, 2, 3)), 25);
}

#[test]
fn sharding_single_shard_is_the_mean() {
    let points = vec![itp(0, 0, 0), itp(2, 4, 6), itp(10, 20, 30)];
    let seeds = naive_sharding(&points, 1);
    assert_eq!(seeds, vec![itp(4, 8, 12)]);
}

#[test]
fn sharding_splits_by_composite_key() {
    // coordinate sums 0, 6 and 3: sorted shards are {a, c} and {b}
    let points = vec![itp(0, 0, 0), itp(6, 0, 0), itp(3, 0, 0)];
    let seeds = naive_sharding(&points, 2);
    assert_eq!(seeds, vec![itp(1, 0, 0), itp(6, 0, 0)]);
}

#[test]
fn sharding_returns_exactly_k_seeds() {
    let points = vec![itp(1, 1, 1), itp(5, 5, 5), itp(9, 9, 9), itp(2, 2, 2), itp(7, 7, 7)];
    for k in 1..=5 {
        let seeds = naive_sharding(&points, k);
        assert_eq!(seeds.len(), k);
    }
}

#[test]
fn sharding_chunks_by_shard_size_with_last_shorter() {
    // 10 points over 4 shards: chunks of ceil(10 / 4) = 3 and a final
    // shard of one point
    let points: Vec<Itp> = (0..10u32).map(|v| itp(v, 0, 0)).collect();
    let seeds = naive_sharding(&points, 4);
    assert_eq!(seeds, vec![itp(1, 0, 0), itp(4, 0, 0), itp(7, 0, 0), itp(9, 0, 0)]);
}

#[test]
fn sharding_heavy_remainder_falls_back_to_balanced_shards() {
    // chunks of ceil(17 / 16) = 2 would leave seven shards empty, so
    // the split balances instead: the first shard holds two points and
    // is averaged, the rest hold one each
    let points: Vec<Itp> = (0..17u32).map(|v| itp(v * 3, 0, 0)).collect();
    let seeds = naive_sharding(&points, 16);
    assert_eq!(seeds.len(), 16);
    assert_eq!(seeds[0], itp(1, 0, 0));
    assert_eq!(seeds[1], itp(6, 0, 0));
    assert_eq!(seeds[15], itp(48, 0, 0));
}

#[test]
fn single_cluster_converges_in_one_iteration() {
    // with one centroid no reassignment is possible: one Lloyd step
    // lands on the mean of all points and the next step does not move
    let points = vec![itp(0, 0, 0), itp(2, 4, 6), itp(10, 20, 30), itp(8, 0, 4)];
    let seeds = naive_sharding(&points, 1);
    let (after_one, first_change) = lloyd_step(&points, &seeds);
    assert_eq!(after_one, vec![itp(5, 6, 10)]);
    // the seed was already the shard mean, so the displacement after
    // the first iteration is the distance from that seed
    assert_eq!(first_change, seeds[0].distance2(&after_one[0]));
    let (after_two, change) = lloyd_step(&points, &after_one);
    assert_eq!(after_two, after_one);
    assert_eq!(change, 0);
}

#[test]
fn fit_with_one_cluster_returns_the_exact_mean() {
    let points = vec![itp(1, 2, 3), itp(3, 6, 9), itp(5, 10, 15), itp(100, 2, 33)];
    let r = fit(&points, 1, 0, 250);
    // floor mean of (109, 20, 60) over four points
    assert_eq!(r, vec![itp(27, 5, 15)]);
}

#[test]
fn fit_returns_k_centroids() {
    let points: Vec<Itp> = (0..20u32).map(|v| itp(v * 50, v, 0)).collect();
    let r = fit(&points, 16, 0, 250);
    assert_eq!(r.len(), 16);
}

#[test]
fn k_means_palette_has_one_cluster_per_point_up_to_sixteen() {
    assert!(get_palette_k_means(&Vec::new()).is_empty());
    let few = vec![itp(0, 0, 0), itp(100, 100, 100), itp(50, 0, 50)];
    assert_eq!(get_palette_k_means(&few).len(), 3);
    let many: Vec<Itp> = (0..40u32).map(|v| itp(v * 40, 0, v)).collect();
    assert_eq!(get_palette_k_means(&many).len(), 16);
}

#[test]
fn max_change_sequence_is_weakly_decreasing_here() {
    // two clear groups: repeated Lloyd steps settle without ever
    // increasing the largest centroid displacement
    let points = vec![
        itp(0, 0, 0),
        itp(4, 2, 0),
        itp(2, 0, 2),
        itp(1000, 990, 1000),
        itp(996, 1000, 998),
        itp(1004, 1010, 1002),
    ];
    // seeds far from both groups force real movement first
    let mut centroids = vec![itp(500, 500, 500), itp(501, 501, 501)];
    let mut last_change = u128::MAX;
    for _ in 0..250 {
        let (next, change) = lloyd_step(&points, &centroids);
        assert!(change <= last_change);
        last_change = change;
        centroids = next;
        if change == 0 {
            break;
        }
    }
    assert_eq!(last_change, 0);
}

#[test]
fn empty_cluster_keeps_its_previous_centroid() {
    // both points are nearest the first centroid; the second, far away,
    // receives nothing and stays put
    let points = vec![itp(0, 0, 0), itp(2, 0, 0)];
    let centroids = vec![itp(1, 0, 0), itp(5000, 5000, 5000)];
    let (next, _) = lloyd_step(&points, &centroids);
    assert_eq!(next, vec![itp(1, 0, 0), itp(5000, 5000, 5000)]);
}
