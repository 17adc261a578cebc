use rain_radar_values::{cross_product, Range};

#[test]
fn cross_product_0_to_4() {
    let pairs: Vec<(usize, usize)> = cross_product(0usize..5, 0usize..5).collect();
    assert_eq!(
        pairs,
        vec![
            (0, 0),
            (1, 0),
            (2, 0),
            (3, 0),
            (4, 0),
            (0, 1),
            (1, 1),
            (2, 1),
            (3, 1),
            (4, 1),
            (0, 2),
            (1, 2),
            (2, 2),
            (3, 2),
            (4, 2),
            (0, 3),
            (1, 3),
            (2, 3),
            (3, 3),
            (4, 3),
            (0, 4),
            (1, 4),
            (2, 4),
            (3, 4),
            (4, 4),
        ]
    );
}

#[test]
fn cross_product_of_non_square_ranges() {
    let pairs: Vec<(usize, usize)> = cross_product(3usize..6, 10usize..12).collect();
    assert_eq!(pairs, vec![(3, 10), (4, 10), (5, 10), (3, 11), (4, 11), (5, 11)]);
}

#[test]
fn cross_product_count_and_ends() {
    let (a, b) = (7usize, 4usize);
    let pairs: Vec<(usize, usize)> = cross_product(0..a, 0..b).collect();
    assert_eq!(pairs.len(), a * b);
    for (x, pair) in pairs.iter().take(a).enumerate() {
        assert_eq!(*pair, (x, 0));
    }
    assert_eq!(*pairs.last().unwrap(), (a - 1, b - 1));
}

#[test]
fn cross_product_with_an_empty_side() {
    let no_y: Vec<(usize, usize)> = cross_product(0usize..5, 0usize..0).collect();
    assert!(no_y.is_empty());
    let no_x: Vec<(usize, usize)> = cross_product(0usize..0, 0usize..5).collect();
    assert!(no_x.is_empty());
    let reversed: Vec<(usize, usize)> = cross_product(5usize..2, 0usize..3).collect();
    assert!(reversed.is_empty());
}

#[test]
fn cross_product_of_index_lists() {
    let xs: Vec<usize> = vec![9, 2];
    let ys: Vec<usize> = vec![4, 4, 1];
    let pairs: Vec<(usize, usize)> = cross_product(xs, ys).collect();
    assert_eq!(pairs, vec![(9, 4), (2, 4), (9, 4), (2, 4), (9, 1), (2, 1)]);
}

#[test]
fn cross_product_hands_out_pairs_one_at_a_time() {
    let mut pairs = cross_product(0usize..2, 5usize..6);
    assert_eq!(pairs.next(), Some((0, 5)));
    assert_eq!(pairs.next(), Some((1, 5)));
    assert_eq!(pairs.next(), None);
    assert_eq!(pairs.next(), None);
    let rest: Vec<(usize, usize)> = pairs.collect();
    assert!(rest.is_empty());
}

#[test]
fn ranges_as_index_sequences() {
    let r = 3usize..7;
    assert_eq!(Range::count(&r), 4);
    assert_eq!(r.at(2), 5);
    let v: Vec<usize> = vec![8, 1];
    assert_eq!(Range::count(&v), 2);
    assert_eq!(v.at(1), 1);
}
