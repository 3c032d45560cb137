use roaring::bitmap::Bitmap;

fn listing(bm: &Bitmap) -> Vec<u16> {
    let mut out = Vec::new();
    let mut it = bm.iter();
    while let Some(x) = it.next() {
        out.push(x);
    }
    out
}

#[test]
fn bitmap_new_has_four_empty_buckets() {
    let bm = Bitmap::new();
    assert_eq!(4, bm.num_buckets());
    assert_eq!(0, bm.cardinality());
    assert_eq!(0, bm.count());
    assert!(!bm.get(0));
    assert!(!bm.get(255));
}

#[test]
fn bitmap_with_capacity_zero_grows_on_set() {
    let mut bm = Bitmap::with_capacity(0);
    assert_eq!(0, bm.num_buckets());
    assert!(!bm.get(0));
    bm.set(0);
    assert_eq!(1, bm.num_buckets());
    assert!(bm.get(0));
    bm.set(65535);
    assert_eq!(1024, bm.num_buckets());
    assert!(bm.get(65535));
    assert!(!bm.get(65534));
    assert_eq!(2, bm.cardinality());
}

#[test]
fn bitmap_set_grows_up_to_and_including_the_bucket() {
    let mut bm = Bitmap::with_capacity(1);
    bm.set(63);
    assert_eq!(1, bm.num_buckets());
    bm.set(64);
    assert_eq!(2, bm.num_buckets());
    bm.set(640);
    assert_eq!(11, bm.num_buckets());
    assert_eq!(vec![63, 64, 640], listing(&bm));
}

#[test]
fn bitmap_get_and_unset_beyond_the_last_bucket() {
    let mut bm = Bitmap::with_capacity(2);
    bm.set(5);
    assert!(!bm.get(128));
    assert!(!bm.get(65535));
    assert_eq!(2, bm.num_buckets());
    bm.unset(128);
    bm.unset(65535);
    assert_eq!(2, bm.num_buckets());
    assert_eq!(1, bm.cardinality());
    assert!(bm.get(5));
}

#[test]
fn bitmap_set_twice_counts_once() {
    let mut once = Bitmap::new();
    once.set(77);
    let mut twice = Bitmap::new();
    twice.set(77);
    twice.set(77);
    assert_eq!(once.cardinality(), twice.cardinality());
    assert_eq!(1, twice.cardinality());
    twice.unset(77);
    twice.unset(77);
    assert_eq!(0, twice.cardinality());
    assert!(!twice.get(77));
}

#[test]
fn bitmap_count_is_the_population_of_the_buckets() {
    let mut bm = Bitmap::with_capacity(3);
    for n in 64..128u16 {
        bm.set(n);
    }
    bm.set(0);
    bm.set(191);
    assert_eq!(66, bm.count());
    assert_eq!(66, bm.cardinality());
    bm.unset(100);
    assert_eq!(65, bm.count());
    assert_eq!(65, bm.cardinality());
}

#[test]
fn bitmap_from_unordered_with_duplicates() {
    let bm = Bitmap::from(&[300, 2, 70, 2, 300]);
    assert_eq!(3, bm.cardinality());
    assert_eq!(5, bm.num_buckets());
    assert_eq!(vec![2, 70, 300], listing(&bm));
    let empty = Bitmap::from(&[]);
    assert_eq!(4, empty.num_buckets());
    assert_eq!(0, empty.cardinality());
}

#[test]
fn bitmap_union_is_as_long_as_the_longer_operand() {
    let short = Bitmap::from(&[1, 200]);
    let long = Bitmap::from(&[1, 2, 1000]);
    assert_eq!(4, short.num_buckets());
    assert_eq!(16, long.num_buckets());
    let u1 = short.union(&long);
    let u2 = long.union(&short);
    assert_eq!(16, u1.num_buckets());
    assert_eq!(16, u2.num_buckets());
    assert_eq!(vec![1, 2, 200, 1000], listing(&u1));
    assert_eq!(vec![1, 2, 200, 1000], listing(&u2));
    assert_eq!(4, u1.cardinality());
}

#[test]
fn bitmap_intersection_is_as_long_as_the_shorter_operand() {
    let short = Bitmap::from(&[1, 200]);
    let long = Bitmap::from(&[1, 200, 1000]);
    let i1 = short.intersection(&long);
    let i2 = long.intersection(&short);
    assert_eq!(4, i1.num_buckets());
    assert_eq!(4, i2.num_buckets());
    assert_eq!(vec![1, 200], listing(&i1));
    assert_eq!(vec![1, 200], listing(&i2));
    assert!(!i1.get(1000));
}

#[test]
fn bitmap_difference_keeps_the_left_length_and_its_far_buckets() {
    let left = Bitmap::from(&[1, 200, 1000]);
    let right = Bitmap::from(&[1, 3]);
    let d = left.difference(&right);
    assert_eq!(16, d.num_buckets());
    assert_eq!(vec![200, 1000], listing(&d));
    assert_eq!(2, d.cardinality());
    let e = right.difference(&left);
    assert_eq!(4, e.num_buckets());
    assert_eq!(vec![3], listing(&e));
}

#[test]
fn bitmap_union_and_intersection_add_up() {
    let a = Bitmap::from(&[2, 3, 5, 7, 500]);
    let b = Bitmap::from(&[1, 3, 5, 9]);
    let u = a.union(&b);
    let i = a.intersection(&b);
    assert_eq!(7, u.cardinality());
    assert_eq!(2, i.cardinality());
    assert_eq!(
        a.cardinality() + b.cardinality(),
        u.cardinality() + i.cardinality()
    );
}

#[test]
fn bitmap_union_and_intersection_commute_and_associate() {
    let a = Bitmap::from(&[1, 2, 3, 900]);
    let b = Bitmap::from(&[3, 4]);
    let c = Bitmap::from(&[2, 4, 6, 300]);
    assert_eq!(listing(&a.union(&b)), listing(&b.union(&a)));
    assert_eq!(listing(&a.intersection(&b)), listing(&b.intersection(&a)));
    let left = a.union(&b).union(&c);
    let right = a.union(&b.union(&c));
    assert_eq!(listing(&left), listing(&right));
    assert_eq!(left.num_buckets(), right.num_buckets());
    assert_eq!(vec![1, 2, 3, 4, 6, 300, 900], listing(&left));
    let left = a.intersection(&c).intersection(&b);
    let right = a.intersection(&c.intersection(&b));
    assert_eq!(listing(&left), listing(&right));
    assert_eq!(left.num_buckets(), right.num_buckets());
}

#[test]
fn bitmap_difference_does_not_commute() {
    let mut a = Bitmap::with_capacity(1);
    a.set(0);
    let b = Bitmap::with_capacity(1);
    assert_eq!(vec![0], listing(&a.difference(&b)));
    assert_eq!(Vec::<u16>::new(), listing(&b.difference(&a)));
}

#[test]
fn bitmap_complement_flips_only_what_is_allocated() {
    let mut bm = Bitmap::with_capacity(2);
    bm.set(3);
    bm.set(100);
    let compl = bm.complement();
    assert_eq!(2, compl.num_buckets());
    assert_eq!(126, compl.cardinality());
    assert_eq!(126, compl.count());
    assert!(!compl.get(3));
    assert!(!compl.get(100));
    assert!(compl.get(0));
    assert!(compl.get(127));
    assert!(!compl.get(128));
    assert_eq!(vec![3, 100], listing(&compl.complement()));
}

#[test]
fn bitmap_complement_of_a_compacted_bitmap() {
    let mut bm = Bitmap::from(&[10, 70]);
    bm.compact();
    assert_eq!(2, bm.num_buckets());
    let compl = bm.complement();
    assert_eq!(64 * 2 - 2, compl.cardinality());
    let mut none = Bitmap::new();
    none.compact();
    assert_eq!(0, none.complement().cardinality());
    assert_eq!(0, none.complement().num_buckets());
}

#[test]
fn bitmap_compact_twice_is_compact_once() {
    let mut bm = Bitmap::with_capacity(10);
    bm.set(65);
    bm.set(130);
    bm.unset(130);
    bm.compact();
    assert_eq!(2, bm.num_buckets());
    assert_eq!(1, bm.cardinality());
    bm.compact();
    assert_eq!(2, bm.num_buckets());
    assert_eq!(1, bm.cardinality());
}

#[test]
fn bitmap_compact_changes_no_membership() {
    let mut bm = Bitmap::with_capacity(8);
    bm.set(1);
    bm.set(129);
    let before: Vec<bool> = (0..600u16).map(|n| bm.get(n)).collect();
    bm.compact();
    let after: Vec<bool> = (0..600u16).map(|n| bm.get(n)).collect();
    assert_eq!(before, after);
    assert_eq!(3, bm.num_buckets());
}

#[test]
fn bitmap_compact_keeps_zero_buckets_below_a_member() {
    let mut bm = Bitmap::with_capacity(6);
    bm.set(200);
    bm.compact();
    assert_eq!(4, bm.num_buckets());
    assert_eq!(vec![200], listing(&bm));
}

#[test]
fn bitmap_iteration_skips_empty_buckets() {
    let bm = Bitmap::from(&[65535, 0, 63, 64, 4000]);
    let mut it = bm.into_iter();
    assert_eq!(Some(0), it.next());
    assert_eq!(Some(63), it.next());
    assert_eq!(Some(64), it.next());
    assert_eq!(Some(4000), it.next());
    assert_eq!(Some(65535), it.next());
    assert_eq!(None, it.next());
    assert_eq!(None, it.next());
}

#[test]
fn bitmap_borrowing_iterator_leaves_the_bitmap_usable() {
    let bm = Bitmap::from(&[9, 8]);
    let mut it = bm.iter();
    assert_eq!(Some(8), it.next());
    assert_eq!(Some(9), it.next());
    assert_eq!(None, it.next());
    assert_eq!(None, it.next());
    assert_eq!(2, bm.cardinality());
    assert!(bm.get(9));
}

#[test]
fn bitmap_iteration_lists_exactly_the_members() {
    let bm = Bitmap::from(&[300, 2, 70, 2, 9, 64, 127, 128]);
    let seen = listing(&bm);
    assert!(seen.windows(2).all(|w| w[0] < w[1]));
    for n in 0..400u16 {
        assert_eq!(bm.get(n), seen.contains(&n));
    }
    assert_eq!(bm.cardinality(), seen.len());
}

#[test]
fn bitmap_iteration_of_a_full_bucket() {
    let full = Bitmap::with_capacity(1).complement();
    let seen = listing(&full);
    assert_eq!((0..64u16).collect::<Vec<u16>>(), seen);
    assert_eq!(64, full.cardinality());
}

#[test]
fn bitmap_members_above_the_universe_are_yielded_cut_to_sixteen_bits() {
    let all = Bitmap::with_capacity(1025).complement();
    assert_eq!(1025 * 64, all.cardinality());
    let mut it = all.into_iter();
    for n in 0..=65535u16 {
        assert_eq!(Some(n), it.next());
    }
    for n in 0..64u16 {
        assert_eq!(Some(n), it.next());
    }
    assert_eq!(None, it.next());
}

#[test]
fn bitmap_clone_is_independent() {
    let mut bm = Bitmap::from(&[1, 2]);
    let copy = bm.clone();
    bm.set(3);
    assert_eq!(3, bm.cardinality());
    assert_eq!(2, copy.cardinality());
    assert!(!copy.get(3));
}
