use sweep_prune::radix_sort::{
    argsort, coordinate_key, flip32, flip64, sort_in_place, unflip32, unflip64, RadixSort,
};

fn flipped(floats: &[f64]) -> Vec<u64> {
    floats.iter().map(|f| flip64(f.to_bits())).collect()
}

fn unflipped(keys: &[u64]) -> Vec<f64> {
    keys.iter().map(|k| f64::from_bits(unflip64(*k))).collect()
}

#[test]
fn in_place_sort_sorts_3_positive_f64s() {
    let floats = [5.0, 3.0, 4.0];
    let mut arr: Vec<u64> = flipped(&floats);
    sort_in_place(&mut arr);
    let sorted_floats: Vec<f64> = unflipped(&arr);
    assert_eq!(&sorted_floats, &[3.0, 4.0, 5.0]);
}

#[test]
fn in_place_sorts_3_f64s() {
    let floats = [4.0, -5.0, -6.0];
    let mut arr: Vec<u64> = flipped(&floats);
    sort_in_place(&mut arr);
    let sorted_floats: Vec<f64> = unflipped(&arr);
    assert_eq!(&sorted_floats, &[-6.0, -5.0, 4.0]);
}

#[test]
fn argsort_sorts_3_f64s() {
    let floats = [4.0, -5.0, -6.0];
    let keys: Vec<u64> = flipped(&floats);
    let sorted_indexes = keys.argsort();
    assert_eq!(&sorted_indexes, &[2, 1, 0]);
}

#[test]
fn argsort_sorts_3_f32s() {
    let floats = [4.0f32, -5.0, -6.0];
    let keys: Vec<u32> = floats.iter().map(|f| flip32(f.to_bits())).collect();
    let sorted_indexes = keys.argsort();
    assert_eq!(&sorted_indexes, &[2, 1, 0]);
}

#[test]
fn argsort_keeps_equal_keys_in_order() {
    let keys: Vec<u64> = vec![3, 1, 3, 1, 2];
    assert_eq!(keys.argsort(), vec![1, 3, 4, 0, 2]);
}

#[test]
fn argsort_of_nothing_is_empty() {
    let keys: Vec<u64> = Vec::new();
    assert_eq!(keys.argsort(), Vec::<usize>::new());
}

#[test]
fn argsort_orders_by_high_digits() {
    let keys: Vec<u64> = vec![0x0100_0000_0000_0000, 0xff, u64::MAX, 0, 0x1_0000];
    assert_eq!(argsort(&keys, 64), vec![3, 1, 4, 0, 2]);
}

#[test]
fn argsort_with_fewer_digits() {
    let keys: Vec<u64> = vec![0xffff, 0x100, 0x1ff, 7];
    assert_eq!(argsort(&keys, 16), vec![3, 1, 2, 0]);
}

#[test]
fn sort_in_place_sorts_integers() {
    let mut arr: Vec<u64> = vec![9, 0x1_0000_0000, 3, 9, 0];
    sort_in_place(&mut arr);
    assert_eq!(arr, vec![0, 3, 9, 9, 0x1_0000_0000]);
}

#[test]
fn flip_orders_floats() {
    let floats = [-f64::INFINITY, -2.5, -1.0e-300, -0.0, 0.0, 1.0e-300, 2.5, f64::INFINITY];
    let keys = flipped(&floats);
    for i in 1..keys.len() {
        assert!(keys[i - 1] < keys[i]);
    }
}

#[test]
fn flip_values() {
    assert_eq!(flip64(0.0f64.to_bits()), 0x8000_0000_0000_0000);
    assert_eq!(flip64((-0.0f64).to_bits()), 0x7fff_ffff_ffff_ffff);
    assert_eq!(flip64(1.0f64.to_bits()), 0xbff0_0000_0000_0000);
    assert_eq!(flip64((-1.0f64).to_bits()), 0x400f_ffff_ffff_ffff);
    assert_eq!(flip32(1.0f32.to_bits()), 0xbf80_0000);
    assert_eq!(flip32((-1.0f32).to_bits()), 0x407f_ffff);
}

#[test]
fn unflip_undoes_flip() {
    for f in [-3.75f64, -0.0, 0.0, 1.0, 1.0e10] {
        assert_eq!(unflip64(flip64(f.to_bits())), f.to_bits());
    }
    for f in [-3.75f32, -0.0, 0.0, 1.0, 1.0e10] {
        assert_eq!(unflip32(flip32(f.to_bits())), f.to_bits());
    }
}

#[test]
fn coordinate_key_treats_zeros_as_equal() {
    assert_eq!(coordinate_key((-0.0f64).to_bits()), coordinate_key(0.0f64.to_bits()));
    assert!(coordinate_key((-1.0f64).to_bits()) < coordinate_key((-0.0f64).to_bits()));
    assert!(coordinate_key(0.0f64.to_bits()) < coordinate_key(1.0f64.to_bits()));
}
