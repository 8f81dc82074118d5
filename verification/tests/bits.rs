use rand::RngExt;
use wsm_toys::bithack::BitSlice;
use wsm_toys::fft::bit_reverse_permute;
use wsm_toys::par_sort::{merge, par_sort};

fn to_vec(b: &BitSlice) -> Vec<bool> {
    (0..b.bits()).map(|i| b.get(i)).collect()
}

#[test]
fn test_par_sort() {
    const LEN: usize = 65536;
    let mut buf = vec![0u64; LEN];
    let b = &mut buf[..];
    rand::rng().fill(b);
    par_sort(b, 4);
    for i in 0..LEN - 1 {
        if b[i] > b[i + 1] {
            panic!("check failed on index {i}");
        }
    }
}

#[test]
fn par_sort_one_thread_and_small_inputs() {
    let mut v = vec![5u64, 3, 9, 1, 1, 0];
    par_sort(&mut v, 1);
    assert_eq!(v, [0, 1, 1, 3, 5, 9]);
    let mut w = vec![4u64, 2];
    par_sort(&mut w, 8);
    assert_eq!(w, [2, 4]);
    let mut e: Vec<u64> = Vec::new();
    par_sort(&mut e, 1);
    assert!(e.is_empty());
}

#[test]
fn par_sort_keeps_the_items() {
    let mut v: Vec<u64> = (0..5000u64).map(|i| (i * 7919) % 1013).collect();
    let mut expect = v.clone();
    expect.sort();
    par_sort(&mut v, 3);
    assert_eq!(v, expect);
}

#[test]
fn merge_two_runs() {
    let mut src = vec![1u64, 4, 6, 2, 3, 7, 8];
    let mut tmp = vec![0u64; 7];
    merge(&mut src, &mut tmp, 3);
    assert_eq!(src, [1, 2, 3, 4, 6, 7, 8]);
}

#[test]
fn merge_leaves_the_rest_of_a_longer_buffer() {
    let mut src = vec![5u64, 9, 1, 7];
    let mut tmp = vec![42u64; 6];
    merge(&mut src, &mut tmp, 2);
    assert_eq!(src, [1, 5, 7, 9]);
    assert_eq!(&tmp[4..], &[42, 42]);
}

#[test]
fn bitslice_get_set_and_set_never_clears() {
    let mut b = BitSlice::uninit(200);
    assert_eq!(b.bits(), 200);
    assert!(!b.get(150));
    b.set(150, true);
    assert!(b.get(150));
    b.set(150, false);
    assert!(b.get(150));
}

#[test]
fn bitslice_new_reads_bytes_lsb_first() {
    let b = BitSlice::new(10, &[0b0000_0101, 0b0000_0010]);
    assert_eq!(
        to_vec(&b),
        [true, false, true, false, false, false, false, false, false, true]
    );
    assert_eq!(b.render(), "BitSlice(1010000001)");
}

#[test]
fn bitslice_rotate_small_range() {
    // The three reversals swap through `set`, which never clears a bit, so
    // a set bit spreads to the places it passes through.
    let mut b = BitSlice::from_fn(8, |i| i == 0);
    b.rotate_left(0, 4, 1);
    assert_eq!(b.render(), "BitSlice(11010000)");
    let mut c = BitSlice::from_fn(8, |i| i == 1);
    c.rotate_left(0, 4, 1);
    assert_eq!(c.render(), "BitSlice(01110000)");
    let mut d = BitSlice::from_fn(8, |i| i == 5);
    d.rotate_left(0, 4, 3);
    assert_eq!(d.render(), "BitSlice(00000100)");
}

#[test]
fn bitslice_equality_compares_bits() {
    let a = BitSlice::from_fn(130, |i| i % 3 == 0);
    let b = BitSlice::from_fn(130, |i| i % 3 == 0);
    let c = BitSlice::from_fn(130, |i| i % 3 == 0 || i == 128);
    let d = BitSlice::from_fn(131, |i| i % 3 == 0);
    assert!(a.equals(&b));
    assert!(!a.equals(&c));
    assert!(!a.equals(&d));
    assert!(BitSlice::uninit(128).equals(&BitSlice::uninit(128)));
}

#[test]
fn fft_permutation_reverses_index_bits() {
    let mut v: Vec<u32> = (0..8).collect();
    bit_reverse_permute(&mut v);
    assert_eq!(v, [0, 4, 2, 6, 1, 5, 3, 7]);
    let mut w: Vec<u32> = (0..16).collect();
    bit_reverse_permute(&mut w);
    assert_eq!(w, [0, 8, 4, 12, 2, 10, 6, 14, 1, 9, 5, 13, 3, 11, 7, 15]);
    let mut one = vec![5u8];
    bit_reverse_permute(&mut one);
    assert_eq!(one, [5]);
}

fn ones(b: &BitSlice) -> Vec<usize> {
    (0..b.bits()).filter(|&i| b.get(i)).collect()
}

#[test]
fn bitslice_long_range_reversal_goes_word_by_word() {
    // Ranges of 512 bits or more are rewritten a word at a time; when the
    // aligned length is a whole number of words the word after the range is
    // rewritten too, and the bits inside are lost.
    let mut b = BitSlice::from_fn(2048, |i| [3, 700, 1500].contains(&i));
    b.reverse_range(0, 1023);
    assert_eq!(ones(&b), [1500]);
    let mut c = BitSlice::from_fn(2048, |i| [3, 700, 1500].contains(&i));
    c.reverse_range(5, 900);
    assert_eq!(ones(&c), [3, 1500]);
    let mut d = BitSlice::from_fn(1300, |i| i % 97 == 0);
    d.reverse_range(130, 1200);
    assert_eq!(
        ones(&d),
        [0, 97, 166, 194, 263, 291, 426, 523, 554, 651, 814, 911, 942, 1039, 1067, 1164, 1261]
    );
}

#[test]
fn bitslice_long_rotation() {
    let mut b = BitSlice::from_fn(2048, |i| [3, 10, 700, 905, 1500].contains(&i));
    b.rotate_left(5, 900, 37);
    assert_eq!(ones(&b), [3, 10, 36, 47, 899, 905, 1500]);
    let mut c = BitSlice::from_fn(2048, |i| [3, 10, 700, 905, 1500].contains(&i));
    assert!(c.checked_rotate_left(5, 900, 37));
    assert_eq!(ones(&c), [3, 10, 36, 47, 899, 905, 1500]);
    // Reversing all 1024 bits of a 1024-bit slice would touch a ninth word.
    let mut d = BitSlice::from_fn(1024, |i| i % 97 == 0);
    assert!(!d.checked_rotate_left(0, 1024, 300));
    assert_eq!(ones(&d), (0..1024).filter(|i| i % 97 == 0).collect::<Vec<_>>());
    assert!(d.checked_rotate_left(0, 1024, 2048));
    assert!(!d.checked_rotate_left(1000, 25, 1));
}
