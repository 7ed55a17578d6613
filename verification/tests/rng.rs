use osm_core::{FixedRng, OsRng, Rng};

#[test]
fn fixed_rng_cycles() {
    let mut r = FixedRng::new(vec![1, 2, 3]);
    let mut a = [0u8; 4];
    r.fill(&mut a);
    assert_eq!(a, [1, 2, 3, 1]);
    let mut b = [0u8; 5];
    r.fill(&mut b);
    assert_eq!(b, [2, 3, 1, 2, 3]);
}

#[test]
fn os_rng_fills_the_whole_buffer_length() {
    let mut buf = vec![0u8; 64];
    OsRng.fill(&mut buf);
    assert_eq!(buf.len(), 64);
}


#[test]
fn two_fills_continue_one_cycle() {
    let seed: Vec<u8> = vec![1, 2, 3, 4, 5];
    let mut a = FixedRng::new(seed.clone());
    let mut x = [0u8; 3];
    let mut y = [0u8; 4];
    a.fill(&mut x);
    a.fill(&mut y);
    let mut b = FixedRng::new(seed);
    let mut z = [0u8; 7];
    b.fill(&mut z);
    assert_eq!([&x[..], &y[..]].concat(), z.to_vec());
    assert_eq!(z, [1, 2, 3, 4, 5, 1, 2]);
}
