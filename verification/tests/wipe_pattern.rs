use restora::secure_delete::wipe_pattern::{fill_pass, PassFill, WipePattern, WipeRng};

#[test]
fn zero_and_one_fill_exactly() {
    let mut rng = WipeRng::seeded_from_time();
    let mut buf = vec![0xAAu8; 16];

    fill_pass(PassFill::Zero, &mut buf, &mut rng);
    assert!(buf.iter().all(|&b| b == 0x00));

    fill_pass(PassFill::One, &mut buf, &mut rng);
    assert!(buf.iter().all(|&b| b == 0xFF));
}

#[test]
fn random_fill_is_not_constant_and_changes_between_calls() {
    let mut rng = WipeRng::seeded_from_time();
    let mut buf1 = vec![0u8; 64];
    let mut buf2 = vec![0u8; 64];

    fill_pass(PassFill::Random, &mut buf1, &mut rng);
    fill_pass(PassFill::Random, &mut buf2, &mut rng);

    assert!(!buf1.iter().all(|&b| b == buf1[0]), "random fill should not be a constant byte");
    assert_ne!(buf1, buf2, "consecutive random passes from the same rng should differ");
}

#[test]
fn dod_3pass_has_expected_pass_sequence() {
    assert_eq!(WipePattern::dod_3pass().passes, &[PassFill::Zero, PassFill::One, PassFill::Random]);
}

#[test]
fn patterns_have_their_names_and_passes() {
    assert_eq!(WipePattern::zero().name, "Zero (1-pass)");
    assert_eq!(WipePattern::zero().passes, &[PassFill::Zero]);
    assert_eq!(WipePattern::random().name, "Random (1-pass)");
    assert_eq!(WipePattern::random().passes, &[PassFill::Random]);
    assert_eq!(WipePattern::dod_3pass().name, "DoD 5220.22-M (3-pass)");
}

fn xorshift_outputs(mut x: u64, n: usize) -> Vec<u64> {
    let mut out = Vec::new();
    for _ in 0..n {
        x ^= x >> 12;
        x ^= x << 25;
        x ^= x >> 27;
        out.push(x.wrapping_mul(0x2545F4914F6CDD1D));
    }
    out
}

#[test]
fn random_fill_is_the_xorshift_stream_little_endian() {
    let mut rng = WipeRng::from_seed(1);
    let mut buf = vec![0u8; 20];
    rng.fill_bytes(&mut buf);
    let expected: Vec<u8> = xorshift_outputs(1, 3).iter().flat_map(|v| v.to_le_bytes()).take(20).collect();
    assert_eq!(buf, expected);
    // The next fill continues with the fourth output.
    let mut next = vec![0u8; 8];
    rng.fill_bytes(&mut next);
    assert_eq!(next, xorshift_outputs(1, 4)[3].to_le_bytes());
}

#[test]
fn zero_seed_is_replaced() {
    let mut a = WipeRng::from_seed(0);
    let mut b = WipeRng::from_seed(0xDEAD_BEEF_CAFE_F00D);
    let mut x = vec![0u8; 32];
    let mut y = vec![0u8; 32];
    a.fill_bytes(&mut x);
    b.fill_bytes(&mut y);
    assert_eq!(x, y);
    assert!(x.iter().any(|&v| v != 0));
}

#[test]
fn constant_passes_leave_the_stream_where_it_was() {
    let mut a = WipeRng::from_seed(42);
    let mut b = WipeRng::from_seed(42);
    let mut buf = vec![0u8; 16];
    fill_pass(PassFill::Zero, &mut buf, &mut a);
    fill_pass(PassFill::One, &mut buf, &mut a);
    let mut x = vec![0u8; 16];
    let mut y = vec![0u8; 16];
    fill_pass(PassFill::Random, &mut x, &mut a);
    fill_pass(PassFill::Random, &mut y, &mut b);
    assert_eq!(x, y);
}

#[test]
fn a_stream_taken_up_after_eight_bytes_goes_on() {
    let mut whole_rng = WipeRng::from_seed(42);
    let mut whole = [0u8; 24];
    whole_rng.fill_bytes(&mut whole);
    let mut split_rng = WipeRng::from_seed(42);
    let mut first = [0u8; 16];
    let mut second = [0u8; 8];
    split_rng.fill_bytes(&mut first);
    split_rng.fill_bytes(&mut second);
    assert_eq!(&whole[..16], &first);
    assert_eq!(&whole[16..], &second);
}
