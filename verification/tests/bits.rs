use word_triples::bits::{assemble, fragments, LAST_FRAGMENT_SIZE, VOCABULARY_SIZE};

#[test]
fn sizes() {
    assert_eq!(VOCABULARY_SIZE, 4096);
    assert_eq!(LAST_FRAGMENT_SIZE, 256);
}

#[test]
fn fragments_of_small_values() {
    assert_eq!(fragments(0), (0, 0, 0));
    assert_eq!(fragments(12), (0, 0, 12));
    assert_eq!(fragments(255), (0, 0, 255));
    assert_eq!(fragments(256), (0, 1, 0));
    assert_eq!(fragments(17453), (0, 68, 45));
}

#[test]
fn fragments_of_large_values() {
    assert_eq!(fragments(0x000F_FFFF), (0, 4095, 255));
    assert_eq!(fragments(0x0010_0000), (1, 0, 0));
    assert_eq!(fragments(0x0FFF_FFFF), (255, 4095, 255));
    assert_eq!(fragments(0x1000_0000), (256, 0, 0));
    assert_eq!(fragments(0xABCD_EF12), (0xABC, 0xDEF, 0x12));
    assert_eq!(fragments(u32::MAX), (4095, 4095, 255));
}

#[test]
fn fragments_stay_within_their_bounds() {
    let mut n: u32 = 0;
    for _ in 0..10_000 {
        let (a, b, c) = fragments(n);
        assert!(a < 4096);
        assert!(b < 4096);
        assert!(c < 256);
        n = n.wrapping_mul(1_664_525).wrapping_add(1_013_904_223);
    }
}

#[test]
fn assemble_puts_the_fields_in_place() {
    assert_eq!(assemble(0, 0, 12), 12);
    assert_eq!(assemble(0, 68, 45), 17453);
    assert_eq!(assemble(1, 0, 0), 1 << 20);
    assert_eq!(assemble(0, 1, 0), 1 << 8);
    assert_eq!(assemble(0xABC, 0xDEF, 0x12), 0xABCD_EF12);
    assert_eq!(assemble(4095, 4095, 255), u32::MAX);
}

#[test]
fn assemble_overlaps_a_third_index_beyond_255() {
    assert_eq!(assemble(0, 0, 300), 300);
    assert_eq!(assemble(0, 1, 300), 256 | 300);
    assert_eq!(assemble(0, 1, 256), 256);
}

#[test]
fn assemble_undoes_fragments() {
    let mut n: u32 = 1;
    for _ in 0..10_000 {
        let (a, b, c) = fragments(n);
        assert_eq!(assemble(a, b, c), n);
        n = n.wrapping_mul(1_664_525).wrapping_add(1_013_904_223);
    }
}

#[test]
fn a_multiple_of_two_to_the_28_moves_the_first_fragment_only() {
    let n: u32 = 0x0123_4567;
    let (a, b, c) = fragments(n);
    for k in 1..16u32 {
        let (a2, b2, c2) = fragments(n + k * 0x1000_0000);
        assert_eq!(a2, a + 256 * k);
        assert_eq!(b2, b);
        assert_eq!(c2, c);
    }
}
