use kanso::hash::{digest_of, Fx};

#[test]
fn the_hash_of_bytes_is_fixed() {
    let mut h = Fx::default();
    h.write(b"abc");
    assert_eq!(h.finish(), 0xc360_d759_17ea_8923);
    let mut h = Fx::default();
    h.write(b"hello world!!");
    assert_eq!(h.finish(), 0xea0e_8987_fb32_25ca);
}

#[test]
fn words_fold_in_one_at_a_time() {
    let mut h = Fx::default();
    h.write_u64(42);
    assert_eq!(h.finish(), 0x5e77_c80c_6b95_bc72);
    let mut h = Fx::default();
    h.write_u8(7);
    h.write_u16(9);
    assert_eq!(h.finish(), 0x899b_8573_6757_f606);
    let mut a = Fx::default();
    a.write_u32(9);
    let mut b = Fx::default();
    b.write_usize(9);
    assert_eq!(a.finish(), b.finish());
}

#[test]
fn the_digest_mixes_every_byte_and_the_length() {
    assert_eq!(digest_of(b""), (0xcbf2_9ce4_8422_2325, 0x9e37_79b9_7f4a_7c15));
    assert_eq!(digest_of(b"abc"), (0xe71f_a219_0541_5748, 0xa199_b47a_71ba_2ba5));
    assert_eq!(digest_of(b"0123456789"), (0xc647_91d4_de5a_c54e, 0x8468_28d3_e801_d434));
    assert_ne!(digest_of(b"a"), digest_of(b"a\0"));
}

#[test]
fn writing_a_words_bytes_hashes_as_the_word() {
    for n in [0u64, 1, 0x0102_0304_0506_0708, u64::MAX] {
        let mut a = Fx::default();
        let mut b = Fx::default();
        a.write_u8(9);
        b.write_u8(9);
        a.write(&n.to_le_bytes());
        b.write_u64(n);
        assert_eq!(a.finish(), b.finish());
        a.write(&[7]);
        b.write_u8(7);
        assert_eq!(a.finish(), b.finish());
        let before = a.finish();
        a.write(&[]);
        assert_eq!(a.finish(), before);
    }
}
