use doc_pipeline::bits::{check_bit, set_bit};

#[test]
fn main_test_set_bits_does_not_unset_bits() {
    let mut buf = vec![0xFFu8; 3];
    for i in 0..24 {
        set_bit(i, &mut buf);
        assert_eq!(buf, vec![0xFFu8; 3]);
    }
}

#[test]
fn main_test_set_bits_work() {
    let mut buf = vec![0x00u8; 2];
    for i in 0..16 {
        set_bit(i, &mut buf);
        println!("{:?}", buf);
        buf = vec![0x00u8; 2];
    }
}

#[test]
fn slatedb_test_set_bits_does_not_unset_bits() {
    let mut buf = vec![0xFFu8; 3];
    for i in 0..24 {
        set_bit(i, &mut buf);
        assert_eq!(buf, vec![0xFFu8; 3]);
    }
}

#[test]
fn slatedb_test_set_bits_work() {
    let mut buf = vec![0x00u8; 2];
    for i in 0..16 {
        set_bit(i, &mut buf);
        println!("{:?}", buf);
        buf = vec![0x00u8; 2];
    }
}

#[test]
fn test_check_bits() {
    let num_bytes = 4;
    for i in 0..num_bytes {
        for b in 0..8 {
            let bit = i * 8 + b;
            let mut buf = vec![0u8; num_bytes];
            buf[i] = 1 << b;
            for checked in 0..num_bytes * 8 {
                let bit_on = check_bit(checked, buf.as_slice());
                assert_eq!(bit_on, bit == checked);
            }
        }
    }
}

#[test]
fn set_bit_sets_exactly_one_bit() {
    let mut buf = vec![0u8; 2];
    set_bit(0, &mut buf);
    assert_eq!(buf, vec![0x01, 0x00]);
    set_bit(9, &mut buf);
    assert_eq!(buf, vec![0x01, 0x02]);
    set_bit(15, &mut buf);
    assert_eq!(buf, vec![0x01, 0x82]);
    assert!(check_bit(15, &buf));
    assert!(!check_bit(14, &buf));
}
