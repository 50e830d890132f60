use rdb_fs::TagMaskBits;

fn drain(mut bits: TagMaskBits) -> Vec<usize> {
    let mut out = Vec::new();
    while let Some(i) = bits.next() {
        out.push(i);
    }
    out
}

#[test]
fn test_iterate_all_bits() {
    let bits = TagMaskBits(0xffff_ffff);

    assert_eq!((0..32).collect::<Vec<usize>>(), drain(bits));
}

#[test]
fn test_iterate_first_bit() {
    let bits = TagMaskBits(0x80000000);

    assert_eq!((31..32).collect::<Vec<usize>>(), drain(bits));
}

#[test]
fn test_iterate_last_bit() {
    let bits = TagMaskBits(1);

    assert_eq!((0..1).collect::<Vec<usize>>(), drain(bits));
}

#[test]
fn test_iterate_no_bits() {
    let bits = TagMaskBits(0);

    assert_eq!(Vec::<usize>::new(), drain(bits));
}

#[test]
fn test_unset_first_bit() {
    let mut bits = TagMaskBits(1);
    bits.unset_bit(0);

    assert_eq!(TagMaskBits(0), bits);
}

#[test]
fn test_unset_last_bit() {
    let mut bits = TagMaskBits(0x80000000);
    bits.unset_bit(31);

    assert_eq!(TagMaskBits(0), bits);
}

#[test]
fn test_unset_last_bit_affects_no_other_bits() {
    let mut bits = TagMaskBits(0x7FFFFFFF);
    bits.unset_bit(31);

    assert_eq!(TagMaskBits(0x7FFFFFFF), bits);
}

#[test]
fn test_set_first_bit() {
    let mut bits = TagMaskBits(0);
    bits.set_bit(0);

    assert_eq!(TagMaskBits(1), bits);
}

#[test]
fn test_set_last_bit() {
    let mut bits = TagMaskBits(0);
    bits.set_bit(31);

    assert_eq!(TagMaskBits(0x80000000), bits);
}

#[test]
fn test_set_last_bit_affects_no_other_bits() {
    let mut bits = TagMaskBits(0x40000000);
    bits.set_bit(30);

    assert_eq!(TagMaskBits(0x40000000), bits);
}
