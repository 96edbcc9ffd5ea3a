use aicirt::arena::{return_logit_bias, BiasError};

#[test]
fn mask_lands_in_its_slot_only() {
    let mut arena = vec![0xaau8; 32];
    let off = return_logit_bias(&mut arena, 8, 8, &[0x0403_0201, 0x0807_0605]);
    assert_eq!(off, Ok(8));
    assert_eq!(&arena[0..8], &[0xaa; 8]);
    assert_eq!(&arena[8..16], &[1, 2, 3, 4, 5, 6, 7, 8]);
    assert_eq!(&arena[16..32], &[0xaa; 16]);
}

#[test]
fn short_mask_leaves_rest_of_slot() {
    let mut arena = vec![0u8; 16];
    assert_eq!(return_logit_bias(&mut arena, 4, 12, &[u32::MAX]), Ok(4));
    assert_eq!(&arena[4..8], &[0xff; 4]);
    assert_eq!(&arena[8..16], &[0; 8]);
}

#[test]
fn mask_larger_than_slot_is_refused() {
    let mut arena = vec![7u8; 16];
    assert_eq!(return_logit_bias(&mut arena, 0, 7, &[1, 2]), Err(BiasError::MaskTooLarge));
    assert_eq!(arena, vec![7u8; 16]);
}
