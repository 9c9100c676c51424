use rotcheck::checks::{check_all_shifts_16, check_no_duplicates, EncodingFault};
use rotcheck::encoding::encode;
use rotcheck::field::Elem;
use rotcheck::table::{apply_shift, generator_powers};

fn hex_of(e: &Elem) -> String {
    format!("0x{:016x}{:016x}{:016x}{:016x}", e.l3, e.l2, e.l1, e.l0)
}

#[test]
fn try_16_bits() {
    const WIDTH: usize = 16;

    let max = 1u64 << WIDTH;

    let gen_powers = generator_powers(WIDTH);
    assert_eq!(gen_powers.len(), WIDTH * 2);

    // the generator closes its cycle: one more multiplication past the
    // last table entry is the identity again
    let wrapped = apply_shift(&gen_powers[WIDTH * 2 - 1], &gen_powers, 1);
    assert_eq!(wrapped, gen_powers[0]);

    if let Err(EncodingFault::RotationMismatch { element, value_1, shift_1, value_2, shift_2 }) =
        check_all_shifts_16(&gen_powers, max as u32, 1 << WIDTH)
    {
        panic!(
            "Same encoding of {} for value {:#016b}, shift {} and value {:#016b}, shift {}",
            hex_of(&element),
            value_1,
            shift_1,
            value_2,
            shift_2
        );
    }
}

#[test]
fn broken_encoder_is_caught() {
    // an encoder that ignores bit 15 must collide: value v and value
    // v + 2^15 encode identically, and the shift-0 sanity pass reports it
    let t = generator_powers(16);
    let mut broken: Vec<Elem> = Vec::new();
    for v in 0..(1u32 << 16) {
        broken.push(encode((v & 0x7fff) as u16, &t));
    }
    match check_no_duplicates(&broken, &t, 0, 1 << 15) {
        Ok(()) => panic!("a broken encoder went unnoticed"),
        Err(EncodingFault::Duplicate { element: _, value_1, value_2, shift }) => {
            assert_eq!(shift, 0);
            assert_eq!(value_2 - value_1, 1 << 15);
            assert_eq!(broken[value_1 as usize], broken[value_2 as usize]);
        },
        Err(_) => panic!("expected a duplicate fault"),
    }
}
