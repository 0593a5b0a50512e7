use lean_multisig::field::{KoalaBear, Ring};
use lean_multisig::tables::g_function::{
    compute_g_function, g_function_committed_cols, half_round_committed_cols,
};

#[test]
fn test_g_function_blake3() {
    let a: u32 = 0x6A09E667;
    let b: u32 = 0xBB67AE85;
    let c: u32 = 0x3C6EF372;
    let d: u32 = 0xA54FF53A;
    let mx: u32 = 0x01234567;
    let my: u32 = 0x89ABCDEF;

    let (a2, b2, c2, d2, trace) = compute_g_function(a, b, c, d, mx, my, 0);

    let mut ta = a;
    let mut tb = b;
    let mut tc = c;
    let mut td = d;
    ta = ta.wrapping_add(tb).wrapping_add(mx);
    td = (td ^ ta).rotate_right(16);
    tc = tc.wrapping_add(td);
    tb = (tb ^ tc).rotate_right(12);
    ta = ta.wrapping_add(tb).wrapping_add(my);
    td = (td ^ ta).rotate_right(8);
    tc = tc.wrapping_add(td);
    tb = (tb ^ tc).rotate_right(7);

    assert_eq!(a2, ta);
    assert_eq!(b2, tb);
    assert_eq!(c2, tc);
    assert_eq!(d2, td);

    let a1 = a.wrapping_add(b).wrapping_add(mx);
    assert_eq!(trace.add1_result.to_u32(), a1);
    let d1 = (d ^ a1).rotate_right(16);
    assert_eq!(trace.xor_rot16.result.to_u32(), d1);
    let c1 = c.wrapping_add(d1);
    assert_eq!(trace.add2_result.to_u32(), c1);
    let b1 = (b ^ c1).rotate_right(12);
    assert_eq!(trace.xor_rot12.result.to_u32(), b1);
}

#[test]
fn test_column_count() {
    assert_eq!(g_function_committed_cols(), 92);
    assert_eq!(half_round_committed_cols(), 404);
}

#[test]
fn xor_steps_name_the_computed_operand_first() {
    let (_, _, _, _, trace) = compute_g_function(
        0x6A09E667, 0xBB67AE85, 0x3C6EF372, 0xA54FF53A, 0x01234567, 0x89ABCDEF, 0,
    );
    let bytes = |b: [u32; 4]| b.map(KoalaBear::from_u32);
    assert_eq!(trace.xor_rot16.a_bytes, bytes([0x53, 0xDA, 0x94, 0x26]));
    assert_eq!(trace.xor_rot16.b_bytes, bytes([0x3A, 0xF5, 0x4F, 0xA5]));
    let c1 = trace.add2_result.to_u32().to_le_bytes().map(u32::from);
    assert_eq!(trace.xor_rot12.a_bytes, bytes(c1));
    assert_eq!(trace.xor_rot12.b_bytes, bytes([0x85, 0xAE, 0x67, 0xBB]));
    let a2 = trace.add3_result.to_u32().to_le_bytes().map(u32::from);
    let d1 = trace.xor_rot16.result.to_u32().to_le_bytes().map(u32::from);
    assert_eq!((trace.xor_rot8.a_bytes, trace.xor_rot8.b_bytes), (bytes(a2), bytes(d1)));
    let c2 = trace.add4_result.to_u32().to_le_bytes().map(u32::from);
    let b1 = trace.xor_rot12.result.to_u32().to_le_bytes().map(u32::from);
    assert_eq!((trace.xor_rot7.a_bytes, trace.xor_rot7.b_bytes), (bytes(c2), bytes(b1)));
}
