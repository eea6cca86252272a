//! The order of the generator of the multiplicative group: seven raised to
//! `p - 1` is one. The power is built by squaring and multiplying, every
//! step on numbers written out. From it follows that the `(p - 2)`-th power
//! inverts every power of seven.

use vstd::prelude::*;
use vstd::arithmetic::div_mod::*;
use vstd::arithmetic::power::*;
use crate::reduce::{inv_word, modulus, mul_word, pow_word};

verus! {

/// Squaring a known power: from `x^e = g` and `g * g = g2` modulo `p`
/// follows `x^(2e) = g2`.
proof fn lemma_square_step(x: int, e: nat, g: int, g2: int)
    requires
        pow(x, e) % modulus() == g,
        (g * g) % modulus() == g2,
    ensures
        pow(x, 2 * e) % modulus() == g2,
{
    lemma_pow_adds(x, e, e);
    lemma_mul_mod_noop_general(pow(x, e), pow(x, e), modulus());
}

/// Multiplying two known powers: from `x^e1 = g1`, `x^e2 = g2` and
/// `g1 * g2 = g3` modulo `p` follows `x^(e1 + e2) = g3`.
proof fn lemma_mul_step(x: int, e1: nat, e2: nat, g1: int, g2: int, g3: int)
    requires
        pow(x, e1) % modulus() == g1,
        pow(x, e2) % modulus() == g2,
        (g1 * g2) % modulus() == g3,
    ensures
        pow(x, e1 + e2) % modulus() == g3,
{
    lemma_pow_adds(x, e1, e2);
    lemma_mul_mod_noop_general(pow(x, e1), pow(x, e2), modulus());
}

/// The power `7^(2^8 - 1)`.
proof fn lemma_generator_chain_a()
    ensures
        pow(7, 0xFF) % modulus() == 0x70C2_C3D5_1532_B015,
{
    lemma_pow1(7);
    lemma_square_step(7, 0x1, 0x7, 0x31);
    lemma_mul_step(7, 0x2, 0x1, 0x31, 0x7, 0x157);
    lemma_square_step(7, 0x3, 0x157, 0x1_CB91);
    lemma_square_step(7, 0x6, 0x1_CB91, 0x3_3901_4821);
    lemma_mul_step(7, 0xC, 0x3, 0x3_3901_4821, 0x157, 0x451_60B7_A437);
    lemma_square_step(7, 0xF, 0x451_60B7_A437, 0x15F4_8697_6FE5_DEED);
    lemma_square_step(7, 0x1E, 0x15F4_8697_6FE5_DEED, 0x5D0A_24CD_6A73_F846);
    lemma_square_step(7, 0x3C, 0x5D0A_24CD_6A73_F846, 0xADFA_8C74_B12C_55CA);
    lemma_square_step(7, 0x78, 0xADFA_8C74_B12C_55CA, 0x7398_D2E2_1F83_5ED4);
    lemma_mul_step(7, 0xF0, 0xF, 0x7398_D2E2_1F83_5ED4, 0x451_60B7_A437, 0x70C2_C3D5_1532_B015);
}

/// The power `7^(2^16 - 1)` from `7^(2^8 - 1)`.
proof fn lemma_generator_chain_b()
    requires
        pow(7, 0xFF) % modulus() == 0x70C2_C3D5_1532_B015,
    ensures
        pow(7, 0xFFFF) % modulus() == 0xA867_93B7_0B17_04A5,
{
    lemma_square_step(7, 0xFF, 0x70C2_C3D5_1532_B015, 0x977D_266A_AA57_17A5);
    lemma_square_step(7, 0x1FE, 0x977D_266A_AA57_17A5, 0x787F_47A0_7FCF_41E4);
    lemma_square_step(7, 0x3FC, 0x787F_47A0_7FCF_41E4, 0xB6C1_A919_01DA_77B4);
    lemma_square_step(7, 0x7F8, 0xB6C1_A919_01DA_77B4, 0x322B_ED07_0607_7320);
    lemma_square_step(7, 0xFF0, 0x322B_ED07_0607_7320, 0x86A2_D630_BB83_A30C);
    lemma_square_step(7, 0x1FE0, 0x86A2_D630_BB83_A30C, 0xA7AF_6C74_BA20_C4B0);
    lemma_square_step(7, 0x3FC0, 0xA7AF_6C74_BA20_C4B0, 0x23FA_4D30_54E7_B59B);
    lemma_square_step(7, 0x7F80, 0x23FA_4D30_54E7_B59B, 0x7BEB_8570_E09C_D999);
    lemma_mul_step(7, 0xFF00, 0xFF, 0x7BEB_8570_E09C_D999, 0x70C2_C3D5_1532_B015, 0xA867_93B7_0B17_04A5);
}

/// The power `7^(2^32 - 1)` from `7^(2^16 - 1)`.
proof fn lemma_generator_chain_c()
    requires
        pow(7, 0xFFFF) % modulus() == 0xA867_93B7_0B17_04A5,
    ensures
        pow(7, 0xFFFF_FFFF) % modulus() == 0x1856_29DC_DA58_878C,
{
    lemma_square_step(7, 0xFFFF, 0xA867_93B7_0B17_04A5, 0x893_FA99_23DE_9A55);
    lemma_square_step(7, 0x1_FFFE, 0x893_FA99_23DE_9A55, 0x8B93_AE51_F2C0_3A11);
    lemma_square_step(7, 0x3_FFFC, 0x8B93_AE51_F2C0_3A11, 0x9EB6_E0EA_5824_F899);
    lemma_square_step(7, 0x7_FFF8, 0x9EB6_E0EA_5824_F899, 0x2225_9027_D26C_A2F7);
    lemma_square_step(7, 0xF_FFF0, 0x2225_9027_D26C_A2F7, 0x4960_7255_8F03_08E7);
    lemma_square_step(7, 0x1F_FFE0, 0x4960_7255_8F03_08E7, 0x25E1_56B2_73E5_CD95);
    lemma_square_step(7, 0x3F_FFC0, 0x25E1_56B2_73E5_CD95, 0x50A0_CDD5_3182_85AC);
    lemma_square_step(7, 0x7F_FF80, 0x50A0_CDD5_3182_85AC, 0x3CC9_BB78_9828_AC60);
    lemma_square_step(7, 0xFF_FF00, 0x3CC9_BB78_9828_AC60, 0x8F21_94ED_CFA6_8D62);
    lemma_square_step(7, 0x1FF_FE00, 0x8F21_94ED_CFA6_8D62, 0xF7D_4C5A_6B37_20D4);
    lemma_square_step(7, 0x3FF_FC00, 0xF7D_4C5A_6B37_20D4, 0x71D3_0FA7_16BA_CA03);
    lemma_square_step(7, 0x7FF_F800, 0x71D3_0FA7_16BA_CA03, 0x84CB_ECE4_2CB3_5A3D);
    lemma_square_step(7, 0xFFF_F000, 0x84CB_ECE4_2CB3_5A3D, 0x3592_B09E_290C_AC82);
    lemma_square_step(7, 0x1FFF_E000, 0x3592_B09E_290C_AC82, 0x22F4_AC64_CDF8_F4CA);
    lemma_square_step(7, 0x3FFF_C000, 0x22F4_AC64_CDF8_F4CA, 0x3D2D_B806_D5B5_67B0);
    lemma_square_step(7, 0x7FFF_8000, 0x3D2D_B806_D5B5_67B0, 0x485E_A3EA_21B6_DE8F);
    lemma_mul_step(7, 0xFFFF_0000, 0xFFFF, 0x485E_A3EA_21B6_DE8F, 0xA867_93B7_0B17_04A5, 0x1856_29DC_DA58_878C);
}

/// Sixteen squarings of `7^(2^32 - 1)`.
proof fn lemma_generator_chain_d()
    requires
        pow(7, 0xFFFF_FFFF) % modulus() == 0x1856_29DC_DA58_878C,
    ensures
        pow(7, 0xFFFF_FFFF_0000) % modulus() == 0x54DF_9630_BF79_450E,
{
    lemma_square_step(7, 0xFFFF_FFFF, 0x1856_29DC_DA58_878C, 0x400A_7F75_5588_E659);
    lemma_square_step(7, 0x1_FFFF_FFFE, 0x400A_7F75_5588_E659, 0x7E9B_D009_B86A_0845);
    lemma_square_step(7, 0x3_FFFF_FFFC, 0x7E9B_D009_B86A_0845, 0xDFA8_C93B_A46D_2666);
    lemma_square_step(7, 0x7_FFFF_FFF8, 0xDFA8_C93B_A46D_2666, 0x5904_9500_004A_4485);
    lemma_square_step(7, 0xF_FFFF_FFF0, 0x5904_9500_004A_4485, 0x10D7_8DD8_915A_171D);
    lemma_square_step(7, 0x1F_FFFF_FFE0, 0x10D7_8DD8_915A_171D, 0xED41_D05B_78D6_E286);
    lemma_square_step(7, 0x3F_FFFF_FFC0, 0xED41_D05B_78D6_E286, 0x4BBA_F597_6ECF_EFD8);
    lemma_square_step(7, 0x7F_FFFF_FF80, 0x4BBA_F597_6ECF_EFD8, 0x86CD_CC31_C307_E171);
    lemma_square_step(7, 0xFF_FFFF_FF00, 0x86CD_CC31_C307_E171, 0xEA9D_5A13_36FB_C98B);
    lemma_square_step(7, 0x1FF_FFFF_FE00, 0xEA9D_5A13_36FB_C98B, 0x4B2A_18AD_E672_46B5);
    lemma_square_step(7, 0x3FF_FFFF_FC00, 0x4B2A_18AD_E672_46B5, 0xF502_AEF5_3232_2654);
    lemma_square_step(7, 0x7FF_FFFF_F800, 0xF502_AEF5_3232_2654, 0x30BA_2ECD_5E93_E76D);
    lemma_square_step(7, 0xFFF_FFFF_F000, 0x30BA_2ECD_5E93_E76D, 0xFBD4_1C6B_8CAA_3302);
    lemma_square_step(7, 0x1FFF_FFFF_E000, 0xFBD4_1C6B_8CAA_3302, 0x8128_1A7B_05F9_BEAC);
    lemma_square_step(7, 0x3FFF_FFFF_C000, 0x8128_1A7B_05F9_BEAC, 0xABD0_A6E8_AA3D_8A0E);
    lemma_square_step(7, 0x7FFF_FFFF_8000, 0xABD0_A6E8_AA3D_8A0E, 0x54DF_9630_BF79_450E);
}

/// Fifteen further squarings, up to `7^((p - 1) / 2)`.
proof fn lemma_generator_chain_e()
    requires
        pow(7, 0xFFFF_FFFF_0000) % modulus() == 0x54DF_9630_BF79_450E,
    ensures
        pow(7, 0x7FFF_FFFF_8000_0000) % modulus() == 0xFFFF_FFFF_0000_0000,
{
    lemma_square_step(7, 0xFFFF_FFFF_0000, 0x54DF_9630_BF79_450E, 0xF6B2_CFFE_2306_BAAC);
    lemma_square_step(7, 0x1_FFFF_FFFE_0000, 0xF6B2_CFFE_2306_BAAC, 0xE0EE_0993_10BB_A1E2);
    lemma_square_step(7, 0x3_FFFF_FFFC_0000, 0xE0EE_0993_10BB_A1E2, 0x1544_EF23_35D1_7997);
    lemma_square_step(7, 0x7_FFFF_FFF8_0000, 0x1544_EF23_35D1_7997, 0xF2C3_5199_959D_FCB6);
    lemma_square_step(7, 0xF_FFFF_FFF0_0000, 0xF2C3_5199_959D_FCB6, 0x653_B480_1DA1_C8CF);
    lemma_square_step(7, 0x1F_FFFF_FFE0_0000, 0x653_B480_1DA1_C8CF, 0x9D8F_2AD7_8BFE_D972);
    lemma_square_step(7, 0x3F_FFFF_FFC0_0000, 0x9D8F_2AD7_8BFE_D972, 0x1905_D02A_5C41_1F4E);
    lemma_square_step(7, 0x7F_FFFF_FF80_0000, 0x1905_D02A_5C41_1F4E, 0xBF79_143C_E60C_A966);
    lemma_square_step(7, 0xFF_FFFF_FF00_0000, 0xBF79_143C_E60C_A966, 0xF800_07FF_0800_0001);
    lemma_square_step(7, 0x1FF_FFFF_FE00_0000, 0xF800_07FF_0800_0001, 0x80_0000_0000);
    lemma_square_step(7, 0x3FF_FFFF_FC00_0000, 0x80_0000_0000, 0x3FFF_FFFF_C000);
    lemma_square_step(7, 0x7FF_FFFF_F800_0000, 0x3FFF_FFFF_C000, 0xEFFF_FFFF_0000_0001);
    lemma_square_step(7, 0xFFF_FFFF_F000_0000, 0xEFFF_FFFF_0000_0001, 0xFFFF_FFFE_FF00_0001);
    lemma_square_step(7, 0x1FFF_FFFF_E000_0000, 0xFFFF_FFFE_FF00_0001, 0x1_0000_0000_0000);
    lemma_square_step(7, 0x3FFF_FFFF_C000_0000, 0x1_0000_0000_0000, 0xFFFF_FFFF_0000_0000);
}

/// Seven raised to `(p - 1) / 2` is minus one modulo `p`.
pub proof fn lemma_generator_half_order()
    ensures
        pow(7, 0x7FFF_FFFF_8000_0000) % modulus() == modulus() - 1,
{
    lemma_generator_chain_a();
    lemma_generator_chain_b();
    lemma_generator_chain_c();
    lemma_generator_chain_d();
    lemma_generator_chain_e();
}

/// Seven raised to `p - 1` is one modulo `p`.
pub proof fn lemma_generator_order()
    ensures
        pow(7, 0xFFFF_FFFF_0000_0000) % modulus() == 1,
{
    lemma_generator_half_order();
    lemma_square_step(7, 0x7FFF_FFFF_8000_0000, 0xFFFF_FFFF_0000_0000, 0x1);
}

/// Every power of seven is inverted by its `(p - 2)`-th power.
pub proof fn lemma_generator_power_inverts(k: u64)
    ensures
        mul_word(pow_word(7, k), inv_word(pow_word(7, k))) == 1,
{
    let p = modulus();
    let e = k as nat;
    let order: nat = 0xFFFF_FFFF_0000_0000;
    let g = pow(7, e);
    let w = pow_word(7, k) as int;
    assert(w == g % p);
    lemma_generator_order();
    // the power raised to p - 1
    lemma_pow_mod_noop(g, order, p);
    lemma_pow_multiplies(7, e, order);
    lemma_pow_multiplies(7, order, e);
    assert(e * order == order * e) by (nonlinear_arith);
    lemma_pow_mod_noop(pow(7, order), e, p);
    lemma1_pow(e);
    assert(pow(w, order) % p == 1);
    // the power times its (p - 2)-th power
    lemma_pow_adds(w, 1, 0xFFFF_FFFE_FFFF_FFFF);
    lemma_pow1(w);
    lemma_mul_mod_noop_general(w, pow(w, 0xFFFF_FFFE_FFFF_FFFF), p);
}

/// Seven itself is inverted by its `(p - 2)`-th power.
pub proof fn lemma_generator_inverts()
    ensures
        mul_word(7, inv_word(7)) == 1,
{
    lemma_pow1(7);
    assert(pow_word(7, 1) == 7);
    lemma_generator_power_inverts(1);
}

} // verus!
