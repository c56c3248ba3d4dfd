//! Bit patterns of the numbers that serve as bounds.

use vstd::prelude::*;

verus! {

/// Negative infinity.
pub const NEG_INFINITY: u64 = 0xfff0_0000_0000_0000;

/// -1.
pub const MINUS_ONE: u64 = 0xbff0_0000_0000_0000;

/// 1e-24.
pub const E_MINUS_24: u64 = 0x3af3_57c2_99a8_8ea7;

/// 1e-18.
pub const E_MINUS_18: u64 = 0x3c32_725d_d1d2_43ac;

/// 1e-15.
pub const E_MINUS_15: u64 = 0x3cd2_03af_9ee7_5616;

/// 1e-12.
pub const E_MINUS_12: u64 = 0x3d71_9799_812d_ea11;

/// 1e-10.
pub const E_MINUS_10: u64 = 0x3ddb_7cdf_d9d7_bdbb;

/// 1e-9.
pub const E_MINUS_9: u64 = 0x3e11_2e0b_e826_d695;

/// 1e-6.
pub const E_MINUS_6: u64 = 0x3eb0_c6f7_a0b5_ed8d;

/// 1e-5.
pub const E_MINUS_5: u64 = 0x3ee4_f8b5_88e3_68f1;

/// 1e-4.
pub const E_MINUS_4: u64 = 0x3f1a_36e2_eb1c_432d;

/// 0.01.
pub const POINT_01: u64 = 0x3f84_7ae1_47ae_147b;

/// 0.025.
pub const POINT_025: u64 = 0x3f99_9999_9999_999a;

/// 0.05.
pub const POINT_05: u64 = 0x3fa9_9999_9999_999a;

/// 0.1.
pub const POINT_1: u64 = 0x3fb9_9999_9999_999a;

/// 0.49.
pub const POINT_49: u64 = 0x3fdf_5c28_f5c2_8f5c;

/// 0.5.
pub const HALF: u64 = 0x3fe0_0000_0000_0000;

/// 0.55.
pub const POINT_55: u64 = 0x3fe1_9999_9999_999a;

/// 0.9.
pub const POINT_9: u64 = 0x3fec_cccc_cccc_cccd;

/// 0.99.
pub const POINT_99: u64 = 0x3fef_ae14_7ae1_47ae;

/// 0.9999.
pub const POINT_9999: u64 = 0x3fef_ff2e_48e8_a71e;

/// 0.999999.
pub const POINT_999999: u64 = 0x3fef_fffd_e721_0be9;

/// 1.
pub const ONE: u64 = 0x3ff0_0000_0000_0000;

/// 1.03.
pub const ONE_POINT_03: u64 = 0x3ff0_7ae1_47ae_147b;

/// 1.75.
pub const ONE_POINT_75: u64 = 0x3ffc_0000_0000_0000;

/// 2.
pub const TWO: u64 = 0x4000_0000_0000_0000;

/// 2.02.
pub const TWO_POINT_02: u64 = 0x4000_28f5_c28f_5c29;

/// 2.5.
pub const TWO_POINT_5: u64 = 0x4004_0000_0000_0000;

/// 2.699.
pub const TWO_POINT_699: u64 = 0x4005_978d_4fdf_3b64;

/// 3.
pub const THREE: u64 = 0x4008_0000_0000_0000;

/// 3.605.
pub const THREE_POINT_605: u64 = 0x400c_d70a_3d70_a3d7;

/// 4.
pub const FOUR: u64 = 0x4010_0000_0000_0000;

/// 5.
pub const FIVE: u64 = 0x4014_0000_0000_0000;

/// 8.
pub const EIGHT: u64 = 0x4020_0000_0000_0000;

/// 10.
pub const TEN: u64 = 0x4024_0000_0000_0000;

/// 20.
pub const TWENTY: u64 = 0x4034_0000_0000_0000;

/// 25.
pub const TWENTY_FIVE: u64 = 0x4039_0000_0000_0000;

/// 30.
pub const THIRTY: u64 = 0x403e_0000_0000_0000;

/// Infinity.
pub const INFINITY: u64 = 0x7ff0_0000_0000_0000;

} // verus!
