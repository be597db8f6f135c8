use nixe_cpu_jit::abi::HostAbi;
use nixe_cpu_jit::decode::{
    BitwiseOperation, FloatAddOperation, FloatConversion, FloatFusedMultiplyOperation,
    FloatMultiplyOperation, FloatRoundOperation, FloatToIntegerRounding, FpSimdInstruction,
    FpSimdKind, FpSimdOperands, IntegerComparison, MemoryAccessSize, PairwiseOperation,
    PermuteOperation, SimdMemoryMode, StructureShape,
};
use nixe_cpu_jit::direct::error::DirectJitErrorKind;
use nixe_cpu_jit::simd::cold::{
    emit_typed_fp_cold, ColdCallBoundaries, ColdHelper, ColdOperand, ColdOutput,
};
use nixe_cpu_jit::simd::emit::emit_fp_simd;
use nixe_cpu_jit::simd::conditions::{host_checks, FpCheck};
use nixe_cpu_jit::simd::guards::{
    active_mask, float_masks, integer_bounds, lane_constant, HostOperation, HostRounding,
    INACTIVE_ONES,
};
use nixe_cpu_jit::simd::immediates::{
    expand_modified_immediate, expand_vfp_immediate, sign_extend, vector_float_immediate,
    FloatFormat,
};
use nixe_cpu_jit::simd::lanes::{left_shift, right_shift, scalar_width, select_lane, Lane};
use nixe_cpu_jit::simd::memory::{
    ElementPart, Extension, StructureStep, VectorAddress,
};
use nixe_cpu_jit::simd::plan::{
    Combine, GeneralPart, IntegerRange, LaneOperation, ShiftAction, VectorPlan,
};
use nixe_cpu_jit::simd::shifts::shift_stages;
use nixe_cpu_jit::simd::shuffles::{
    across_masks, extract_mask, narrow_mask, pairwise_masks, permute_mask, upper_mask,
};

fn operands() -> FpSimdOperands {
    FpSimdOperands {
        rd: 1,
        rn: 2,
        rm: 3,
        ra: 4,
        rt2: 5,
        opc: 0,
        size: 0,
        cmode: 0,
        mode: 0,
        option: 0,
        condition: 0,
        nzcv_immediate: 0,
        immediate_4: 0,
        immediate_5: 1,
        immediate_7: 0,
        immediate_8: 0,
        immediate_9: 0,
        immediate_12: 0,
        fp_immediate_8: 0,
        shift_immediate: 8,
        fp_element_lane: 0,
        operation_bit: false,
        vector_128: true,
        load: false,
        scaled: false,
        subtract: false,
        compare_with_zero: false,
        signaling_compare: false,
        fixed_point_fraction_bits: None,
        float_add_operation: Some(FloatAddOperation::Add),
        float_multiply_operation: Some(FloatMultiplyOperation::Multiply),
        float_fused_multiply_operation: Some(FloatFusedMultiplyOperation::MultiplyAdd),
        float_round_operation: Some(FloatRoundOperation::TowardZero),
        float_to_integer_rounding: Some(FloatToIntegerRounding::TowardZero),
        float_conversion: Some(FloatConversion::SingleToDouble),
        bitwise_operation: Some(BitwiseOperation::And),
        integer_comparison: Some(IntegerComparison::Equal),
        pairwise_operation: Some(PairwiseOperation::Add),
        permute_operation: Some(PermuteOperation::ZipPrimary),
        access_size: Some(MemoryAccessSize::Doubleword),
        structure: None,
    }
}

fn plan(kind: FpSimdKind, operands: FpSimdOperands) -> VectorPlan {
    emit_fp_simd(FpSimdInstruction { kind, operands }, HostAbi::Aarch64)
        .unwrap()
        .native
}

fn refused(kind: FpSimdKind, operands: FpSimdOperands) -> String {
    let error = emit_fp_simd(FpSimdInstruction { kind, operands }, HostAbi::Aarch64).unwrap_err();
    assert_eq!(error.kind, DirectJitErrorKind::InvalidGuestCode);
    error.detail
}

#[test]
fn lane_selectors_give_width_and_index() {
    assert_eq!(select_lane(0b10011).unwrap(), Lane { bits: 8, index: 9 });
    assert_eq!(select_lane(0b01110).unwrap(), Lane { bits: 16, index: 3 });
    assert_eq!(select_lane(0b11100).unwrap(), Lane { bits: 32, index: 3 });
    assert_eq!(select_lane(0b11000).unwrap(), Lane { bits: 64, index: 1 });
    assert_eq!(select_lane(0b10000).unwrap_err().detail, "invalid SIMD lane width");
    assert!(select_lane(0).is_err());
}

#[test]
fn shift_immediates_give_width_and_distance() {
    let left = left_shift(0b0001_011).unwrap();
    assert_eq!((left.bits, left.shift), (8, 3));
    let right = right_shift(0b0001_011).unwrap();
    assert_eq!((right.bits, right.shift), (8, 5));
    let whole = right_shift(64).unwrap();
    assert_eq!((whole.bits, whole.shift), (64, 64));
    assert!(left_shift(128).is_err());
}

#[test]
fn scalar_widths() {
    assert_eq!(scalar_width(0).unwrap(), 32);
    assert_eq!(scalar_width(1).unwrap(), 64);
    assert_eq!(scalar_width(3).unwrap(), 16);
    assert_eq!(scalar_width(2).unwrap_err().detail, "invalid scalar FP width");
}

#[test]
fn modified_immediates_expand() {
    assert_eq!(expand_modified_immediate(4, 0xab, false).unwrap(), 0x00ab_0000_00ab_0000);
    assert_eq!(expand_modified_immediate(5, 0xab, true).unwrap(), 0xff54_ffff_ff54_ffff);
    assert_eq!(expand_modified_immediate(10, 0xab, false).unwrap(), 0xab00_ab00_ab00_ab00);
    assert_eq!(expand_modified_immediate(12, 0xab, false).unwrap(), 0x0000_abff_0000_abff);
    assert_eq!(expand_modified_immediate(13, 0xab, false).unwrap(), 0x00ab_ffff_00ab_ffff);
    assert_eq!(expand_modified_immediate(14, 0xab, false).unwrap(), 0xabab_abab_abab_abab);
    assert_eq!(expand_modified_immediate(14, 0b1000_0101, true).unwrap(), 0xff00_0000_00ff_00ff);
    assert_eq!(
        expand_modified_immediate(15, 0, false).unwrap_err().detail,
        "invalid SIMD modified immediate"
    );
}

#[test]
fn packed_float_immediates_are_the_numbers_they_name() {
    assert_eq!(expand_vfp_immediate(0x70, FloatFormat::Single), u64::from(1.0_f32.to_bits()));
    assert_eq!(expand_vfp_immediate(0x70, FloatFormat::Double), 1.0_f64.to_bits());
    assert_eq!(expand_vfp_immediate(0x80, FloatFormat::Double), (-2.0_f64).to_bits());
    assert_eq!(expand_vfp_immediate(0x3f, FloatFormat::Double), 31.0_f64.to_bits());
    assert_eq!(expand_vfp_immediate(0x40, FloatFormat::Single), u64::from(0.125_f32.to_bits()));
    assert_eq!(expand_vfp_immediate(0x70, FloatFormat::Half), 0x3c00);
    assert_eq!(vector_float_immediate(0x70, true), 0x3ff0_0000_0000_0000_3ff0_0000_0000_0000);
    assert_eq!(vector_float_immediate(0x70, false), 0x3f80_0000_3f80_0000_3f80_0000_3f80_0000);
}

#[test]
fn short_fields_are_signed() {
    assert_eq!(sign_extend(0x1ff, 9), -1);
    assert_eq!(sign_extend(0x0ff, 9), 255);
    assert_eq!(sign_extend(0x40, 7), -64);
}

fn shuffle(mask: &[u8], first: [u8; 16], second: [u8; 16]) -> Vec<u8> {
    let mut result = Vec::new();
    for &byte in mask {
        result.push(if byte < 16 {
            first[byte as usize]
        } else {
            second[byte as usize - 16]
        });
    }
    result
}

fn numbered(base: u8) -> [u8; 16] {
    let mut bytes = [0; 16];
    for (index, byte) in bytes.iter_mut().enumerate() {
        *byte = base + index as u8;
    }
    bytes
}

#[test]
fn permutations_move_lanes() {
    let (a, b) = (numbered(0), numbered(100));
    assert_eq!(
        shuffle(&permute_mask(PermuteOperation::ZipPrimary, 32, true), a, b),
        vec![0, 1, 2, 3, 100, 101, 102, 103, 4, 5, 6, 7, 104, 105, 106, 107]
    );
    assert_eq!(
        shuffle(&permute_mask(PermuteOperation::UnzipSecondary, 64, true), a, b),
        vec![8, 9, 10, 11, 12, 13, 14, 15, 108, 109, 110, 111, 112, 113, 114, 115]
    );
    assert_eq!(
        shuffle(&permute_mask(PermuteOperation::TransposeSecondary, 32, false), a, b)[..8],
        [4, 5, 6, 7, 104, 105, 106, 107]
    );
    assert_eq!(shuffle(&extract_mask(3, false), a, b)[..8], [3, 4, 5, 6, 7, 100, 101, 102]);
    let (left, right) = pairwise_masks(16, false);
    assert_eq!(shuffle(&left, a, b)[..8], [0, 1, 4, 5, 100, 101, 104, 105]);
    assert_eq!(shuffle(&right, a, b)[..8], [2, 3, 6, 7, 102, 103, 106, 107]);
    assert_eq!(shuffle(&narrow_mask(16), a, a)[..8], [0, 1, 4, 5, 8, 9, 12, 13]);
    assert_eq!(
        shuffle(&upper_mask(), a, b),
        vec![0, 1, 2, 3, 4, 5, 6, 7, 100, 101, 102, 103, 104, 105, 106, 107]
    );
}

#[test]
fn folds_add_all_lanes_up() {
    let masks = across_masks(8, true);
    assert_eq!(masks.len(), 4);
    let mut lanes = numbered(1);
    for mask in masks {
        let other = shuffle(&mask, lanes, lanes);
        for (lane, added) in lanes.iter_mut().zip(other) {
            *lane = lane.wrapping_add(added);
        }
    }
    assert_eq!(lanes[0], 136);
    assert_eq!(across_masks(64, false).len(), 0);
}

#[test]
fn float_masks_split_a_number() {
    let single = float_masks(false);
    assert_eq!(single.exponent | single.fraction, single.magnitude);
    let bits = u64::from((-1.5_f32).to_bits());
    assert_ne!(bits & single.sign, 0);
    assert_eq!(bits & single.exponent, 0x3f80_0000);
    assert_eq!(float_masks(true).exponent, 0x7ff0_0000_0000_0000);
}

#[test]
fn integer_ranges_are_powers_of_two() {
    assert_eq!(
        integer_bounds(false, false, false),
        (
            u64::from((-2147483648.0_f32).to_bits()),
            u64::from(2147483648.0_f32.to_bits())
        )
    );
    assert_eq!(
        integer_bounds(false, true, true),
        ((-9223372036854775808.0_f64).to_bits(), 9223372036854775808.0_f64.to_bits())
    );
    assert_eq!(integer_bounds(true, true, true), (0, 18446744073709551616.0_f64.to_bits()));
    assert_eq!(
        integer_bounds(true, false, false),
        (0, u64::from(4294967296.0_f32.to_bits()))
    );
    assert_eq!(integer_bounds(true, false, true), (0, 4294967296.0_f64.to_bits()));
}

#[test]
fn vector_constants() {
    assert_eq!(lane_constant(false, 0x7f80_0000), 0x7f80_0000_7f80_0000_7f80_0000_7f80_0000);
    assert_eq!(lane_constant(true, 1), 0x1_0000_0000_0000_0001);
    assert_eq!(active_mask(false, 2), 0xffff_ffff_ffff_ffff);
    assert_eq!(active_mask(true, 2), u128::MAX);
    let one = u128::from(1.0_f32.to_bits());
    assert_eq!(INACTIVE_ONES, (one << 64) | (one << 96));
}

#[test]
fn moves_have_plans() {
    let fields = FpSimdOperands { immediate_5: 0b01110, immediate_4: 4, ..operands() };
    let lane = Lane { bits: 16, index: 3 };
    assert_eq!(
        plan(FpSimdKind::DuplicateElement, fields),
        VectorPlan::SplatLane { lane, full: true }
    );
    assert_eq!(
        plan(FpSimdKind::InsertElement, fields),
        VectorPlan::InsertLane { lane, from: 2 }
    );
    assert_eq!(
        plan(FpSimdKind::MoveToGeneral, FpSimdOperands { size: 2, opc: 2, ..operands() }),
        VectorPlan::ToGeneral { part: GeneralPart::High64 }
    );
    assert_eq!(
        refused(FpSimdKind::MoveFromGeneral, FpSimdOperands { size: 0, opc: 1, ..operands() }),
        "invalid FMOV general width"
    );
    assert_eq!(
        plan(
            FpSimdKind::VectorFloatNegate,
            FpSimdOperands { opc: 1, vector_128: false, ..operands() }
        ),
        VectorPlan::Signs { signs: 1 << 63, flip: true, width: 64 }
    );
    assert_eq!(
        plan(
            FpSimdKind::ModifiedImmediate,
            FpSimdOperands { cmode: 1, immediate_8: 1, operation_bit: true, ..operands() }
        ),
        VectorPlan::Constant {
            value: 0xffff_fffe_ffff_fffe_ffff_fffe_ffff_fffe,
            combine: Combine::And,
            full: true,
        }
    );
    assert_eq!(
        refused(FpSimdKind::ScalarFloatImmediate, FpSimdOperands { opc: 2, ..operands() }),
        "invalid scalar FP immediate width"
    );
}

#[test]
fn lane_computations_have_plans() {
    assert_eq!(
        plan(FpSimdKind::Integer, FpSimdOperands { opc: 2, subtract: true, ..operands() }),
        VectorPlan::Lanes {
            operation: LaneOperation::Subtract,
            bits: 32,
            with_zero: false,
            full: true,
        }
    );
    assert_eq!(
        plan(
            FpSimdKind::VectorShiftRightImmediate,
            FpSimdOperands { shift_immediate: 32, operation_bit: true, ..operands() }
        ),
        VectorPlan::Shift { bits: 32, action: ShiftAction::Zero, full: true }
    );
    assert_eq!(
        plan(
            FpSimdKind::ScalarShiftRightImmediate,
            FpSimdOperands { shift_immediate: 64, ..operands() }
        ),
        VectorPlan::Shift {
            bits: 64,
            action: ShiftAction::Arithmetic { distance: 63 },
            full: false,
        }
    );
    assert_eq!(
        plan(
            FpSimdKind::ShiftLeftLong,
            FpSimdOperands { shift_immediate: 17, ..operands() }
        ),
        VectorPlan::Lengthen { bits: 16, shift: 1, unsigned: false, first: 4, count: 4 }
    );
    assert_eq!(
        refused(
            FpSimdKind::ShiftLeftLong,
            FpSimdOperands { shift_immediate: 64, ..operands() }
        ),
        "invalid SIMD lane width"
    );
    let VectorPlan::Narrow { bits, shift, above, .. } = plan(
        FpSimdKind::ShiftRightNarrow,
        FpSimdOperands { shift_immediate: 13, ..operands() },
    ) else {
        panic!("a narrowing plan");
    };
    assert_eq!((bits, shift, above.is_some()), (16, 3, true));
}

#[test]
fn host_arithmetic_is_guarded() {
    let instruction = FpSimdInstruction {
        kind: FpSimdKind::ScalarFloatDivide,
        operands: FpSimdOperands { opc: 1, ..operands() },
    };
    let plan = emit_fp_simd(instruction, HostAbi::X86_64).unwrap();
    let VectorPlan::ScalarArithmetic(native) = plan.native else {
        panic!("a host path");
    };
    assert!(native.wide);
    assert_eq!(native.operation, HostOperation::Divide);
    assert_eq!(
        plan.checks,
        vec![
            FpCheck::FiniteOrZero { register: 2, first: 0, count: 1 },
            FpCheck::FiniteOrZero { register: 3, first: 0, count: 1 },
            FpCheck::Nonzero { register: 3, first: 0, count: 1 },
            FpCheck::NativeEnabled,
        ]
    );
    assert_eq!(plan.exact.unwrap().helper, ColdHelper::Binary);
    let root = emit_fp_simd(
        FpSimdInstruction { kind: FpSimdKind::ScalarFloatSquareRoot, operands: operands() },
        HostAbi::X86_64,
    )
    .unwrap();
    assert!(matches!(root.native, VectorPlan::ScalarArithmetic(_)));
    assert_eq!(root.checks[1], FpCheck::NotNegative { register: 2 });
}

#[test]
fn host_paths_have_conditions() {
    let checks = |kind: FpSimdKind, operands: FpSimdOperands| {
        host_checks(FpSimdInstruction { kind, operands })
    };
    let low = FpCheck::FiniteOrZero { register: 2, first: 0, count: 1 };
    assert_eq!(checks(FpSimdKind::ScalarFloatRound, operands()), vec![low]);
    assert_eq!(checks(FpSimdKind::CompareZero, operands()), vec![low]);
    assert_eq!(
        checks(FpSimdKind::CompareRegister, operands()),
        vec![low, FpCheck::FiniteOrZero { register: 3, first: 0, count: 1 }]
    );
    assert_eq!(
        checks(FpSimdKind::ScalarFloatConvert, operands()),
        vec![low, FpCheck::NativeEnabled]
    );
    assert_eq!(
        checks(FpSimdKind::UnsignedIntToFloat, operands()),
        vec![FpCheck::NativeEnabled]
    );
    assert_eq!(
        checks(
            FpSimdKind::VectorFloatDivide,
            FpSimdOperands { opc: 0, vector_128: true, ..operands() }
        ),
        vec![
            FpCheck::FiniteOrZero { register: 2, first: 0, count: 4 },
            FpCheck::FiniteOrZero { register: 3, first: 0, count: 4 },
            FpCheck::Nonzero { register: 3, first: 0, count: 4 },
            FpCheck::NativeEnabled,
        ]
    );
    assert_eq!(
        checks(
            FpSimdKind::VectorFloatMultiplyElement,
            FpSimdOperands { opc: 1, fp_element_lane: 1, ..operands() }
        ),
        vec![
            FpCheck::FiniteOrZero { register: 3, first: 1, count: 1 },
            FpCheck::FiniteOrZero { register: 2, first: 0, count: 2 },
            FpCheck::NativeEnabled,
        ]
    );
    let plan = emit_fp_simd(
        FpSimdInstruction { kind: FpSimdKind::Integer, operands: operands() },
        HostAbi::X86_64,
    )
    .unwrap();
    assert!(plan.checks.is_empty());
}

#[test]
fn rounding_depends_on_the_host() {
    let instruction =
        FpSimdInstruction { kind: FpSimdKind::ScalarFloatRound, operands: operands() };
    assert_eq!(
        emit_fp_simd(instruction, HostAbi::Aarch64).unwrap().native,
        VectorPlan::Round { wide: false, rounding: HostRounding::Truncate }
    );
    assert_eq!(
        emit_fp_simd(instruction, HostAbi::X86_64).unwrap().native,
        VectorPlan::Exact
    );
}

#[test]
fn conversions_have_ranges() {
    assert_eq!(
        plan(FpSimdKind::FloatToSignedInt, FpSimdOperands { opc: 1, ..operands() }),
        VectorPlan::ToInteger {
            unsigned: false,
            integer_64: false,
            wide: true,
            range: IntegerRange {
                lower: (-2147483648.0_f64).to_bits(),
                upper: 2147483648.0_f64.to_bits(),
            },
        }
    );
}

#[test]
fn cold_calls_carry_their_shape() {
    let call = emit_typed_fp_cold(FpSimdInstruction {
        kind: FpSimdKind::FloatToUnsignedInt,
        operands: FpSimdOperands {
            opc: 1,
            size: 2,
            rd: 31,
            float_to_integer_rounding: Some(FloatToIntegerRounding::TowardNegative),
            ..operands()
        },
    })
    .unwrap();
    assert_eq!(call.helper, ColdHelper::FloatToInteger);
    assert_eq!(call.operands, vec![ColdOperand::Low { register: 2 }]);
    assert_eq!(call.shape, 0xff_03_02_01_01);
    assert_eq!(call.output, ColdOutput::General { destination: None });
    let compare = emit_typed_fp_cold(FpSimdInstruction {
        kind: FpSimdKind::CompareZero,
        operands: FpSimdOperands { signaling_compare: true, ..operands() },
    })
    .unwrap();
    assert_eq!(
        compare.operands,
        vec![ColdOperand::Low { register: 2 }, ColdOperand::Zero]
    );
    assert!(compare.passes_flags);
    assert_eq!(compare.output, ColdOutput::Flags);
    assert_eq!(
        emit_typed_fp_cold(FpSimdInstruction { kind: FpSimdKind::Integer, operands: operands() })
            .unwrap_err()
            .detail,
        "A64 FP instruction lacks an exact typed boundary"
    );
}

#[test]
fn boundaries_are_chosen_by_their_parameters() {
    let boundaries = ColdCallBoundaries {
        general_0: 10,
        general_1: 11,
        general_2: 12,
        general_3: 13,
        general_5: 15,
        fp_scalar: 21,
        fp_unary: 22,
        fp_binary: 24,
        fp_fused: 23,
        fp_compare: 32,
        materialize_fp: 40,
    };
    assert_eq!(boundaries.general(5).unwrap(), 15);
    assert_eq!(
        boundaries.general(4).unwrap_err().detail,
        "direct JIT slow call has no typed cold boundary"
    );
    assert_eq!(boundaries.fp(2, 1).unwrap(), 32);
    assert_eq!(boundaries.fp(4, 0).unwrap(), 24);
    assert_eq!(
        boundaries.fp(1, 1).unwrap_err().detail,
        "direct JIT exact FP call has no typed cold boundary"
    );
}

#[test]
fn vector_memory_is_addressed() {
    let VectorPlan::Access(access) = plan(
        FpSimdKind::MemoryUnsigned,
        FpSimdOperands { immediate_12: 5, load: true, ..operands() },
    ) else {
        panic!("an access");
    };
    assert_eq!(access.address, VectorAddress::Displaced { offset: 40 });
    assert_eq!(access.writeback, None);
    let VectorPlan::Access(access) = plan(
        FpSimdKind::MemoryPostIndex,
        FpSimdOperands { immediate_9: 0x1f0, ..operands() },
    ) else {
        panic!("an access");
    };
    assert_eq!(access.address, VectorAddress::Displaced { offset: 0 });
    assert_eq!(access.writeback, Some(-16));
    let VectorPlan::Access(access) = plan(
        FpSimdKind::MemoryRegister,
        FpSimdOperands { option: 6, scaled: true, ..operands() },
    ) else {
        panic!("an access");
    };
    assert_eq!(
        access.address,
        VectorAddress::Indexed { register: 3, extension: Extension::SignedWord, shift: 3 }
    );
    assert_eq!(
        refused(FpSimdKind::MemoryRegister, operands()),
        "invalid SIMD register-offset extension"
    );
    assert_eq!(
        refused(
            FpSimdKind::MemoryUnscaled,
            FpSimdOperands { access_size: None, ..operands() }
        ),
        "invalid SIMD transfer size"
    );
    let VectorPlan::Pair(pair) = plan(
        FpSimdKind::MemoryPair,
        FpSimdOperands { immediate_7: 0x7e, mode: 3, ..operands() },
    ) else {
        panic!("a pair");
    };
    assert_eq!((pair.first_offset, pair.second_offset), (-16, -8));
    assert_eq!(pair.writeback, Some(-16));
}

fn shape(registers: u8, repetitions: u8, mode: SimdMemoryMode) -> StructureShape {
    StructureShape {
        element_size: MemoryAccessSize::Word,
        vector_bytes: 16,
        structure_registers: registers,
        repetitions,
        elements_per_register: 4,
        immediate_post_index: 32,
        mode,
    }
}

#[test]
fn structures_are_transferred_lane_by_lane() {
    let VectorPlan::Structure(access) = plan(
        FpSimdKind::MemoryMultipleStructuresPostIndex,
        FpSimdOperands {
            rd: 31,
            rm: 31,
            load: true,
            structure: Some(shape(2, 1, SimdMemoryMode::Multiple)),
            ..operands()
        },
    ) else {
        panic!("a structure access");
    };
    assert_eq!(access.elements.len(), 8);
    assert_eq!(
        (access.elements[3].register, access.elements[3].displacement),
        (0, 12)
    );
    assert_eq!(access.elements[3].part, ElementPart::Lane { lane: 1 });
    assert_eq!(access.step, StructureStep::Bytes { count: 32 });
    let VectorPlan::Structure(access) = plan(
        FpSimdKind::MemorySingleStructure,
        FpSimdOperands {
            vector_128: false,
            structure: Some(shape(3, 1, SimdMemoryMode::Replicate)),
            ..operands()
        },
    ) else {
        panic!("a structure access");
    };
    assert!(access.load);
    assert_eq!(access.cleared, vec![1, 2, 3]);
    assert_eq!(access.elements[2].displacement, 8);
    let error = emit_fp_simd(
        FpSimdInstruction {
            kind: FpSimdKind::MemorySingleStructure,
            operands: FpSimdOperands {
                structure: Some(shape(1, 1, SimdMemoryMode::Multiple)),
                ..operands()
            },
        },
        HostAbi::X86_64,
    )
    .unwrap_err();
    assert_eq!(error.detail, "single-structure shape selected multiple mode");
}

#[test]
fn lanes_shift_in_stages() {
    assert_eq!(shift_stages(8), vec![1, 2, 4]);
    assert_eq!(shift_stages(64), vec![1, 2, 4, 8, 16, 32]);
    for distance in 0_u32..16 {
        let mut left = 0x8421_u16;
        let mut right = 0x8421_u16;
        for amount in shift_stages(16) {
            if distance & amount != 0 {
                left <<= amount;
                right >>= amount;
            }
        }
        assert_eq!((left, right), (0x8421_u16 << distance, 0x8421_u16 >> distance));
    }
    let shifted = plan(
        FpSimdKind::VectorSignedShiftRegister,
        FpSimdOperands { opc: 2, vector_128: true, ..operands() },
    );
    assert_eq!(
        shifted,
        VectorPlan::ShiftByRegister {
            bits: 32,
            stages: vec![1, 2, 4, 8, 16],
            signed: true,
            full: true,
        }
    );
}
