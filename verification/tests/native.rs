//! Straight-line code becomes Cranelift instructions, one for one.

use cranelift_codegen::ir::{types, AbiParam, Function};
use cranelift_frontend::{FunctionBuilder, FunctionBuilderContext};
use ryzr::jit::Ins;
use ryzr::native::{build_settle, build_words, MAX_PARAMS};
use ryzr::pack_jit::WordIns;

/// The instructions of a function over `params` pointers, as text.
fn listing(params: usize, build: impl Fn(&mut FunctionBuilder<'_>)) -> Vec<String> {
    let mut func = Function::new();
    for _ in 0..params {
        func.signature.params.push(AbiParam::new(types::I64));
    }
    let mut ctx = FunctionBuilderContext::new();
    let mut fb = FunctionBuilder::new(&mut func, &mut ctx);
    build(&mut fb);
    fb.finalize();
    let block = func.layout.entry_block().unwrap();
    func.layout.block_insts(block).map(|inst| format!("{}", func.dfg.display_inst(inst))).collect()
}

fn byte_code() -> Vec<Ins> {
    vec![
        Ins::Load(3),
        Ins::Load(5),
        Ins::And(0, 1),
        Ins::Or(0, 2),
        Ins::Xor(3, 1),
        Ins::Invert(4),
        Ins::Store(7, 5),
        Ins::Mux(6, 0, 1),
        Ins::Store(8, 7),
    ]
}

#[test]
fn byte_code_becomes_byte_instructions() {
    let text = listing(1, |fb| {
        let (base, vals) = build_settle(fb, &byte_code(), 9, false).unwrap();
        assert!(!vals.contains(&base));
        // A store has no result: it stands for what it stored.
        assert_eq!(vals[6], vals[5]);
        assert_eq!(vals[8], vals[7]);
        assert_ne!(vals[2], vals[3]);
    });
    assert_eq!(
        text,
        vec![
            "v1 = load.i8 notrap aligned v0+3",
            "v2 = load.i8 notrap aligned v0+5",
            "v3 = band.i8 v1, v2",
            "v4 = bor.i8 v1, v3",
            "v5 = bxor.i8 v4, v2",
            "v6 = bxor_imm.i8 v5, 1",
            "store.i8 notrap aligned v6, v0+7",
            "v7 = select.i8 v6, v1, v2",
            "store.i8 notrap aligned v7, v0+8",
            "return",
        ]
    );
}

#[test]
fn byte_code_becomes_lane_instructions() {
    let text = listing(1, |fb| {
        assert!(build_settle(fb, &byte_code(), 9, true).is_some());
    });
    assert_eq!(
        text,
        vec![
            "v1 = load.i64 notrap aligned v0+24",
            "v2 = load.i64 notrap aligned v0+40",
            "v3 = band.i64 v1, v2",
            "v4 = bor.i64 v1, v3",
            "v5 = bxor.i64 v4, v2",
            "v6 = bnot.i64 v5",
            "store.i64 notrap aligned v6, v0+56",
            "v7 = bitselect.i64 v6, v1, v2",
            "store.i64 notrap aligned v7, v0+64",
            "return",
        ]
    );
}

#[test]
fn word_code_becomes_word_instructions() {
    let code = vec![
        WordIns::Const(0xff),
        WordIns::Load(2),
        WordIns::Shr(1, 3),
        WordIns::Shl(2, 61),
        WordIns::Spread(3),
        WordIns::Mask(4, 0xf0f0),
        WordIns::And(0, 5),
        WordIns::Or(6, 1),
        WordIns::Xor(7, 2),
        WordIns::Not(8),
        WordIns::Select(9, 1, 2),
        WordIns::Add(10, 0),
        WordIns::Store(4, 11),
        WordIns::Stage(1, 12),
    ];
    let text = listing(2, |fb| {
        let (base, staging, vals) = build_words(fb, &code, 5, 2).unwrap();
        assert_ne!(base, staging);
        assert_eq!(vals[12], vals[11]);
        assert_eq!(vals[13], vals[11]);
    });
    assert_eq!(
        text,
        vec![
            "v2 = iconst.i64 255",
            "v3 = load.i64 notrap aligned v0+16",
            "v4 = ushr_imm.i64 v3, 3",
            "v5 = ishl_imm.i64 v4, 61",
            "v6 = sshr_imm.i64 v5, 63",
            "v7 = band_imm.i64 v6, 0xf0f0",
            "v8 = band.i64 v2, v7  ; v2 = 255",
            "v9 = bor.i64 v8, v3",
            "v10 = bxor.i64 v9, v4",
            "v11 = bnot.i64 v10",
            "v12 = bitselect.i64 v11, v3, v4",
            "v13 = iadd.i64 v12, v2  ; v2 = 255",
            "store.i64 notrap aligned v13, v0+32",
            "store.i64 notrap aligned v13, v1+8",
            "return",
        ]
    );
}

#[test]
fn functions_need_their_pointers_and_a_free_builder() {
    let code = vec![Ins::Load(0), Ins::Store(1, 0)];
    let text = listing(1, |fb| {
        // One pointer is too few for a chunk.
        assert!(build_words(fb, &vec![WordIns::Const(1)], 1, 1).is_none());
        assert!(build_settle(fb, &code, 2, false).is_some());
        // The builder is in use now.
        assert!(build_settle(fb, &code, 2, false).is_none());
    });
    assert_eq!(
        text,
        vec!["v1 = load.i8 notrap aligned v0", "store.i8 notrap aligned v1, v0+1", "return"]
    );
}

#[test]
fn functions_take_no_more_parameters_than_a_block_can_have() {
    let mut func = Function::new();
    for _ in 0..MAX_PARAMS {
        func.signature.params.push(AbiParam::new(types::I64));
    }
    let mut ctx = FunctionBuilderContext::new();
    let mut fb = FunctionBuilder::new(&mut func, &mut ctx);
    fb.func.signature.params.push(AbiParam::new(types::I64));
    assert!(build_settle(&mut fb, &vec![Ins::Load(0)], 1, false).is_none());
    assert!(build_words(&mut fb, &vec![WordIns::Const(1)], 1, 1).is_none());
    fb.func.signature.params.pop();
    assert!(build_settle(&mut fb, &vec![Ins::Load(0)], 1, false).is_some());
}

#[test]
fn code_starts_an_empty_function() {
    let mut func = Function::new();
    func.signature.params.push(AbiParam::new(types::I64));
    let old = func.dfg.make_block();
    func.layout.append_block(old);
    let mut ctx = FunctionBuilderContext::new();
    let mut fb = FunctionBuilder::new(&mut func, &mut ctx);
    // The function starts elsewhere already.
    assert!(build_settle(&mut fb, &vec![Ins::Load(0)], 1, false).is_none());
    fb.func.layout.remove_block(old);
    let (base, _) = build_settle(&mut fb, &vec![Ins::Load(0)], 1, false).unwrap();
    let entry = fb.func.layout.entry_block().unwrap();
    assert_eq!(fb.block_params(entry), &[base]);
}

#[test]
fn pointers_are_the_parameters_in_order() {
    let mut func = Function::new();
    for _ in 0..3 {
        func.signature.params.push(AbiParam::new(types::I64));
    }
    let mut ctx = FunctionBuilderContext::new();
    let mut fb = FunctionBuilder::new(&mut func, &mut ctx);
    let (base, staging, _) = build_words(&mut fb, &vec![WordIns::Const(1)], 1, 1).unwrap();
    let entry = fb.func.layout.entry_block().unwrap();
    assert_eq!(fb.block_params(entry).len(), 3);
    assert_eq!(&fb.block_params(entry)[..2], &[base, staging]);
}
