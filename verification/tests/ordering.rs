use lisa_enumeration::instruction::{Instruction, MAX_INSTRUCTION_LEN};

fn instr(bytes: &[u8]) -> Instruction {
    Instruction::new(bytes.to_vec()).expect("between one and fifteen bytes")
}

#[test]
fn new_accepts_one_to_fifteen_bytes() {
    assert!(Instruction::new(vec![]).is_none());
    assert!(Instruction::new(vec![0x90]).is_some());
    assert!(Instruction::new(vec![0xFF; MAX_INSTRUCTION_LEN]).is_some());
    assert!(Instruction::new(vec![0x00; MAX_INSTRUCTION_LEN + 1]).is_none());
    assert_eq!(instr(&[0xAB, 0x01]).bytes(), &vec![0xAB, 0x01]);
    assert_eq!(instr(&[0xAB, 0x01]).len(), 2);
    assert_eq!(Instruction::single(0x42).bytes(), &vec![0x42]);
}

#[test]
fn order_is_lexicographic_with_prefixes_first() {
    let a = instr(&[0x0F]);
    let b = instr(&[0x0F, 0x00]);
    let c = instr(&[0x0F, 0x01]);
    let d = instr(&[0x10]);
    assert!(a.lt(&b));
    assert!(b.lt(&c));
    assert!(c.lt(&d));
    assert!(a.lt(&d));
    assert!(!b.lt(&a));
    assert!(!a.lt(&a));
    assert!(a.le(&a));
    assert!(a.le(&b));
    assert!(!d.le(&c));
    assert!(a.same(&instr(&[0x0F])));
    assert!(!a.same(&b));
}

#[test]
fn order_agrees_with_the_order_of_byte_vectors() {
    let samples: Vec<Vec<u8>> = vec![
        vec![0x00],
        vec![0x00, 0x00],
        vec![0x00, 0xFF],
        vec![0x01],
        vec![0x7F, 0x80, 0x00],
        vec![0x7F, 0x80],
        vec![0xFF],
        vec![0xFF; 15],
        vec![0xFE, 0xFF, 0xFF],
    ];
    for x in &samples {
        for y in &samples {
            let (ix, iy) = (instr(x), instr(y));
            assert_eq!(ix.lt(&iy), x < y);
            assert_eq!(ix.le(&iy), x <= y);
            assert_eq!(ix.same(&iy), x == y);
        }
    }
}

#[test]
fn successor_appends_zero_or_carries() {
    assert_eq!(instr(&[0x00]).successor().unwrap().bytes(), &vec![0x00, 0x00]);
    let mut full = vec![0x12; 15];
    let mut next = full.clone();
    next[14] = 0x13;
    assert_eq!(instr(&full).successor().unwrap().bytes(), &next);
    full[13] = 0xFF;
    full[14] = 0xFF;
    let mut carried = vec![0x12; 13];
    carried[12] = 0x13;
    assert_eq!(instr(&full).successor().unwrap().bytes(), &carried);
    assert!(instr(&[0xFF; 15]).successor().is_none());
}

#[test]
fn after_subtree_skips_all_extensions() {
    let i = instr(&[0x0F, 0xFF, 0x05]);
    assert_eq!(i.after_subtree(3).unwrap().bytes(), &vec![0x0F, 0xFF, 0x06]);
    assert_eq!(i.after_subtree(2).unwrap().bytes(), &vec![0x10]);
    assert_eq!(i.after_subtree(1).unwrap().bytes(), &vec![0x10]);
    assert!(instr(&[0xFF, 0xFF, 0x00]).after_subtree(2).is_none());
}

#[test]
fn predecessor_undoes_successor() {
    assert!(instr(&[0x00]).predecessor().is_none());
    assert_eq!(instr(&[0x00, 0x00]).predecessor().unwrap().bytes(), &vec![0x00]);
    let mut expected = vec![0xFF; 15];
    expected[0] = 0x3F;
    assert_eq!(instr(&[0x40]).predecessor().unwrap().bytes(), &expected);
    let samples: Vec<Vec<u8>> =
        vec![vec![0x40], vec![0x00, 0x00], vec![0x01, 0x00, 0x07], vec![0xFF; 15], vec![0x80; 15]];
    for s in &samples {
        let p = instr(s).predecessor().unwrap();
        assert!(p.lt(&instr(s)));
        assert_eq!(p.successor().unwrap().bytes(), s);
    }
}

#[test]
fn clone_keeps_the_bytes() {
    let i = instr(&[1, 2, 3]);
    assert_eq!(i.clone(), i);
}
