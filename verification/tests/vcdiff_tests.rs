use smdiff::common::{Add, CopySrc, Op, Run, MAX_WIN_SIZE};
use smdiff::vcdiff::{vcd_convert_finish, vcd_convert_step, VcdConvState, VcdCopy, VcdEvent};

fn step(st: VcdConvState, ev: VcdEvent) -> (VcdConvState, usize) {
    let (st, sections) = vcd_convert_step(st, ev);
    (st, sections.len())
}

#[test]
fn vcd_events_become_ops() {
    let st = VcdConvState::new();
    let (st, n1) = step(st, VcdEvent::Window { ssp: Some(10), target_source: false });
    let (st, n2) = step(st, VcdEvent::Add(b"hello".to_vec()));
    let (st, n3) = step(st, VcdEvent::Run { byte: b'x', len: 70 });
    let (st, n4) = step(st, VcdEvent::Copy { kind: VcdCopy::S { u_pos: 2 }, len_in_u: 3, len_in_o: 3 });
    let (st, n5) = step(st, VcdEvent::Copy { kind: VcdCopy::T { inst_u_pos_start: 7, u_pos: 5 }, len_in_u: 4, len_in_o: 4 });
    let (st, n6) = step(st, VcdEvent::EndOfWindow);
    assert_eq!((n1, n2, n3, n4, n5, n6), (0, 0, 0, 0, 0, 0));
    assert_eq!(st.o_pos, 5 + 70 + 3 + 4);
    assert_eq!(st.ssp, None);
    let (ops, header) = vcd_convert_finish(st);
    assert_eq!(ops, vec![
        Op::Add(Add { bytes: b"hello".to_vec() }),
        Op::Run(Run { byte: b'x', len: 62 }),
        Op::Run(Run { byte: b'x', len: 8 }),
        Op::Copy(smdiff::common::Copy { src: CopySrc::Dict, addr: 12, len: 3 }),
        Op::Copy(smdiff::common::Copy { src: CopySrc::Output, addr: 76, len: 4 }),
    ]);
    assert_eq!(header.num_operations, 5);
    assert_eq!(header.num_add_bytes, 5);
    assert_eq!(header.output_size, 82);
    assert!(!header.more_sections);
}

#[test]
fn vcd_repeated_copy_repeats_the_slice() {
    let st = VcdConvState::new();
    let (st, _) = step(st, VcdEvent::Add(b"ter".to_vec()));
    let (st, _) = step(st, VcdEvent::Copy { kind: VcdCopy::Q { len_o: 5 }, len_in_u: 7, len_in_o: 5 });
    let (ops, header) = vcd_convert_finish(st);
    assert_eq!(ops[1..].to_vec(), vec![
        Op::Copy(smdiff::common::Copy { src: CopySrc::Output, addr: 1, len: 2 }),
        Op::Copy(smdiff::common::Copy { src: CopySrc::Output, addr: 1, len: 2 }),
        Op::Copy(smdiff::common::Copy { src: CopySrc::Output, addr: 1, len: 1 }),
    ]);
    assert_eq!(header.output_size, 8);
}

#[test]
fn vcd_section_closes_when_full() {
    let st = VcdConvState::new();
    let (st, n1) = step(st, VcdEvent::Run { byte: 0, len: MAX_WIN_SIZE as u32 - 10 });
    let (st, sections) = vcd_convert_step(st, VcdEvent::Add(vec![1u8; 20]));
    assert_eq!(n1, 0);
    assert_eq!(sections.len(), 1);
    assert_eq!(sections[0].1.output_size as usize, MAX_WIN_SIZE - 10);
    assert!(sections[0].1.more_sections);
    let (ops, header) = vcd_convert_finish(st);
    assert_eq!(ops, vec![Op::Add(Add { bytes: vec![1u8; 20] })]);
    assert_eq!(header.output_size, 20);
}
