use pipetool::ends::{output, In, InStep, Out, OutPiece};
use pipetool::item::{PipeType, PipeTypeHint};
use pipetool::source::GenerateByte;
use pipetool::window::Take;

fn block(bytes: &[u8]) -> [u8; 32] {
    let mut data = [0u8; 32];
    data[..bytes.len()].copy_from_slice(bytes);
    data
}

fn byte_of(step: InStep) -> Option<u8> {
    match step {
        InStep::Item(PipeType::Byte(b)) => Some(b),
        _ => None,
    }
}

#[test]
fn in_asks_for_a_read_first() {
    let mut input = In::new();
    assert!(matches!(input.next_step(), InStep::Read));
    assert_eq!(input.size_hint(), None);
    assert_eq!(input.type_hint(), PipeTypeHint::Byte);
}

#[test]
fn in_reads_until_a_read_finds_nothing() {
    let mut input = In::new();
    assert!(matches!(input.next_step(), InStep::Read));
    let first = input.complete_read(Some((block(b"abc"), 3)));
    assert!(matches!(first, Some(PipeType::Byte(b'a'))));
    assert_eq!(byte_of(input.next_step()), Some(b'b'));
    assert_eq!(byte_of(input.next_step()), Some(b'c'));
    assert!(matches!(input.next_step(), InStep::Read));
    let target = input.read_target();
    let mut data = target;
    data[..2].copy_from_slice(b"de");
    assert!(matches!(input.complete_read(Some((data, 2))), Some(PipeType::Byte(b'd'))));
    assert_eq!(byte_of(input.next_step()), Some(b'e'));
    assert!(matches!(input.next_step(), InStep::Read));
    assert!(input.complete_read(Some((input.read_target(), 0))).is_none());
    assert!(matches!(input.next_step(), InStep::Done));
    assert!(matches!(input.next_step(), InStep::Done));
}

#[test]
fn in_reads_again_after_a_full_buffer() {
    let mut input = In::new();
    assert!(matches!(input.next_step(), InStep::Read));
    let full = [7u8; 32];
    assert!(matches!(input.complete_read(Some((full, 32))), Some(PipeType::Byte(7))));
    for _ in 1..32 {
        assert_eq!(byte_of(input.next_step()), Some(7));
    }
    assert!(matches!(input.next_step(), InStep::Read));
    let target = input.read_target();
    assert_eq!(target, full);
}

#[test]
fn in_of_an_empty_input_ends_at_once() {
    let mut input = In::new();
    assert!(matches!(input.next_step(), InStep::Read));
    assert!(input.complete_read(Some((block(&[9]), 0))).is_none());
    assert!(matches!(input.next_step(), InStep::Done));
}

#[test]
fn in_ends_after_a_failed_read() {
    let mut input = In::new();
    assert!(matches!(input.next_step(), InStep::Read));
    assert!(input.complete_read(None).is_none());
    assert!(matches!(input.next_step(), InStep::Done));
}

fn raw(pieces: &[OutPiece]) -> Vec<u8> {
    pieces
        .iter()
        .map(|p| match p {
            OutPiece::Raw(b) => *b,
            OutPiece::Num(_) => panic!("unexpected number"),
        })
        .collect()
}

#[test]
fn output_of_bytes_and_chars() {
    assert_eq!(raw(&output(&PipeType::Byte(0xff))), vec![0xff]);
    assert_eq!(raw(&output(&PipeType::Char('é'))), vec![0xC3, 0xA9]);
    assert_eq!(raw(&output(&PipeType::Char('a'))), vec![b'a']);
}

#[test]
fn output_of_a_number() {
    let bits = 1.25f64.to_bits();
    let pieces = output(&PipeType::Num(bits));
    assert_eq!(pieces.len(), 1);
    assert!(matches!(pieces[0], OutPiece::Num(n) if n == bits));
}

#[test]
fn output_of_a_group_ends_the_line() {
    let group = PipeType::Multi(vec![Some(PipeType::Byte(b'x')), None, Some(PipeType::Char('y'))]);
    assert_eq!(raw(&output(&group)), b"xy\n".to_vec());
    let nested = PipeType::Multi(vec![Some(PipeType::Multi(vec![Some(PipeType::Byte(b'a'))])), None]);
    assert_eq!(raw(&output(&nested)), b"a\n\n".to_vec());
    assert_eq!(raw(&output(&PipeType::Multi(vec![]))), b"\n".to_vec());
}

#[test]
fn out_pulls_until_the_input_ends() {
    let mut out = Out::new(Take::new(GenerateByte::new(b'k'), 2));
    assert_eq!(out.type_hint(), PipeTypeHint::Nothing);
    assert_eq!(out.size_hint(), None);
    assert_eq!(raw(&out.pull().unwrap()), vec![b'k']);
    assert_eq!(raw(&out.pull().unwrap()), vec![b'k']);
    assert!(out.pull().is_none());
}
