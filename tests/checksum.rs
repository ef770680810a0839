use puyomdtool::fix_checksum::FixChecksum;
use puyomdtool::PMDTError;

#[test]
fn short_rom_is_rejected() {
    let mut rom = vec![0u8; 0x201];
    assert_eq!(FixChecksum::fix(&mut rom), Err(PMDTError::InvalidRomSize));
    assert_eq!(rom, vec![0u8; 0x201]);
}

#[test]
fn correct_checksum_is_left_alone() {
    let mut rom = vec![0u8; 0x204];
    rom[0x200] = 0x12;
    rom[0x201] = 0x34;
    rom[0x18E] = 0x12;
    rom[0x18F] = 0x34;
    let before = rom.clone();
    assert_eq!(FixChecksum::fix(&mut rom), Ok((0x1234, 0x1234)));
    assert_eq!(rom, before);
}

#[test]
fn wrong_checksum_is_rewritten_with_wrapping_sum() {
    let mut rom = vec![0u8; 0x205];
    rom[0x200] = 0x01;
    rom[0x201] = 0x02;
    rom[0x202] = 0xFF;
    rom[0x203] = 0xFF;
    rom[0x204] = 0x77;
    assert_eq!(FixChecksum::fix(&mut rom), Ok((0x0000, 0x0101)));
    assert_eq!(rom[0x18E], 0x01);
    assert_eq!(rom[0x18F], 0x01);
}
