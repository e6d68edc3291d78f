use magic_paper::waveform::{fast, graded, hybrid, phases, probe, TABLE_BYTES, VSH1, VSL, VSS};

fn table(luts: [u8; 4], timing: [u8; 5]) -> Vec<u8> {
    let mut ws = vec![0u8; TABLE_BYTES];
    ws[0] = luts[0];
    ws[10] = luts[1];
    ws[20] = luts[2];
    ws[30] = luts[3];
    ws[50..55].copy_from_slice(&timing);
    ws[100..105].fill(0x22);
    ws
}

#[test]
fn phases_pack_from_the_top() {
    assert_eq!(phases(VSL, VSS, VSH1, 0b11), 0b10_00_01_11);
    assert_eq!(phases(VSH1, VSH1, VSH1, VSH1), 0x55);
}

#[test]
fn the_probe_drives_each_lut_differently() {
    assert_eq!(probe(), table([0x55, 0x54, 0x50, 0x40], [5, 5, 5, 5, 0]));
}

#[test]
fn the_hybrid_waveform_drives_transitions_only() {
    assert_eq!(hybrid(7), table([0, 0x80, 0x40, 0], [7, 0, 0, 0, 0]));
}

#[test]
fn the_graded_waveform_has_two_strengths() {
    assert_eq!(graded(1, 1), table([0, 0x40, 0x50, 0], [1, 0, 0, 0, 0]));
    assert_eq!(graded(2, 9), table([0, 0x40, 0x50, 0], [2, 7, 0, 0, 0]));
    // Whichever is owed more gets the second phase.
    assert_eq!(graded(2, 1), table([0, 0x50, 0x40, 0], [1, 1, 0, 0, 0]));
    assert_eq!(graded(9, 0), table([0, 0x50, 0x40, 0], [0, 9, 0, 0, 0]));
}

#[test]
fn the_fast_waveform_drives_every_pixel() {
    assert_eq!(fast(5), table([0x40, 0x80, 0x40, 0x80], [5, 0, 0, 0, 0]));
}
