//! Waveform tables written to the controller in place of those in its OTP.
//!
//! A table holds five LUTs of ten bytes, ten groups of phase lengths and five
//! frame rate bytes. Only the first group of each LUT is used here. Its byte
//! packs four phases of two bits, phase A in the top pair; a level drives the
//! pixel for as many frames as its phase is long.
//!
//! The controller picks a pixel's LUT by `(previous << 1) | current`, where a
//! set bit is white.

use vstd::prelude::*;

verus! {

/// Levels of a phase. VSH1 drives a pixel black, VSL drives it white.
pub const VSS: u8 = 0b00;

pub const VSH1: u8 = 0b01;

pub const VSL: u8 = 0b10;

/// Bytes in a table.
pub const TABLE_BYTES: usize = 105;

/// The frame rate byte that every table of the panel's maker uses.
pub const FRAME_RATE: u8 = 0x22;

/// Four phases in one byte.
pub open spec fn packed(a: u8, b: u8, c: u8, d: u8) -> u8 {
    a << 6 | b << 4 | c << 2 | d
}

/// Packs the four phases of a group, phase A in the top pair.
pub fn phases(a: u8, b: u8, c: u8, d: u8) -> (byte: u8)
    ensures
        byte == packed(a, b, c, d),
{
    a << 6 | b << 4 | c << 2 | d
}

/// The table whose LUTs 0 to 3 start with `luts` and whose first group has the
/// phase lengths and the repeat count `timing`.
pub open spec fn table_of(luts: Seq<u8>, timing: Seq<u8>) -> Seq<u8> {
    Seq::new(
        TABLE_BYTES as nat,
        |i: int|
            if i == 0 || i == 10 || i == 20 || i == 30 {
                luts[i / 10]
            } else if 50 <= i < 55 {
                timing[i - 50]
            } else if i >= 100 {
                FRAME_RATE
            } else {
                0u8
            },
    )
}

fn table(luts: [u8; 4], timing: [u8; 5]) -> (ws: Vec<u8>)
    ensures
        ws@ == table_of(luts@, timing@),
{
    let mut ws: Vec<u8> = vec![0u8; TABLE_BYTES];
    ws[0] = luts[0];
    ws[10] = luts[1];
    ws[20] = luts[2];
    ws[30] = luts[3];
    ws[50] = timing[0];
    ws[51] = timing[1];
    ws[52] = timing[2];
    ws[53] = timing[3];
    ws[54] = timing[4];
    ws[100] = FRAME_RATE;
    ws[101] = FRAME_RATE;
    ws[102] = FRAME_RATE;
    ws[103] = FRAME_RATE;
    ws[104] = FRAME_RATE;
    assert(ws@ =~= table_of(luts@, timing@));
    ws
}

/// A level of a LUT byte: phase 0 is A.
pub open spec fn level(lut: u8, phase: int) -> u8 {
    if phase == 0 {
        (lut >> 6) & 3
    } else if phase == 1 {
        (lut >> 4) & 3
    } else if phase == 2 {
        (lut >> 2) & 3
    } else {
        lut & 3
    }
}

/// For how many frames LUT `slot` of a table applies `v` to a pixel.
pub open spec fn frames_at(ws: Seq<u8>, slot: int, v: u8) -> int {
    let lut = ws[slot * 10];
    (if level(lut, 0) == v {
        ws[50] as int
    } else {
        0
    }) + (if level(lut, 1) == v {
        ws[51] as int
    } else {
        0
    }) + (if level(lut, 2) == v {
        ws[52] as int
    } else {
        0
    }) + (if level(lut, 3) == v {
        ws[53] as int
    } else {
        0
    })
}

/// How many frames a refresh with this table takes.
pub open spec fn refresh_frames(ws: Seq<u8>) -> int {
    ws[50] + ws[51] + ws[52] + ws[53]
}

/// Drives LUT `n` for `4 - n` phases towards black, to see which pixels the
/// hardware hands to which LUT.
pub open spec fn probe_table() -> Seq<u8> {
    table_of(
        seq![
            packed(VSH1, VSH1, VSH1, VSH1),
            packed(VSH1, VSH1, VSH1, VSS),
            packed(VSH1, VSH1, VSS, VSS),
            packed(VSH1, VSS, VSS, VSS),
        ],
        seq![5u8, 5u8, 5u8, 5u8, 0u8],
    )
}

pub fn probe() -> (ws: Vec<u8>)
    ensures
        ws@ == probe_table(),
{
    let luts: [u8; 4] = [
        phases(VSH1, VSH1, VSH1, VSH1),
        phases(VSH1, VSH1, VSH1, VSS),
        phases(VSH1, VSH1, VSS, VSS),
        phases(VSH1, VSS, VSS, VSS),
    ];
    let timing: [u8; 5] = [5, 5, 5, 5, 0];
    let ws = table(luts, timing);
    assert(ws@ =~= probe_table());
    ws
}

/// Drives the two transitions for `frames` each and holds what stays.
pub open spec fn hybrid_table(frames: u8) -> Seq<u8> {
    table_of(
        seq![
            packed(VSS, VSS, VSS, VSS),
            packed(VSL, VSS, VSS, VSS),
            packed(VSH1, VSS, VSS, VSS),
            packed(VSS, VSS, VSS, VSS),
        ],
        seq![frames, 0u8, 0u8, 0u8, 0u8],
    )
}

pub fn hybrid(frames: u8) -> (ws: Vec<u8>)
    ensures
        ws@ == hybrid_table(frames),
{
    let luts: [u8; 4] = [
        phases(VSS, VSS, VSS, VSS),
        phases(VSL, VSS, VSS, VSS),
        phases(VSH1, VSS, VSS, VSS),
        phases(VSS, VSS, VSS, VSS),
    ];
    let timing: [u8; 5] = [frames, 0, 0, 0, 0];
    let ws = table(luts, timing);
    assert(ws@ =~= hybrid_table(frames));
    ws
}

/// Two strengths of drive towards black: `heal_frames` in LUT 1, `fresh_frames`
/// in LUT 2. Phase A is as long as the lesser of the two; phase B adds the
/// difference in the LUT that is owed more.
pub open spec fn graded_table(heal_frames: u8, fresh_frames: u8) -> Seq<u8> {
    if heal_frames <= fresh_frames {
        table_of(
            seq![
                packed(VSS, VSS, VSS, VSS),
                packed(VSH1, VSS, VSS, VSS),
                packed(VSH1, VSH1, VSS, VSS),
                packed(VSS, VSS, VSS, VSS),
            ],
            seq![heal_frames, (fresh_frames - heal_frames) as u8, 0u8, 0u8, 0u8],
        )
    } else {
        table_of(
            seq![
                packed(VSS, VSS, VSS, VSS),
                packed(VSH1, VSH1, VSS, VSS),
                packed(VSH1, VSS, VSS, VSS),
                packed(VSS, VSS, VSS, VSS),
            ],
            seq![fresh_frames, (heal_frames - fresh_frames) as u8, 0u8, 0u8, 0u8],
        )
    }
}

pub fn graded(heal_frames: u8, fresh_frames: u8) -> (ws: Vec<u8>)
    ensures
        ws@ == graded_table(heal_frames, fresh_frames),
{
    let held: u8 = phases(VSS, VSS, VSS, VSS);
    let weak: u8 = phases(VSH1, VSS, VSS, VSS);
    let strong: u8 = phases(VSH1, VSH1, VSS, VSS);
    let (luts, timing): ([u8; 4], [u8; 5]) = if heal_frames <= fresh_frames {
        ([held, weak, strong, held], [heal_frames, fresh_frames - heal_frames, 0, 0, 0])
    } else {
        ([held, strong, weak, held], [fresh_frames, heal_frames - fresh_frames, 0, 0, 0])
    };
    let ws = table(luts, timing);
    assert(ws@ =~= graded_table(heal_frames, fresh_frames));
    ws
}

/// Drives every pixel straight at its target for `frames`. The current bit
/// alone picks the LUT, so LUT 2 repeats LUT 0 and LUT 3 repeats LUT 1.
pub open spec fn fast_table(frames: u8) -> Seq<u8> {
    table_of(
        seq![
            packed(VSH1, VSS, VSS, VSS),
            packed(VSL, VSS, VSS, VSS),
            packed(VSH1, VSS, VSS, VSS),
            packed(VSL, VSS, VSS, VSS),
        ],
        seq![frames, 0u8, 0u8, 0u8, 0u8],
    )
}

pub fn fast(frames: u8) -> (ws: Vec<u8>)
    ensures
        ws@ == fast_table(frames),
{
    let luts: [u8; 4] = [
        phases(VSH1, VSS, VSS, VSS),
        phases(VSL, VSS, VSS, VSS),
        phases(VSH1, VSS, VSS, VSS),
        phases(VSL, VSS, VSS, VSS),
    ];
    let timing: [u8; 5] = [frames, 0, 0, 0, 0];
    let ws = table(luts, timing);
    assert(ws@ =~= fast_table(frames));
    ws
}

/// What the packed bytes of the tables mean, phase by phase.
proof fn lemma_levels()
    ensures
        forall|p: int| #[trigger] level(packed(VSS, VSS, VSS, VSS), p) == VSS,
        level(packed(VSH1, VSS, VSS, VSS), 0) == VSH1,
        forall|p: int| p != 0 ==> #[trigger] level(packed(VSH1, VSS, VSS, VSS), p) == VSS,
        level(packed(VSL, VSS, VSS, VSS), 0) == VSL,
        forall|p: int| p != 0 ==> #[trigger] level(packed(VSL, VSS, VSS, VSS), p) == VSS,
        level(packed(VSH1, VSH1, VSS, VSS), 0) == VSH1,
        level(packed(VSH1, VSH1, VSS, VSS), 1) == VSH1,
        forall|p: int|
            p != 0 && p != 1 ==> #[trigger] level(packed(VSH1, VSH1, VSS, VSS), p) == VSS,
        forall|p: int| #[trigger] level(packed(VSH1, VSH1, VSH1, VSH1), p) == VSH1,
        forall|p: int|
            #[trigger] level(packed(VSH1, VSH1, VSH1, VSS), p) == (if 0 <= p < 3 {
                VSH1
            } else {
                VSS
            }),
{
    assert(0u8 << 6 | 0u8 << 4 | 0u8 << 2 | 0u8 == 0u8) by (bit_vector);
    assert(1u8 << 6 | 0u8 << 4 | 0u8 << 2 | 0u8 == 0x40u8) by (bit_vector);
    assert(2u8 << 6 | 0u8 << 4 | 0u8 << 2 | 0u8 == 0x80u8) by (bit_vector);
    assert(1u8 << 6 | 1u8 << 4 | 0u8 << 2 | 0u8 == 0x50u8) by (bit_vector);
    assert(1u8 << 6 | 1u8 << 4 | 1u8 << 2 | 0u8 == 0x54u8) by (bit_vector);
    assert(1u8 << 6 | 1u8 << 4 | 1u8 << 2 | 1u8 == 0x55u8) by (bit_vector);
    assert((0u8 >> 6) & 3 == 0 && (0u8 >> 4) & 3 == 0 && (0u8 >> 2) & 3 == 0 && 0u8 & 3 == 0)
        by (bit_vector);
    assert((0x40u8 >> 6) & 3 == 1 && (0x40u8 >> 4) & 3 == 0 && (0x40u8 >> 2) & 3 == 0 && 0x40u8 & 3
        == 0) by (bit_vector);
    assert((0x80u8 >> 6) & 3 == 2 && (0x80u8 >> 4) & 3 == 0 && (0x80u8 >> 2) & 3 == 0 && 0x80u8 & 3
        == 0) by (bit_vector);
    assert((0x50u8 >> 6) & 3 == 1 && (0x50u8 >> 4) & 3 == 1 && (0x50u8 >> 2) & 3 == 0 && 0x50u8 & 3
        == 0) by (bit_vector);
    assert((0x54u8 >> 6) & 3 == 1 && (0x54u8 >> 4) & 3 == 1 && (0x54u8 >> 2) & 3 == 1 && 0x54u8 & 3
        == 0) by (bit_vector);
    assert((0x55u8 >> 6) & 3 == 1 && (0x55u8 >> 4) & 3 == 1 && (0x55u8 >> 2) & 3 == 1 && 0x55u8 & 3
        == 1) by (bit_vector);
}

/// The hybrid waveform drives black-to-white pixels white and white-to-black
/// pixels black, each for `frames`, and holds everything else at exactly zero.
pub proof fn law_hybrid_waveform(frames: u8)
    ensures
        frames_at(hybrid_table(frames), 0, VSH1) == 0,
        frames_at(hybrid_table(frames), 0, VSL) == 0,
        frames_at(hybrid_table(frames), 1, VSL) == frames,
        frames_at(hybrid_table(frames), 1, VSH1) == 0,
        frames_at(hybrid_table(frames), 2, VSH1) == frames,
        frames_at(hybrid_table(frames), 2, VSL) == 0,
        frames_at(hybrid_table(frames), 3, VSH1) == 0,
        frames_at(hybrid_table(frames), 3, VSL) == 0,
        refresh_frames(hybrid_table(frames)) == frames,
{
    lemma_levels();
}

/// The graded waveform gives LUT 1 `heal_frames` and LUT 2 `fresh_frames`
/// towards black, holds LUTs 0 and 3, and never drives towards white. It takes as
/// long as the longer of the two, so `fresh_frames` whatever is healing where
/// healing is the weaker drive.
pub proof fn law_graded_waveform(heal_frames: u8, fresh_frames: u8)
    ensures
        frames_at(graded_table(heal_frames, fresh_frames), 0, VSH1) == 0,
        frames_at(graded_table(heal_frames, fresh_frames), 1, VSH1) == heal_frames,
        frames_at(graded_table(heal_frames, fresh_frames), 2, VSH1) == fresh_frames,
        frames_at(graded_table(heal_frames, fresh_frames), 3, VSH1) == 0,
        forall|slot: int|
            0 <= slot < 4 ==> #[trigger] frames_at(
                graded_table(heal_frames, fresh_frames),
                slot,
                VSL,
            ) == 0,
        refresh_frames(graded_table(heal_frames, fresh_frames)) == (if heal_frames
            <= fresh_frames {
            fresh_frames
        } else {
            heal_frames
        }),
{
    lemma_levels();
    assert forall|slot: int| 0 <= slot < 4 implies #[trigger] frames_at(
        graded_table(heal_frames, fresh_frames),
        slot,
        VSL,
    ) == 0 by {
        assert(slot == 0 || slot == 1 || slot == 2 || slot == 3);
    }
}

/// The fast waveform drives a pixel for `frames` to what its current bit says,
/// whatever it was before.
pub proof fn law_fast_waveform(frames: u8, previous: int)
    requires
        previous == 0 || previous == 1,
    ensures
        frames_at(fast_table(frames), previous * 2, VSH1) == frames,
        frames_at(fast_table(frames), previous * 2, VSL) == 0,
        frames_at(fast_table(frames), previous * 2 + 1, VSL) == frames,
        frames_at(fast_table(frames), previous * 2 + 1, VSH1) == 0,
        refresh_frames(fast_table(frames)) == frames,
{
    lemma_levels();
}

/// The probe tells the four LUTs apart by how long each drives towards black.
pub proof fn law_probe_waveform(slot: int)
    requires
        0 <= slot < 4,
    ensures
        frames_at(probe_table(), slot, VSH1) == 5 * (4 - slot),
        frames_at(probe_table(), slot, VSL) == 0,
{
    lemma_levels();
    assert(slot == 0 || slot == 1 || slot == 2 || slot == 3);
}

/// A packed byte holds its four phases in pairs of bits from the top.
pub proof fn law_packed(a: u8, b: u8, c: u8, d: u8)
    requires
        a < 4,
        b < 4,
        c < 4,
        d < 4,
    ensures
        packed(a, b, c, d) == 64 * a + 16 * b + 4 * c + d,
        level(packed(a, b, c, d), 0) == a,
        level(packed(a, b, c, d), 1) == b,
        level(packed(a, b, c, d), 2) == c,
        level(packed(a, b, c, d), 3) == d,
{
    assert({
        let p = a << 6 | b << 4 | c << 2 | d;
        &&& p == 64 * a + 16 * b + 4 * c + d
        &&& (p >> 6) & 3 == a
        &&& (p >> 4) & 3 == b
        &&& (p >> 2) & 3 == c
        &&& p & 3 == d
    }) by (bit_vector)
        requires
            a < 4,
            b < 4,
            c < 4,
            d < 4,
    ;
}

/// What every table leaves alone, however long its phases are: the LUT of VCOM
/// and all groups but the first are zero, nothing is repeated, and the five
/// frame rate bytes are those of the panel's maker.
pub proof fn law_table_rest(frames: u8, heal_frames: u8, fresh_frames: u8, i: int)
    requires
        0 <= i < 105,
        i != 0 && i != 10 && i != 20 && i != 30,
        !(50 <= i < 54),
    ensures
        probe_table().len() == 105,
        hybrid_table(frames).len() == 105,
        graded_table(heal_frames, fresh_frames).len() == 105,
        fast_table(frames).len() == 105,
        ({
            let rest = if i >= 100 {
                0x22u8
            } else {
                0u8
            };
            &&& probe_table()[i] == rest
            &&& hybrid_table(frames)[i] == rest
            &&& graded_table(heal_frames, fresh_frames)[i] == rest
            &&& fast_table(frames)[i] == rest
        }),
{
}

/// The bytes that do differ, one by one.
pub proof fn law_table_bytes(frames: u8)
    ensures
        ({
            let t = hybrid_table(frames);
            &&& t[0] == 0 && t[10] == 0x80 && t[20] == 0x40 && t[30] == 0
            &&& t[50] == frames && t[51] == 0 && t[52] == 0 && t[53] == 0
        }),
        ({
            let t = fast_table(frames);
            &&& t[0] == 0x40 && t[10] == 0x80 && t[20] == 0x40 && t[30] == 0x80
            &&& t[50] == frames && t[51] == 0 && t[52] == 0 && t[53] == 0
        }),
{
    law_packed(VSS, VSS, VSS, VSS);
    law_packed(VSL, VSS, VSS, VSS);
    law_packed(VSH1, VSS, VSS, VSS);
}

/// A graded table is as long as the stronger of its two drives: the first phase
/// lasts as long as the weaker, the second for the difference, and only the LUT
/// that is owed more is driven in both.
pub proof fn law_graded_bytes(heal_frames: u8, fresh_frames: u8)
    ensures
        ({
            let t = graded_table(heal_frames, fresh_frames);
            let (less, more) = if heal_frames <= fresh_frames {
                (heal_frames as int, fresh_frames as int)
            } else {
                (fresh_frames as int, heal_frames as int)
            };
            &&& t[0] == 0 && t[30] == 0
            &&& t[10] == (if heal_frames <= fresh_frames {
                0x40int
            } else {
                0x50int
            })
            &&& t[20] == (if heal_frames <= fresh_frames {
                0x50int
            } else {
                0x40int
            })
            &&& t[50] == less && t[51] == more - less && t[52] == 0 && t[53] == 0
        }),
{
    law_packed(VSS, VSS, VSS, VSS);
    law_packed(VSH1, VSS, VSS, VSS);
    law_packed(VSH1, VSH1, VSS, VSS);
}

} // verus!
