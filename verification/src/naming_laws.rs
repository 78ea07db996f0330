//! What speaker codes and texts stand for.

use crate::events::{oamd_of, EvoPayload};
use crate::stream::{bed_speaker, label_code, name_of, ChannelLabel};
use crate::text::{decimal, digit, hex_digit, hexadecimal, without_nul};
use vstd::prelude::*;

verus! {

/// The channel labels in their order.
pub open spec fn label_order() -> Seq<ChannelLabel> {
    seq![
        ChannelLabel::L,
        ChannelLabel::R,
        ChannelLabel::C,
        ChannelLabel::LFE,
        ChannelLabel::Ls,
        ChannelLabel::Rs,
        ChannelLabel::Tfl,
        ChannelLabel::Tfr,
        ChannelLabel::Tsl,
        ChannelLabel::Tsr,
        ChannelLabel::Tbl,
        ChannelLabel::Tbr,
        ChannelLabel::Lsc,
        ChannelLabel::Rsc,
        ChannelLabel::Lb,
        ChannelLabel::Rb,
        ChannelLabel::Cb,
        ChannelLabel::Tc,
        ChannelLabel::Lsd,
        ChannelLabel::Rsd,
        ChannelLabel::Lw,
        ChannelLabel::Rw,
        ChannelLabel::Tfc,
        ChannelLabel::LFE2,
    ]
}

/// A label's speaker code is its place among the labels, so no two share one.
pub proof fn law_label_code(label: ChannelLabel, other: ChannelLabel)
    ensures
        0 <= label_code(label) < label_order().len(),
        label_order()[label_code(label) as int] == label,
        label_code(label) == label_code(other) ==> label == other,
{
}

/// The channel label of each bed label: L R C LFE Ls Rs Lb Rb, the heights in front, at the sides
/// and in the back, the wides, and the second LFE.
pub open spec fn bed_order() -> Seq<ChannelLabel> {
    seq![
        ChannelLabel::L,
        ChannelLabel::R,
        ChannelLabel::C,
        ChannelLabel::LFE,
        ChannelLabel::Ls,
        ChannelLabel::Rs,
        ChannelLabel::Lb,
        ChannelLabel::Rb,
        ChannelLabel::Tfl,
        ChannelLabel::Tfr,
        ChannelLabel::Tsl,
        ChannelLabel::Tsr,
        ChannelLabel::Tbl,
        ChannelLabel::Tbr,
        ChannelLabel::Lw,
        ChannelLabel::Rw,
        ChannelLabel::LFE2,
    ]
}

/// A bed channel has the speaker code of the channel label for the same place in the room.
pub proof fn law_bed_speaker(n: int)
    requires
        0 <= n < 256,
    ensures
        n < bed_order().len() ==> bed_speaker(n) == label_code(bed_order()[n]),
        n >= bed_order().len() ==> bed_speaker(n) == 255,
        bed_speaker(n + 256) == bed_speaker(n),
{
}

/// The name of a label.
pub open spec fn label_name(label: ChannelLabel) -> Seq<char> {
    match label {
        ChannelLabel::L => seq!['L'],
        ChannelLabel::R => seq!['R'],
        ChannelLabel::C => seq!['C'],
        ChannelLabel::LFE => seq!['L', 'F', 'E'],
        ChannelLabel::Ls => seq!['L', 's'],
        ChannelLabel::Rs => seq!['R', 's'],
        ChannelLabel::Tfl => seq!['T', 'f', 'l'],
        ChannelLabel::Tfr => seq!['T', 'f', 'r'],
        ChannelLabel::Tsl => seq!['T', 's', 'l'],
        ChannelLabel::Tsr => seq!['T', 's', 'r'],
        ChannelLabel::Tbl => seq!['T', 'b', 'l'],
        ChannelLabel::Tbr => seq!['T', 'b', 'r'],
        ChannelLabel::Lsc => seq!['L', 's', 'c'],
        ChannelLabel::Rsc => seq!['R', 's', 'c'],
        ChannelLabel::Lb => seq!['L', 'b'],
        ChannelLabel::Rb => seq!['R', 'b'],
        ChannelLabel::Cb => seq!['C', 'b'],
        ChannelLabel::Tc => seq!['T', 'c'],
        ChannelLabel::Lsd => seq!['L', 's', 'd'],
        ChannelLabel::Rsd => seq!['R', 's', 'd'],
        ChannelLabel::Lw => seq!['L', 'w'],
        ChannelLabel::Rw => seq!['R', 'w'],
        ChannelLabel::Tfc => seq!['T', 'f', 'c'],
        ChannelLabel::LFE2 => seq!['L', 'F', 'E', '2'],
    }
}

/// A speaker code is named after its label; that of objects is named so, and any other is unknown.
pub proof fn law_speaker_name(label: ChannelLabel, code: u8)
    ensures
        name_of(label_code(label)) == label_name(label),
        name_of(254) == seq!['O', 'b', 'j'],
        code >= 24 && code != 254 ==> name_of(code) == seq!['?'],
{
    reveal_strlit("L");
    reveal_strlit("R");
    reveal_strlit("C");
    reveal_strlit("LFE");
    reveal_strlit("Ls");
    reveal_strlit("Rs");
    reveal_strlit("Tfl");
    reveal_strlit("Tfr");
    reveal_strlit("Tsl");
    reveal_strlit("Tsr");
    reveal_strlit("Tbl");
    reveal_strlit("Tbr");
    reveal_strlit("Lsc");
    reveal_strlit("Rsc");
    reveal_strlit("Lb");
    reveal_strlit("Rb");
    reveal_strlit("Cb");
    reveal_strlit("Tc");
    reveal_strlit("Lsd");
    reveal_strlit("Rsd");
    reveal_strlit("Lw");
    reveal_strlit("Rw");
    reveal_strlit("Tfc");
    reveal_strlit("LFE2");
    reveal_strlit("Obj");
    reveal_strlit("?");
    assert(name_of(label_code(label)) =~= label_name(label));
    assert(name_of(254) =~= seq!['O', 'b', 'j']);
    if code >= 24 && code != 254 {
        assert(name_of(code) =~= seq!['?']);
    }
}

/// The value of a digit, decimal or hexadecimal.
pub open spec fn digit_value(c: char) -> int {
    if '0' <= c && c <= '9' {
        c as int - '0' as int
    } else {
        10 + (c as int - 'A' as int)
    }
}

/// Whether a character is a digit in base `base`, the letters in upper case.
pub open spec fn is_digit(c: char, base: int) -> bool {
    (('0' <= c && c <= '9') || ('A' <= c && c <= 'F')) && 0 <= digit_value(c) < base
}

/// The number that digits stand for in base `base`.
pub open spec fn reads_as(s: Seq<char>, base: int) -> int {
    s.fold_left(0int, |n: int, c: char| base * n + digit_value(c))
}

proof fn lemma_digit(d: int)
    requires
        0 <= d < 10,
    ensures
        digit(d).len() == 1,
        is_digit(digit(d)[0], 10),
        digit_value(digit(d)[0]) == d,
{
    reveal_strlit("0");
    reveal_strlit("1");
    reveal_strlit("2");
    reveal_strlit("3");
    reveal_strlit("4");
    reveal_strlit("5");
    reveal_strlit("6");
    reveal_strlit("7");
    reveal_strlit("8");
    reveal_strlit("9");
}

proof fn lemma_hex_digit(d: int)
    requires
        0 <= d < 16,
    ensures
        hex_digit(d).len() == 1,
        is_digit(hex_digit(d)[0], 16),
        digit_value(hex_digit(d)[0]) == d,
{
    reveal_strlit("A");
    reveal_strlit("B");
    reveal_strlit("C");
    reveal_strlit("D");
    reveal_strlit("E");
    reveal_strlit("F");
    if d < 10 {
        lemma_digit(d);
    }
}

proof fn lemma_reads_push(s: Seq<char>, t: Seq<char>, base: int)
    requires
        t.len() == 1,
    ensures
        reads_as(s + t, base) == base * reads_as(s, base) + digit_value(t[0]),
{
    assert((s + t).drop_last() =~= s);
    assert((s + t).last() == t[0]);
}

/// A number in decimal is written in digits that read as the number, without leading zeros.
pub proof fn law_decimal(n: nat)
    ensures
        decimal(n).len() > 0,
        forall|i: int| 0 <= i < decimal(n).len() ==> is_digit(#[trigger] decimal(n)[i], 10),
        reads_as(decimal(n), 10) == n,
        n > 0 ==> decimal(n)[0] != '0',
        n == 0 ==> decimal(n).len() == 1,
    decreases n,
{
    let none = Seq::<char>::empty();
    lemma_digit((n % 10) as int);
    let last = digit((n % 10) as int);
    if n < 10 {
        assert(none + last =~= last);
        lemma_reads_push(none, last, 10);
    } else {
        law_decimal(n / 10);
        lemma_reads_push(decimal(n / 10), last, 10);
        assert forall|i: int| 0 <= i < decimal(n).len() implies is_digit(
            #[trigger] decimal(n)[i],
            10,
        ) by {
            if i < decimal(n / 10).len() {
                assert(decimal(n)[i] == decimal(n / 10)[i]);
            }
        }
        assert(decimal(n)[0] == decimal(n / 10)[0]);
    }
}

/// A byte in hexadecimal is written in one or two upper-case digits that read as the byte, without
/// a leading zero.
pub proof fn law_hexadecimal(n: u8)
    ensures
        hexadecimal(n).len() == (if n < 16 {
            1nat
        } else {
            2
        }),
        forall|i: int| 0 <= i < hexadecimal(n).len() ==> is_digit(#[trigger] hexadecimal(n)[i], 16),
        reads_as(hexadecimal(n), 16) == n,
{
    let none = Seq::<char>::empty();
    lemma_hex_digit(n as int % 16);
    lemma_hex_digit(n as int / 16);
    let high = hex_digit(n as int / 16);
    let low = hex_digit(n as int % 16);
    assert(none + high =~= high);
    assert(none + low =~= low);
    lemma_reads_push(none, high, 16);
    lemma_reads_push(none, low, 16);
    lemma_reads_push(high, low, 16);
}

/// Nothing but each NUL is replaced, by a space.
pub proof fn law_without_nul(s: Seq<char>, i: int)
    requires
        0 <= i < s.len(),
    ensures
        without_nul(s).len() == s.len(),
        s[i] == '\0' ==> without_nul(s)[i] == ' ',
        s[i] != '\0' ==> without_nul(s)[i] == s[i],
{
}

/// The object metadata among evolution payloads are those with id 11, in their order, each with the
/// offset that it states, or none.
pub proof fn law_oamd_among(payloads: Seq<EvoPayload>)
    ensures
        oamd_of(payloads) == payloads.filter(|p: EvoPayload| p.id == 11).map_values(
            |p: EvoPayload|
                (
                    (if p.sample_offset is Some {
                        p.sample_offset->0
                    } else {
                        0u32
                    }),
                    p.bytes@,
                ),
        ),
    decreases payloads.len(),
{
    reveal(Seq::filter);
    let f = |p: EvoPayload|
        (
            (if p.sample_offset is Some {
                p.sample_offset->0
            } else {
                0u32
            }),
            p.bytes@,
        );
    let g = |p: EvoPayload| p.id == 11;
    if payloads.len() > 0 {
        let init = payloads.drop_last();
        law_oamd_among(init);
        if payloads.last().id == 11 {
            assert(init.filter(g).push(payloads.last()).map_values(f) =~= init.filter(g).map_values(
                f,
            ).push(f(payloads.last())));
        }
    }
    assert(oamd_of(payloads) =~= payloads.filter(g).map_values(f));
}

} // verus!
