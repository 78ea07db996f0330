//! What a major sync says about the stream: presentations, channel counts and speakers.

use crate::header::{major_sync_info_len, sync_info_len, MAJOR_SYNC_FBB};
use crate::text::hexadecimal;
use crate::types::{
    PresentationInfo, FORMAT_MLP, FORMAT_TRUEHD, MAX_CHANNELS, MAX_PRESENTATIONS,
    PRESENTATION_HIGHEST, PRESENTATION_HIGHEST_CHANNEL_BASED, PTYPE_COPY, PTYPE_DOWNMIX,
    PTYPE_INDEPENDENT, SPEAKER_OBJECT, SPEAKER_UNKNOWN,
};
use vstd::prelude::*;
use vstd::slice::slice_subrange;
use vstd::string::StringExecFns;

verus! {

/// A TrueHD channel label.
#[derive(Clone, Copy, PartialEq, Eq, Structural, Debug)]
pub enum ChannelLabel {
    L,
    R,
    C,
    LFE,
    Ls,
    Rs,
    Tfl,
    Tfr,
    Tsl,
    Tsr,
    Tbl,
    Tbr,
    Lsc,
    Rsc,
    Lb,
    Rb,
    Cb,
    Tc,
    Lsd,
    Rsd,
    Lw,
    Rw,
    Tfc,
    LFE2,
}

/// How a presentation is carried.
#[derive(Clone, Copy, PartialEq, Eq, Structural, Debug)]
pub enum PresentationType {
    Invalid,
    CopyOf(usize),
    DownmixOf(usize),
    Independent,
}

/// The substreams each presentation is made of, one bit per substream.
#[derive(Clone, Copy, PartialEq, Eq, Debug)]
pub struct PresentationMap {
    pub masks: [u8; 4],
}

/// Whether presentation `i` uses substream `k` or a later one.
pub open spec fn reaches(masks: Seq<u8>, i: int, k: int) -> bool {
    masks[i] >> (k as u8) != 0
}

/// Whether presentation `j` is a full one that also uses substream `i`.
pub open spec fn covers(masks: Seq<u8>, j: int, i: int) -> bool {
    reaches(masks, j, j) && (masks[j] >> (i as u8)) & 1 != 0
}

/// The first presentation from `j` on that covers `i`.
pub open spec fn first_cover(masks: Seq<u8>, i: int, j: int) -> Option<int>
    decreases MAX_PRESENTATIONS - j,
{
    if j >= MAX_PRESENTATIONS {
        None
    } else if covers(masks, j, i) {
        Some(j)
    } else {
        first_cover(masks, i, j + 1)
    }
}

/// The last substream before `k` that presentation `i` reaches.
pub open spec fn last_reached(masks: Seq<u8>, i: int, k: int) -> Option<int>
    decreases k,
{
    if k <= 0 {
        None
    } else if reaches(masks, i, k - 1) {
        Some(k - 1)
    } else {
        last_reached(masks, i, k - 1)
    }
}

/// How presentation `i` is carried: with a substream of its own or a later one, as a downmix of
/// the first later full presentation that uses substream `i`, or independently; without, as a
/// copy of the presentation of the last substream it reaches, or not at all.
pub open spec fn type_of(masks: Seq<u8>, i: int) -> PresentationType {
    if i >= MAX_PRESENTATIONS {
        PresentationType::Invalid
    } else if reaches(masks, i, i) {
        match first_cover(masks, i, i + 1) {
            Some(j) => PresentationType::DownmixOf(j as usize),
            None => PresentationType::Independent,
        }
    } else {
        match last_reached(masks, i, i) {
            Some(j) => PresentationType::CopyOf(j as usize),
            None => PresentationType::Invalid,
        }
    }
}

/// The last full presentation before `k`.
pub open spec fn last_full(masks: Seq<u8>, k: int) -> Option<usize>
    decreases k,
{
    if k <= 0 {
        None
    } else if reaches(masks, k - 1, k - 1) {
        Some((k - 1) as usize)
    } else {
        last_full(masks, k - 1)
    }
}

/// The masks a major sync declares. FBB has a second presentation if bit 3 of its substream info
/// is set, and no further ones; FBA has one field per presentation.
pub open spec fn declared_masks(format_sync: u32, info: u8, extended: u8) -> Seq<u8> {
    if format_sync == MAJOR_SYNC_FBB {
        seq![1u8, if info & 8 != 0 { 3u8 } else { 0u8 }, 0u8, 0u8]
    } else {
        seq![
            1u8,
            (info >> 2) & 3,
            (info >> 4) & 7,
            ((info >> 4) & 8) | (7u8 ^ (7u8 >> (extended & 3))),
        ]
    }
}

impl PresentationMap {
    /// How presentation `index` is carried.
    ///
    /// Calls `PresentationMap::presentation_type_by_index` of `truehd::process`.
    #[verifier::external_body]
    pub(crate) fn presentation_type_by_index(&self, index: usize) -> (r: PresentationType)
        ensures
            r == type_of(self.masks@, index as int),
    {
        let map = truehd::process::PresentationMap { masks: self.masks };
        match map.presentation_type_by_index(index) {
            truehd::process::PresentationType::Invalid => PresentationType::Invalid,
            truehd::process::PresentationType::CopyOf(j) => PresentationType::CopyOf(j),
            truehd::process::PresentationType::DownmixOf(j) => PresentationType::DownmixOf(j),
            truehd::process::PresentationType::Independent => PresentationType::Independent,
        }
    }

    /// The highest presentation with a substream of its own.
    ///
    /// Calls `PresentationMap::max_independent_presentation` of `truehd::process`.
    #[verifier::external_body]
    pub(crate) fn max_independent_presentation(&self) -> (r: Option<usize>)
        ensures
            r == last_full(self.masks@, MAX_PRESENTATIONS as int),
    {
        let map = truehd::process::PresentationMap { masks: self.masks };
        map.max_independent_presentation()
    }

    /// The map a major sync declares.
    ///
    /// Calls `PresentationMap::for_format_sync` of `truehd::process`.
    #[verifier::external_body]
    pub(crate) fn for_format_sync(
        format_sync: u32,
        substream_info: u8,
        extended_substream_info: u8,
    ) -> (r: PresentationMap)
        ensures
            r.masks@ == declared_masks(format_sync, substream_info, extended_substream_info),
    {
        let map = truehd::process::PresentationMap::for_format_sync(
            format_sync,
            substream_info,
            extended_substream_info,
        );
        PresentationMap { masks: map.masks }
    }
}

/// Speaker code of a channel label: its place in the label order.
pub open spec fn label_code(label: ChannelLabel) -> u8 {
    match label {
        ChannelLabel::L => 0,
        ChannelLabel::R => 1,
        ChannelLabel::C => 2,
        ChannelLabel::LFE => 3,
        ChannelLabel::Ls => 4,
        ChannelLabel::Rs => 5,
        ChannelLabel::Tfl => 6,
        ChannelLabel::Tfr => 7,
        ChannelLabel::Tsl => 8,
        ChannelLabel::Tsr => 9,
        ChannelLabel::Tbl => 10,
        ChannelLabel::Tbr => 11,
        ChannelLabel::Lsc => 12,
        ChannelLabel::Rsc => 13,
        ChannelLabel::Lb => 14,
        ChannelLabel::Rb => 15,
        ChannelLabel::Cb => 16,
        ChannelLabel::Tc => 17,
        ChannelLabel::Lsd => 18,
        ChannelLabel::Rsd => 19,
        ChannelLabel::Lw => 20,
        ChannelLabel::Rw => 21,
        ChannelLabel::Tfc => 22,
        ChannelLabel::LFE2 => 23,
    }
}

/// Speaker code of a TrueHD channel label. The codes are the label order.
pub fn speaker_of_label(label: ChannelLabel) -> (code: u8)
    ensures
        code == label_code(label),
{
    match label {
        ChannelLabel::L => 0,
        ChannelLabel::R => 1,
        ChannelLabel::C => 2,
        ChannelLabel::LFE => 3,
        ChannelLabel::Ls => 4,
        ChannelLabel::Rs => 5,
        ChannelLabel::Tfl => 6,
        ChannelLabel::Tfr => 7,
        ChannelLabel::Tsl => 8,
        ChannelLabel::Tsr => 9,
        ChannelLabel::Tbl => 10,
        ChannelLabel::Tbr => 11,
        ChannelLabel::Lsc => 12,
        ChannelLabel::Rsc => 13,
        ChannelLabel::Lb => 14,
        ChannelLabel::Rb => 15,
        ChannelLabel::Cb => 16,
        ChannelLabel::Tc => 17,
        ChannelLabel::Lsd => 18,
        ChannelLabel::Rsd => 19,
        ChannelLabel::Lw => 20,
        ChannelLabel::Rw => 21,
        ChannelLabel::Tfc => 22,
        ChannelLabel::LFE2 => 23,
    }
}

/// Labels of an OAMD bed.
pub const BED_LABELS: usize = 17;

/// Speaker code of the OAMD bed label with index `n`, in the order L R C LFE Lss Rss Lrs Rrs Lfh
/// Rfh Lts Rts Lrh Rrh Lw Rw LFE2; the index is taken modulo 256.
pub open spec fn bed_speaker(n: int) -> u8 {
    let codes = seq![
        0u8, 1u8, 2u8, 3u8, 4u8, 5u8, 14u8, 15u8, 6u8, 7u8, 8u8, 9u8, 10u8, 11u8, 20u8, 21u8, 23u8,
    ];
    if n % 256 < BED_LABELS {
        codes[n % 256]
    } else {
        SPEAKER_UNKNOWN
    }
}

/// The OAMD bed label with index `n`, by its place in the label order.
///
/// Calls `SpeakerLabels::from_u8` of `truehd::structs::oamd`, which knows the indices up to that
/// of its last label, LFE2; the labels are numbered in the order of their declaration.
#[verifier::external_body]
pub(crate) fn bed_label(n: u8) -> (r: Option<u8>)
    ensures
        r == (if n < BED_LABELS {
            Some(n)
        } else {
            None
        }),
{
    match truehd::structs::oamd::SpeakerLabels::from_u8(n) {
        Some(label) => Some(label as u8),
        None => None,
    }
}

/// Speaker code of an OAMD bed label index: the 16-channel channel assignment and the OAMD
/// standard bed list group the same speakers the same way.
pub fn speaker_of_oamd_bed(index: usize) -> (code: u8)
    ensures
        code == bed_speaker(index as int),
{
    match bed_label((index % 256) as u8) {
        Some(0) => 0, // L
        Some(1) => 1, // R
        Some(2) => 2, // C
        Some(3) => 3, // LFE
        Some(4) => 4, // Lss
        Some(5) => 5, // Rss
        Some(6) => 14, // Lrs
        Some(7) => 15, // Rrs
        Some(8) => 6, // Lfh
        Some(9) => 7, // Rfh
        Some(10) => 8, // Lts
        Some(11) => 9, // Rts
        Some(12) => 10, // Lrh
        Some(13) => 11, // Rrh
        Some(14) => 20, // Lw
        Some(15) => 21, // Rw
        Some(16) => 23, // LFE2
        _ => SPEAKER_UNKNOWN,
    }
}

/// The name of a speaker code.
pub open spec fn name_of(code: u8) -> Seq<char> {
    match code {
        0 => "L"@,
        1 => "R"@,
        2 => "C"@,
        3 => "LFE"@,
        4 => "Ls"@,
        5 => "Rs"@,
        6 => "Tfl"@,
        7 => "Tfr"@,
        8 => "Tsl"@,
        9 => "Tsr"@,
        10 => "Tbl"@,
        11 => "Tbr"@,
        12 => "Lsc"@,
        13 => "Rsc"@,
        14 => "Lb"@,
        15 => "Rb"@,
        16 => "Cb"@,
        17 => "Tc"@,
        18 => "Lsd"@,
        19 => "Rsd"@,
        20 => "Lw"@,
        21 => "Rw"@,
        22 => "Tfc"@,
        23 => "LFE2"@,
        254 => "Obj"@,
        _ => "?"@,
    }
}

/// The short name of a speaker code.
pub fn speaker_name(code: u8) -> (name: &'static str)
    ensures
        name@ == name_of(code),
{
    match code {
        0 => "L",
        1 => "R",
        2 => "C",
        3 => "LFE",
        4 => "Ls",
        5 => "Rs",
        6 => "Tfl",
        7 => "Tfr",
        8 => "Tsl",
        9 => "Tsr",
        10 => "Tbl",
        11 => "Tbr",
        12 => "Lsc",
        13 => "Rsc",
        14 => "Lb",
        15 => "Rb",
        16 => "Cb",
        17 => "Tc",
        18 => "Lsd",
        19 => "Rsd",
        20 => "Lw",
        21 => "Rw",
        22 => "Tfc",
        23 => "LFE2",
        254 => "Obj",
        _ => "?",
    }
}

/// The parts of a major sync access unit that define the stream's configuration: format sync and
/// format info, flags, substream count and presentation info, and the extra channel meaning.
/// `None` if the access unit ends before its major sync info does.
pub open spec fn signature(au: Seq<u8>) -> Option<Seq<u8>> {
    match sync_info_len(au) {
        Some(n) => if au.len() >= 4 + n {
            Some(
                au.subrange(4, 12) + au.subrange(14, 16) + au.subrange(20, 22) + au.subrange(
                    30,
                    4 + n,
                ),
            )
        } else {
            None
        },
        None => None,
    }
}

/// Collects the parts of a major sync that define the stream's configuration, used to notice
/// when it changes. Left out are fields that legitimately change from one major sync to the
/// next: the DRC start-up gains in the channel meaning, the peak data rate and the CRC.
pub fn major_sync_signature(au: &[u8], out: &mut Vec<u8>) -> (r: bool)
    ensures
        r == signature(au@).is_some(),
        r ==> final(out)@ == signature(au@)->0,
        !r ==> final(out)@ == old(out)@,
{
    let info: usize = match major_sync_info_len(au) {
        None => return false,
        Some(n) => n,
    };
    if au.len() < 4 + info {
        return false;
    }
    out.clear();
    out.extend_from_slice(slice_subrange(au, 4, 12));
    out.extend_from_slice(slice_subrange(au, 14, 16));
    out.extend_from_slice(slice_subrange(au, 20, 22));
    out.extend_from_slice(slice_subrange(au, 30, 4 + info));
    proof {
        assert(out@ =~= signature(au@)->0);
    }
    true
}

/// Two major syncs that differ only in the signature word, the peak data rate, the channel
/// meaning without its extension, or from the CRC on, have the same signature.
pub proof fn law_signature_ignores(a: Seq<u8>, b: Seq<u8>)
    requires
        signature(a) is Some,
        signature(b) is Some,
        sync_info_len(a) == sync_info_len(b),
        forall|i: int|
            4 <= i < 4 + sync_info_len(a)->0 && !(12 <= i < 14) && !(16 <= i < 20) && !(22 <= i
                < 30) ==> a[i] == #[trigger] b[i],
    ensures
        signature(a) == signature(b),
{
    assert(signature(a)->0 =~= signature(b)->0);
}

/// Two major syncs with the same signature agree on everything the signature is made of.
pub proof fn law_signature_tells(a: Seq<u8>, b: Seq<u8>)
    requires
        signature(a) is Some,
        signature(a) == signature(b),
    ensures
        sync_info_len(a) == sync_info_len(b),
        forall|i: int|
            4 <= i < 4 + sync_info_len(a)->0 && !(12 <= i < 14) && !(16 <= i < 20) && !(22 <= i
                < 30) ==> a[i] == #[trigger] b[i],
{
    let s = signature(a)->0;
    let t = signature(b)->0;
    assert(s.len() == 12 + sync_info_len(a)->0 - 26);
    assert(t.len() == 12 + sync_info_len(b)->0 - 26);
    assert forall|i: int|
        4 <= i < 4 + sync_info_len(a)->0 && !(12 <= i < 14) && !(16 <= i < 20) && !(22 <= i
            < 30) implies a[i] == #[trigger] b[i] by {
        let k = if i < 12 {
            i - 4
        } else if i < 16 {
            i - 6
        } else if i < 22 {
            i - 10
        } else {
            i - 18
        };
        assert(s[k] == a[i]);
        assert(t[k] == b[i]);
    }
}

/// Channel roles of a presentation: its labelled bed channels first, then, for an object
/// presentation, objects; UNKNOWN where the stream says nothing.
pub open spec fn roles_of(labels: Seq<ChannelLabel>, channels: int, objects: bool) -> Seq<u8> {
    Seq::new(
        MAX_CHANNELS as nat,
        |i: int|
            if i >= channels {
                SPEAKER_UNKNOWN
            } else if i < labels.len() {
                label_code(labels[i])
            } else if objects {
                SPEAKER_OBJECT
            } else {
                SPEAKER_UNKNOWN
            },
    )
}

/// Channel roles of a presentation with `channels` channels.
pub fn roles(labels: &[ChannelLabel], channels: usize, objects: bool) -> (r: [u8; 16])
    ensures
        r@ == roles_of(labels@, channels as int, objects),
{
    let mut speakers: [u8; 16] = [SPEAKER_UNKNOWN; 16];
    let mut i: usize = 0;
    while i < MAX_CHANNELS && i < channels
        invariant
            i <= MAX_CHANNELS,
            forall|k: int|
                0 <= k < i ==> speakers[k] == roles_of(labels@, channels as int, objects)[k],
            forall|k: int| i <= k < MAX_CHANNELS ==> speakers[k] == SPEAKER_UNKNOWN,
            i <= channels,
        decreases MAX_CHANNELS - i,
    {
        speakers[i] = if i < labels.len() {
            speaker_of_label(labels[i])
        } else if objects {
            SPEAKER_OBJECT
        } else {
            SPEAKER_UNKNOWN
        };
        i = i + 1;
    }
    proof {
        assert(speakers@ =~= roles_of(labels@, channels as int, objects));
    }
    speakers
}

/// The presentation that asking for presentation `i` decodes, if the stream carries it.
pub open spec fn picked(masks: Seq<u8>, i: int) -> Option<usize> {
    match type_of(masks, i) {
        PresentationType::Invalid => None,
        PresentationType::CopyOf(j) => Some(j),
        _ => Some(i as usize),
    }
}

/// The presentation a selector decodes: the highest the stream carries, the highest below the
/// object presentation, or one by number, and the highest full one where that is not carried.
pub open spec fn resolved(selection: i32, masks: Seq<u8>) -> usize {
    let highest: usize = match last_full(masks, MAX_PRESENTATIONS as int) {
        Some(i) => i,
        None => 0,
    };
    if selection == PRESENTATION_HIGHEST {
        match picked(masks, 3) {
            Some(i) => i,
            None => highest,
        }
    } else if selection == PRESENTATION_HIGHEST_CHANNEL_BASED {
        match (picked(masks, 2), picked(masks, 1), picked(masks, 0)) {
            (Some(i), _, _) => i,
            (None, Some(i), _) => i,
            (None, None, Some(i)) => i,
            (None, None, None) => 0,
        }
    } else if selection < 0 {
        highest
    } else {
        match picked(masks, selection as int) {
            Some(i) => i,
            None => highest,
        }
    }
}

fn pick(map: &PresentationMap, i: usize) -> (r: Option<usize>)
    ensures
        r == picked(map.masks@, i as int),
{
    match map.presentation_type_by_index(i) {
        PresentationType::Invalid => None,
        PresentationType::CopyOf(j) => Some(j),
        _ => Some(i),
    }
}

proof fn lemma_last_reached(masks: Seq<u8>, i: int, k: int)
    ensures
        last_reached(masks, i, k) matches Some(j) ==> 0 <= j < k,
    decreases k,
{
    if k > 0 {
        lemma_last_reached(masks, i, k - 1);
    }
}

proof fn lemma_last_full(masks: Seq<u8>, k: int)
    requires
        k <= MAX_PRESENTATIONS,
    ensures
        last_full(masks, k) matches Some(j) ==> 0 <= j < k,
    decreases k,
{
    if k > 0 {
        lemma_last_full(masks, k - 1);
    }
}

/// A selector always resolves to a presentation number, and the channel-based one never to the
/// object presentation.
pub proof fn law_resolved_range(selection: i32, masks: Seq<u8>)
    ensures
        resolved(selection, masks) < MAX_PRESENTATIONS,
        selection == PRESENTATION_HIGHEST_CHANNEL_BASED ==> resolved(selection, masks) <= 2,
{
    lemma_last_full(masks, MAX_PRESENTATIONS as int);
    lemma_last_reached(masks, 0, 0);
    lemma_last_reached(masks, 1, 1);
    lemma_last_reached(masks, 2, 2);
    lemma_last_reached(masks, 3, 3);
    lemma_last_reached(masks, selection as int, selection as int);
}

/// The presentation a selector decodes on this stream.
pub fn resolve(selection: i32, map: &PresentationMap) -> (r: usize)
    ensures
        r == resolved(selection, map.masks@),
        r < MAX_PRESENTATIONS,
        selection == PRESENTATION_HIGHEST_CHANNEL_BASED ==> r <= 2,
{
    proof {
        law_resolved_range(selection, map.masks@);
    }
    if selection == PRESENTATION_HIGHEST_CHANNEL_BASED {
        return match pick(map, 2) {
            Some(i) => i,
            None => match pick(map, 1) {
                Some(i) => i,
                None => match pick(map, 0) {
                    Some(i) => i,
                    None => 0,
                },
            },
        };
    }
    let wanted: Option<usize> = if selection == PRESENTATION_HIGHEST {
        pick(map, 3)
    } else if selection < 0 {
        None
    } else {
        pick(map, selection as usize)
    };
    match wanted {
        Some(i) => i,
        None => match map.max_independent_presentation() {
            Some(i) => i,
            None => 0,
        },
    }
}

/// Whether `selection` is a presentation number or one of the two selectors.
pub fn valid_selection(selection: i32) -> (r: bool)
    ensures
        r == (-2 <= selection <= 3),
{
    -2 <= selection && selection <= 3
}

/// What a parsed major sync access unit states, as plain values.
#[derive(Debug)]
pub struct SyncFacts {
    pub format_sync: u32,
    /// The 4-bit sampling rate code.
    pub sampling_code: u8,
    pub substreams: u32,
    pub substream_info: u8,
    pub extended_substream_info: u8,
    /// The extra channel meaning, if there is one: whether there are dynamic objects only, and
    /// the content description bits.
    pub extra_meaning: Option<(bool, u8)>,
    /// Per substream, the highest matrix channel of its first restart header, if it has one.
    pub matrix_channels: Vec<Option<u8>>,
    /// Per presentation, its channel labels, if they can be told.
    pub labels: Vec<Option<Vec<ChannelLabel>>>,
}

/// A stream's configuration.
#[derive(Clone, Copy, Debug)]
pub struct StreamDesc {
    pub format: u32,
    pub sample_rate: u32,
    pub access_unit_frames: u32,
    pub substreams: u32,
    pub immersive: bool,
    pub has_objects: bool,
    pub map: PresentationMap,
    pub presentations: [PresentationInfo; 4],
}

/// The sampling rate of a rate code: 48 kHz or 44.1 kHz, doubled up to twice.
pub open spec fn rate_of(code: u8) -> Option<u32> {
    if code == 0 {
        Some(48000u32)
    } else if code == 1 {
        Some(96000u32)
    } else if code == 2 {
        Some(192000u32)
    } else if code == 8 {
        Some(44100u32)
    } else if code == 9 {
        Some(88200u32)
    } else if code == 10 {
        Some(176400u32)
    } else {
        None
    }
}

/// The message that reports an invalid rate code.
pub open spec fn rate_error(code: u8) -> Seq<char> {
    "Invalid format_info: audio_sampling_frequency_1. Read 0x"@ + hexadecimal(code)
}

/// The sampling rate of a rate code.
///
/// Calls `FormatInfo::sampling_frequency_1` of `truehd::structs::sync`. Its error is a fixed text
/// and the code in upper-case hexadecimal.
#[verifier::external_body]
pub(crate) fn sampling_rate(code: u8) -> (r: Result<u32, String>)
    ensures
        match r {
            Ok(rate) => rate_of(code) == Some(rate),
            Err(text) => rate_of(code) is None && text@ == rate_error(code),
        },
{
    let mut format = truehd::structs::sync::FormatInfo::default();
    format.audio_sampling_frequency_1 = code;
    format.sampling_frequency_1().map_err(|e| e.to_string())
}

/// Samples per access unit at a valid rate code: 40 for each whole multiple of 44.1 kHz.
///
/// Calls `FormatInfo::samples_per_au` of `truehd::structs::sync`, which fails on no code that
/// has a sampling rate.
#[verifier::external_body]
pub(crate) fn samples_per_au(code: u8) -> (n: usize)
    requires
        rate_of(code) is Some,
    ensures
        n == rate_of(code)->0 / 44100 * 40,
{
    let mut format = truehd::structs::sync::FormatInfo::default();
    format.audio_sampling_frequency_1 = code;
    format.samples_per_au().unwrap_or(0)
}

impl SyncFacts {
    /// Whether the stream carries the object presentation.
    pub open spec fn immersive(self) -> bool {
        self.format_sync != MAJOR_SYNC_FBB && self.substream_info >= 128
    }

    /// Whether that presentation holds objects.
    pub open spec fn has_objects(self) -> bool {
        self.immersive() && (self.extra_meaning matches Some((dynamic_only, content)) && (
        dynamic_only || content & 6 != 0))
    }

    /// Channels of presentation `i`, at most `MAX_CHANNELS`.
    pub open spec fn channels(self, i: int) -> int {
        if i < self.matrix_channels.len() && self.matrix_channels[i] is Some {
            if self.matrix_channels[i]->0 < MAX_CHANNELS {
                self.matrix_channels[i]->0 + 1
            } else {
                MAX_CHANNELS as int
            }
        } else {
            0
        }
    }

    /// Channel labels of presentation `i`.
    pub open spec fn labels_of(self, i: int) -> Seq<ChannelLabel> {
        if i < self.labels.len() && self.labels[i] is Some {
            self.labels[i]->0@
        } else {
            Seq::empty()
        }
    }

    /// The masks its substream info declares.
    pub open spec fn masks(self) -> Seq<u8> {
        declared_masks(self.format_sync, self.substream_info, self.extended_substream_info)
    }
}

/// Whether `p` describes presentation `i` of the stream: absent if it is not carried, or decoded
/// from a substream that does not exist; else how it is carried, and its channels.
pub open spec fn presents(p: PresentationInfo, facts: SyncFacts, i: int) -> bool {
    let (ptype, source, decoded_as): (int, int, int) = match type_of(facts.masks(), i) {
        PresentationType::Invalid => (0, -1, -1),
        PresentationType::Independent => (PTYPE_INDEPENDENT as int, -1, i),
        PresentationType::DownmixOf(j) => (PTYPE_DOWNMIX as int, j as int, i),
        PresentationType::CopyOf(j) => (PTYPE_COPY as int, j as int, j as int),
    };
    if decoded_as < 0 || decoded_as >= facts.substreams {
        p.is_absent()
    } else {
        &&& p.ptype == ptype
        &&& p.source == source
        &&& p.channel_count == facts.channels(decoded_as)
        &&& p.speakers@ == roles_of(
            facts.labels_of(decoded_as),
            facts.channels(decoded_as),
            decoded_as == 3 && facts.has_objects(),
        )
    }
}

/// Whether `d` is the configuration that `facts` state.
pub open spec fn describes(d: StreamDesc, facts: SyncFacts) -> bool {
    &&& d.format == (if facts.format_sync == MAJOR_SYNC_FBB {
        FORMAT_MLP
    } else {
        FORMAT_TRUEHD
    })
    &&& rate_of(facts.sampling_code) == Some(d.sample_rate)
    &&& d.access_unit_frames == d.sample_rate / 44100 * 40
    &&& d.substreams == facts.substreams
    &&& d.immersive == facts.immersive()
    &&& d.has_objects == facts.has_objects()
    &&& d.map.masks@ == facts.masks()
    &&& forall|i: int|
        0 <= i < MAX_PRESENTATIONS ==> presents(#[trigger] d.presentations[i], facts, i)
}

fn presentation(facts: &SyncFacts, map: &PresentationMap, i: usize, has_objects: bool) -> (p:
    PresentationInfo)
    requires
        i < MAX_PRESENTATIONS,
        map.masks@ == facts.masks(),
        has_objects == facts.has_objects(),
    ensures
        presents(p, *facts, i as int),
{
    proof {
        lemma_last_reached(facts.masks(), i as int, i as int);
        lemma_first_cover(facts.masks(), i as int, i + 1);
    }
    let mut p = PresentationInfo::absent();
    let (ptype, source, decoded_as): (i32, i32, usize) = match map.presentation_type_by_index(i) {
        PresentationType::Invalid => return p,
        PresentationType::Independent => (PTYPE_INDEPENDENT, -1, i),
        PresentationType::DownmixOf(j) => (PTYPE_DOWNMIX, j as i32, i),
        PresentationType::CopyOf(j) => (PTYPE_COPY, j as i32, j),
    };
    if decoded_as as u32 >= facts.substreams {
        return p;
    }
    let mut channels: u32 = 0;
    if decoded_as < facts.matrix_channels.len() {
        if let Some(highest) = facts.matrix_channels[decoded_as] {
            channels = if (highest as usize) < MAX_CHANNELS {
                highest as u32 + 1
            } else {
                MAX_CHANNELS as u32
            };
        }
    }
    let none: Vec<ChannelLabel> = Vec::new();
    let mut labels: &[ChannelLabel] = none.as_slice();
    if decoded_as < facts.labels.len() {
        if let Some(known) = &facts.labels[decoded_as] {
            labels = known.as_slice();
        }
    }
    proof {
        assert(labels@ =~= facts.labels_of(decoded_as as int));
    }
    p.ptype = ptype;
    p.source = source;
    p.channel_count = channels;
    p.speakers = roles(labels, channels as usize, decoded_as == 3 && has_objects);
    p
}

proof fn lemma_first_cover(masks: Seq<u8>, i: int, j: int)
    requires
        0 <= j,
    ensures
        first_cover(masks, i, j) matches Some(k) ==> j <= k < MAX_PRESENTATIONS,
    decreases MAX_PRESENTATIONS - j,
{
    if j < MAX_PRESENTATIONS {
        lemma_first_cover(masks, i, j + 1);
    }
}

/// Learns a stream's configuration from a major sync access unit that was parsed with every
/// presentation required: the parser's failure, nothing for an access unit without a major
/// sync, or what it states.
pub fn probe(parsed: Result<Option<SyncFacts>, String>) -> (r: Result<StreamDesc, String>)
    ensures
        match parsed {
            Err(text) => r is Err && r->Err_0@ == "probe: "@ + text@,
            Ok(None) => r is Err && r->Err_0@ == "probe: not a major sync"@,
            Ok(Some(facts)) => match rate_of(facts.sampling_code) {
                None => r is Err && r->Err_0@ == rate_error(facts.sampling_code),
                Some(_) => r is Ok && describes(r->Ok_0, facts),
            },
        },
{
    let facts: SyncFacts = match parsed {
        Err(text) => {
            let message: String = String::from_str("probe: ").concat(text.as_str());
            return Err(message);
        },
        Ok(None) => {
            return Err(String::from_str("probe: not a major sync"));
        },
        Ok(Some(facts)) => facts,
    };
    let is_fbb: bool = facts.format_sync == MAJOR_SYNC_FBB;
    let map = PresentationMap::for_format_sync(
        facts.format_sync,
        facts.substream_info,
        facts.extended_substream_info,
    );
    let sample_rate: u32 = match sampling_rate(facts.sampling_code) {
        Err(text) => return Err(text),
        Ok(rate) => rate,
    };
    let access_unit_frames: u32 = samples_per_au(facts.sampling_code) as u32;
    let immersive: bool = !is_fbb && facts.substream_info >= 128;
    let has_objects: bool = immersive && match facts.extra_meaning {
        Some((dynamic_only, content)) => dynamic_only || content & 6 != 0,
        None => false,
    };
    let p0 = presentation(&facts, &map, 0, has_objects);
    let p1 = presentation(&facts, &map, 1, has_objects);
    let p2 = presentation(&facts, &map, 2, has_objects);
    let p3 = presentation(&facts, &map, 3, has_objects);
    let presentations: [PresentationInfo; 4] = [p0, p1, p2, p3];
    Ok(
        StreamDesc {
            format: if is_fbb {
                FORMAT_MLP
            } else {
                FORMAT_TRUEHD
            },
            sample_rate,
            access_unit_frames,
            substreams: facts.substreams,
            immersive,
            has_objects,
            map,
            presentations,
        },
    )
}

} // verus!
