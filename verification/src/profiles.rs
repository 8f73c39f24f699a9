//! The memory layout of the vinyl editor in the supported games.
//!
//! Every offset is part of the layout of a running game: the importer writes into
//! live memory with them.

use vstd::prelude::*;
use vstd::string::*;

use crate::text::{all_ascii, ascii_lowered, lowercase, same_text, to_lowercase};

verus! {

/// How one game is recognised and where its vinyl editor keeps things.
#[derive(Clone, Copy)]
pub struct GameProfile {
    pub key: &'static str,
    pub label: &'static str,
    pub process_names: &'static [&'static str],
    pub signature_patterns: &'static [&'static [u8]],
    pub scan_regions: &'static [(u64, u64)],
    pub validation_mirror_offset: u64,
    pub livery_root_pointer_offset: u64,
    pub editor_pointer_offset: u64,
    pub livery_pointer_offset: u64,
    pub livery_group_offset: u64,
    pub livery_count_offset: u64,
    pub layer_table_offset: u64,
    pub layer_position_offset: u64,
    pub layer_scale_offset: u64,
    pub layer_rotation_offset: u64,
    pub layer_color_offset: u64,
    pub layer_mask_offset: u64,
    pub layer_shape_id_offset: u64,
}

/// From the address of the layer count to the field that points to the layer
/// table, where only the count is known.
pub const FH6_DISCOVERED_TABLE_POINTER_DELTA: u64 = 0x1E;

/// The layout that the supported games share.
pub open spec fn shared_layout(p: GameProfile) -> bool {
    &&& p.signature_patterns@.len() == 1
    &&& p.signature_patterns@[0]@ == seq![0x12u8, 0x47, 0x9B, 0x13, 0x29, 0xD9, 0xA2, 0xB1]
    &&& p.scan_regions@ == seq![
        (0x06000000u64, 0x02000000u64),
        (0x08000000u64, 0x02000000u64),
        (0x0A000000u64, 0x02000000u64),
    ]
    &&& p.validation_mirror_offset == 0x70
    &&& p.livery_root_pointer_offset == 0xB8
    &&& p.editor_pointer_offset == 0xA58
    &&& p.livery_pointer_offset == 0x8
    &&& p.livery_group_offset == 0x20
    &&& p.livery_count_offset == 0x5A
    &&& p.layer_table_offset == 0x78
    &&& p.layer_position_offset == 0x18
    &&& p.layer_scale_offset == 0x28
    &&& p.layer_rotation_offset == 0x50
    &&& p.layer_color_offset == 0x74
    &&& p.layer_mask_offset == 0x78
    &&& p.layer_shape_id_offset == 0x7A
}

/// Whether `p` is the profile of Forza Horizon 6.
pub open spec fn is_fh6(p: GameProfile) -> bool {
    &&& shared_layout(p)
    &&& p.key@ == "fh6"@
    &&& p.label@ == "Forza Horizon 6"@
    &&& p.process_names@.len() == 2
    &&& p.process_names@[0]@ == "ForzaHorizon6.exe"@
    &&& p.process_names@[1]@ == "ForzaHorizon6-Win64-Shipping.exe"@
}

/// Whether `p` is the profile of Forza Horizon 5.
pub open spec fn is_fh5(p: GameProfile) -> bool {
    &&& shared_layout(p)
    &&& p.key@ == "fh5"@
    &&& p.label@ == "Forza Horizon 5"@
    &&& p.process_names@.len() == 1
    &&& p.process_names@[0]@ == "ForzaHorizon5.exe"@
}

/// A profile with the shared layout.
fn base(
    key: &'static str,
    label: &'static str,
    process_names: &'static [&'static str],
) -> (r: GameProfile)
    ensures
        shared_layout(r),
        r.key == key,
        r.label == label,
        r.process_names == process_names,
{
    GameProfile {
        key,
        label,
        process_names,
        signature_patterns: &[&[0x12, 0x47, 0x9B, 0x13, 0x29, 0xD9, 0xA2, 0xB1]],
        scan_regions: &[
            (0x06000000, 0x02000000),
            (0x08000000, 0x02000000),
            (0x0A000000, 0x02000000),
        ],
        validation_mirror_offset: 0x70,
        livery_root_pointer_offset: 0xB8,
        editor_pointer_offset: 0xA58,
        livery_pointer_offset: 0x8,
        livery_group_offset: 0x20,
        livery_count_offset: 0x5A,
        layer_table_offset: 0x78,
        layer_position_offset: 0x18,
        layer_scale_offset: 0x28,
        layer_rotation_offset: 0x50,
        layer_color_offset: 0x74,
        layer_mask_offset: 0x78,
        layer_shape_id_offset: 0x7A,
    }
}

fn fh6() -> (r: GameProfile)
    ensures
        is_fh6(r),
{
    base(
        "fh6",
        "Forza Horizon 6",
        &["ForzaHorizon6.exe", "ForzaHorizon6-Win64-Shipping.exe"],
    )
}

fn fh5() -> (r: GameProfile)
    ensures
        is_fh5(r),
{
    base("fh5", "Forza Horizon 5", &["ForzaHorizon5.exe"])
}

/// Whether a game goes by this key, whatever the case of its letters.
pub open spec fn known_game(key: Seq<char>) -> bool {
    lowercase(key) == "fh6"@ || lowercase(key) == "fh5"@
}

/// Whether `p` is the profile of the game with this key.
pub open spec fn profile_of(key: Seq<char>, p: GameProfile) -> bool {
    if lowercase(key) == "fh6"@ {
        is_fh6(p)
    } else {
        lowercase(key) == "fh5"@ && is_fh5(p)
    }
}

/// The profile with the key `key`, whatever the case of its letters.
pub fn get_profile(key: &str) -> (r: Option<GameProfile>)
    ensures
        match r {
            Some(p) => profile_of(key@, p),
            None => !known_game(key@),
        },
        all_ascii(key@) ==> lowercase(key@) == ascii_lowered(key@),
{
    let lower = to_lowercase(key);
    if same_text(lower.as_str(), "fh6") {
        Some(fh6())
    } else if same_text(lower.as_str(), "fh5") {
        Some(fh5())
    } else {
        None
    }
}

/// Every supported game, the newest first.
pub fn all_profiles() -> (r: Vec<GameProfile>)
    ensures
        r@.len() == 2,
        is_fh6(r@[0]),
        is_fh5(r@[1]),
{
    vec![fh6(), fh5()]
}

} // verus!
