use vstd::prelude::*;

use std::collections::hash_map::DefaultHasher;
use std::hash::Hasher;
use vstd::std_specs::hash::DefaultHasherAdditionalSpecFns;

verus! {

/// A color given by its red, green and blue components.
#[derive(Clone, Copy, Debug, PartialEq, Eq, Structural)]
pub struct Rgb {
    pub r: u8,
    pub g: u8,
    pub b: u8,
}

/// The writes that `Hash::hash` for `str` makes to a hasher for the text
/// `name` (the text's bytes, then a terminator).
pub uninterp spec fn str_hash_writes(name: Seq<char>) -> Seq<Seq<u8>>;

/// Feeds `name` to `hasher`; a wrapper of `Hash::hash` for `str`. The
/// contract names the writes it makes, which depend on the text alone.
#[verifier::external_body]
fn feed_name(name: &str, hasher: &mut DefaultHasher)
    ensures
        final(hasher)@ == old(hasher)@ + str_hash_writes(name@),
{
    std::hash::Hash::hash(name, hasher);
}

/// The hash of the text `name` with a fresh `DefaultHasher`.
pub open spec fn name_hash_of(name: Seq<char>) -> u64 {
    DefaultHasher::spec_finish(str_hash_writes(name))
}

/// The position in the peer palettes of the name `name`.
pub open spec fn hue_of(name: Seq<char>) -> int {
    (name_hash_of(name) % 8) as int
}

/// The hash of `name` with a fresh `DefaultHasher`.
fn name_hash(name: &str) -> (h: u64)
    ensures
        h == name_hash_of(name@),
{
    let mut hasher = DefaultHasher::new();
    feed_name(name, &mut hasher);
    proof {
        assert(Seq::<Seq<u8>>::empty() + str_hash_writes(name@) =~= str_hash_writes(name@));
    }
    hasher.finish()
}

/// Entry `k` of the palette of peer names shown on a dark background.
pub open spec fn dark_peer_color(k: int) -> Rgb {
    if k == 0 {
        Rgb { r: 128, g: 195, b: 255 }
    } else if k == 1 {
        Rgb { r: 255, g: 153, b: 253 }
    } else if k == 2 {
        Rgb { r: 102, g: 255, b: 212 }
    } else if k == 3 {
        Rgb { r: 255, g: 128, b: 164 }
    } else if k == 4 {
        Rgb { r: 255, g: 163, b: 102 }
    } else if k == 5 {
        Rgb { r: 51, g: 252, b: 255 }
    } else if k == 6 {
        Rgb { r: 158, g: 153, b: 255 }
    } else {
        Rgb { r: 197, g: 255, b: 153 }
    }
}

/// Entry `k` of the palette of peer names shown on a light background: the
/// same hues, darkened.
pub open spec fn light_peer_color(k: int) -> Rgb {
    if k == 0 {
        Rgb { r: 21, g: 94, b: 156 }
    } else if k == 1 {
        Rgb { r: 158, g: 30, b: 148 }
    } else if k == 2 {
        Rgb { r: 12, g: 122, b: 96 }
    } else if k == 3 {
        Rgb { r: 163, g: 30, b: 66 }
    } else if k == 4 {
        Rgb { r: 158, g: 82, b: 15 }
    } else if k == 5 {
        Rgb { r: 12, g: 116, b: 128 }
    } else if k == 6 {
        Rgb { r: 76, g: 62, b: 178 }
    } else {
        Rgb { r: 86, g: 118, b: 24 }
    }
}

/// Entry `k` of the palette of avatars without a picture.
pub open spec fn avatar_color(k: int) -> Rgb {
    if k == 0 {
        Rgb { r: 88, g: 101, b: 242 }
    } else if k == 1 {
        Rgb { r: 87, g: 242, b: 135 }
    } else if k == 2 {
        Rgb { r: 254, g: 231, b: 92 }
    } else if k == 3 {
        Rgb { r: 235, g: 69, b: 158 }
    } else if k == 4 {
        Rgb { r: 255, g: 138, b: 76 }
    } else {
        Rgb { r: 116, g: 200, b: 255 }
    }
}

fn dark_entry(k: u64) -> (c: Rgb)
    requires
        k < 8,
    ensures
        c == dark_peer_color(k as int),
{
    if k == 0 {
        Rgb { r: 128, g: 195, b: 255 }
    } else if k == 1 {
        Rgb { r: 255, g: 153, b: 253 }
    } else if k == 2 {
        Rgb { r: 102, g: 255, b: 212 }
    } else if k == 3 {
        Rgb { r: 255, g: 128, b: 164 }
    } else if k == 4 {
        Rgb { r: 255, g: 163, b: 102 }
    } else if k == 5 {
        Rgb { r: 51, g: 252, b: 255 }
    } else if k == 6 {
        Rgb { r: 158, g: 153, b: 255 }
    } else {
        Rgb { r: 197, g: 255, b: 153 }
    }
}

fn light_entry(k: u64) -> (c: Rgb)
    requires
        k < 8,
    ensures
        c == light_peer_color(k as int),
{
    if k == 0 {
        Rgb { r: 21, g: 94, b: 156 }
    } else if k == 1 {
        Rgb { r: 158, g: 30, b: 148 }
    } else if k == 2 {
        Rgb { r: 12, g: 122, b: 96 }
    } else if k == 3 {
        Rgb { r: 163, g: 30, b: 66 }
    } else if k == 4 {
        Rgb { r: 158, g: 82, b: 15 }
    } else if k == 5 {
        Rgb { r: 12, g: 116, b: 128 }
    } else if k == 6 {
        Rgb { r: 76, g: 62, b: 178 }
    } else {
        Rgb { r: 86, g: 118, b: 24 }
    }
}

fn avatar_entry(k: u64) -> (c: Rgb)
    requires
        k < 6,
    ensures
        c == avatar_color(k as int),
{
    if k == 0 {
        Rgb { r: 88, g: 101, b: 242 }
    } else if k == 1 {
        Rgb { r: 87, g: 242, b: 135 }
    } else if k == 2 {
        Rgb { r: 254, g: 231, b: 92 }
    } else if k == 3 {
        Rgb { r: 235, g: 69, b: 158 }
    } else if k == 4 {
        Rgb { r: 255, g: 138, b: 76 }
    } else {
        Rgb { r: 116, g: 200, b: 255 }
    }
}

/// The color of a peer's name in a thread with several people: the entry
/// of the dark palette that the hash of the name chooses.
pub fn peer_color(username: &str) -> (c: Rgb)
    ensures
        c == dark_peer_color(hue_of(username@)),
{
    peer_color_for(username, true)
}

/// The color of a peer's name for the background in use: the entry of the
/// dark or the light palette that the hash of the name chooses.
pub fn peer_color_for(username: &str, dark_mode: bool) -> (c: Rgb)
    ensures
        c == if dark_mode {
            dark_peer_color(hue_of(username@))
        } else {
            light_peer_color(hue_of(username@))
        },
{
    let k = name_hash(username) % 8;
    if dark_mode {
        dark_entry(k)
    } else {
        light_entry(k)
    }
}

/// The color of an avatar without a picture: the entry of the avatar
/// palette that the hash of the name chooses.
pub fn placeholder_color(name: &str) -> (c: Rgb)
    ensures
        c == avatar_color((name_hash_of(name@) % 6) as int),
{
    let k = name_hash(name) % 6;
    avatar_entry(k)
}

/// The position in the peer palettes that a name's hash chooses: a name
/// always gets the same one, on both backgrounds, and it is a position of
/// the palettes.
pub proof fn hue_is_a_palette_position(name: Seq<char>)
    ensures
        0 <= hue_of(name) < 8,
        name_hash_of(name) % 6 < 6,
{
}

} // verus!
