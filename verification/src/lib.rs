use vstd::prelude::*;

pub mod chars;
pub mod text_ops;
pub mod text;
pub mod text_map;
pub mod shortcode;
pub mod emoji_picker;
pub mod composer;
pub mod markdown;
pub mod chat;
pub mod media;
pub mod groups;
pub mod group_manage;
pub mod snapshot;
pub mod dates;
pub mod colors;
pub mod render;
pub mod navigation;
pub mod sending;
pub mod thread;
pub mod storage;
pub mod events;

verus! {

} // verus!
