//! Which canonical slot a downloaded subtitle file belongs in, judged by the
//! language tag in its file name.
use vstd::prelude::*;
use crate::text::{chars_of, contains, contains_exec};

verus! {

/// The canonical files of a batch run.
#[derive(Debug, Clone, Copy, PartialEq, Eq, Structural)]
pub enum SrtSlot {
    Chinese,
    English,
    Bilingual,
}

pub const CHINESE_TAG: &'static str = "[Chinese (Simplified)]";

pub const BILINGUAL_TAG: &'static str = "[English - English-Chinese (Simplified)]";

pub const ENGLISH_TAG: &'static str = "[English - English]";

/// The slot a file name calls for: the Chinese tag first, then the bilingual
/// tag, then the English one.
pub open spec fn slot_of_name(name: Seq<char>) -> Option<SrtSlot> {
    if contains(name, CHINESE_TAG@) {
        Some(SrtSlot::Chinese)
    } else if contains(name, BILINGUAL_TAG@) {
        Some(SrtSlot::Bilingual)
    } else if contains(name, ENGLISH_TAG@) {
        Some(SrtSlot::English)
    } else {
        None
    }
}

/// The slot that a subtitle file name belongs in, if it carries a known tag.
pub fn classify_srt_name(name: &str) -> (r: Option<SrtSlot>)
    ensures
        r == slot_of_name(name@),
{
    let n = chars_of(name);
    let zh = chars_of(CHINESE_TAG);
    let bil = chars_of(BILINGUAL_TAG);
    let en = chars_of(ENGLISH_TAG);
    if contains_exec(n.as_slice(), zh.as_slice()) {
        Some(SrtSlot::Chinese)
    } else if contains_exec(n.as_slice(), bil.as_slice()) {
        Some(SrtSlot::Bilingual)
    } else if contains_exec(n.as_slice(), en.as_slice()) {
        Some(SrtSlot::English)
    } else {
        None
    }
}

/// The file name of a slot.
pub fn slot_file_name(slot: SrtSlot) -> (r: &'static str)
    ensures
        r@ == match slot {
            SrtSlot::Chinese => "zh_srt.srt"@,
            SrtSlot::English => "en_srt.srt"@,
            SrtSlot::Bilingual => "bil_srt.srt"@,
        },
{
    match slot {
        SrtSlot::Chinese => "zh_srt.srt",
        SrtSlot::English => "en_srt.srt",
        SrtSlot::Bilingual => "bil_srt.srt",
    }
}

} // verus!
