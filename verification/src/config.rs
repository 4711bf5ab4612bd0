//! Fixed texts of the installer window.

use vstd::prelude::*;

verus! {

/// The window title.
pub const APP_TITLE: &'static str = "でびるコネクショん 한글패치";

/// The translators' credits shown under the title.
pub const CREDITS: &'static str = "메인 시나리오 번역 검수: Ewan | 이미지 번역: 토니, 체퓨 | 영상 번역: 민버드";

} // verus!
