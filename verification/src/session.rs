//! The installer's session across commands: at most one install at a time,
//! its cancellation flag, and a close of the window deferred until the
//! install has ended.

use std::sync::atomic::AtomicBool;
use std::sync::atomic::Ordering;
use std::sync::Arc;
use vstd::prelude::*;

use crate::text::owned;

verus! {

pub const MSG_NOT_GAME_DIR: &'static str = "올바른 Devil Connection 게임 폴더를 찾을 수 없습니다.";
pub const MSG_GAME_RUNNING: &'static str = "게임이 현재 실행 중입니다.\n게임을 완전히 종료한 뒤 다시 시도해주세요.";
pub const MSG_BUSY: &'static str = "이미 설치가 진행 중입니다.";

/// The session state.
pub struct AppState {
    cancel: Option<Arc<AtomicBool>>,
    install_in_progress: bool,
    close_after_install: bool,
}

/// The session state as plain values.
pub struct SessionView {
    /// Whether the running install's cancellation flag is held.
    pub has_cancel: bool,
    /// Whether an install runs.
    pub in_progress: bool,
    /// Whether the window is to close once the install ends.
    pub close_after: bool,
}

impl AppState {
    /// The session state.
    pub closed spec fn view(&self) -> SessionView {
        SessionView {
            has_cancel: self.cancel is Some,
            in_progress: self.install_in_progress,
            close_after: self.close_after_install,
        }
    }

    /// A session with no install.
    pub fn new() -> (s: Self)
        ensures
            s@ == (SessionView { has_cancel: false, in_progress: false, close_after: false }),
    {
        AppState { cancel: None, install_in_progress: false, close_after_install: false }
    }

    /// Starts an install of a folder that is (`valid`) or is not the game's,
    /// with the game running (`running`) or not: refused, with the reason,
    /// for a folder that is not the game's, while the game runs, or while
    /// another install runs; otherwise gives the new install's cancellation
    /// flag.
    pub fn start_install(&mut self, valid: bool, running: bool) -> (r: Result<Arc<AtomicBool>, String>)
        ensures
            final(self)@ == started(old(self)@, valid, running).0,
            match started(old(self)@, valid, running).1 {
                None => r is Ok,
                Some(m) => r matches Err(e) && e@ == m,
            },
    {
        if !valid {
            return Err(owned(MSG_NOT_GAME_DIR));
        }
        if running {
            return Err(owned(MSG_GAME_RUNNING));
        }
        let cancel = Arc::new(AtomicBool::new(false));
        if self.install_in_progress {
            return Err(owned(MSG_BUSY));
        }
        self.cancel = Some(cancel.clone());
        self.install_in_progress = true;
        self.close_after_install = false;
        Ok(cancel)
    }

    /// Ends the running install; gives whether the window is to close now.
    pub fn finish_install(&mut self) -> (close: bool)
        ensures
            (final(self)@, close) == finished(old(self)@),
    {
        self.cancel = None;
        self.install_in_progress = false;
        let close = self.close_after_install;
        self.close_after_install = false;
        close
    }

    /// Asks the running install, if any, to stop; with `close_after`, the
    /// window closes once it has.
    pub fn cancel_install(&mut self, close_after: Option<bool>)
        ensures
            final(self)@ == cancelled(old(self)@, close_after),
    {
        let close = match close_after {
            Some(b) => b,
            None => false,
        };
        if close {
            self.close_after_install = true;
        }
        match &self.cancel {
            Some(flag) => flag.store(true, Ordering::SeqCst),
            None => {},
        }
    }

    /// Whether a request to close the window is to be held back: while an
    /// install runs.
    pub fn hold_close(&self) -> (hold: bool)
        ensures
            hold == self@.in_progress,
    {
        self.install_in_progress
    }
}

/// The session after a start with `valid` and `running`, and the reason
/// for a refusal (`None` when the install starts).
pub open spec fn started(s: SessionView, valid: bool, running: bool) -> (SessionView, Option<Seq<char>>) {
    if !valid {
        (s, Some(MSG_NOT_GAME_DIR@))
    } else if running {
        (s, Some(MSG_GAME_RUNNING@))
    } else if s.in_progress {
        (s, Some(MSG_BUSY@))
    } else {
        (SessionView { has_cancel: true, in_progress: true, close_after: false }, None)
    }
}

/// The session after a cancellation with `close_after`.
pub open spec fn cancelled(s: SessionView, close_after: Option<bool>) -> SessionView {
    SessionView { close_after: s.close_after || close_after == Some(true), ..s }
}

/// The session after the install finished, and whether the window closes.
pub open spec fn finished(s: SessionView) -> (SessionView, bool) {
    (SessionView { has_cancel: false, in_progress: false, close_after: false }, s.close_after)
}

/// Only one install runs at a time, and a close asked for during an install
/// happens when it ends: after a successful start, further starts are
/// refused as busy, also after a cancellation; when the install finishes,
/// the window closes exactly if a cancellation asked for it, and a new start
/// succeeds again.
pub proof fn lemma_one_install_at_a_time(s: SessionView, close_after: Option<bool>, r: bool)
    requires
        !s.in_progress,
    ensures
        ({
            let s1 = started(s, true, false).0;
            let s2 = cancelled(s1, close_after);
            let (s3, close) = finished(s2);
            &&& started(s, true, false).1 is None
            &&& started(s1, true, r).1 is Some
            &&& started(s2, true, false).1 == Some(MSG_BUSY@)
            &&& close == (close_after == Some(true))
            &&& started(s3, true, false).1 is None
        }),
{
}

} // verus!
