//! Which newer build is waiting to be installed.
//!
//! A check keeps whatever it turned up, and installing works from that value: what
//! gets written over the app is the exact build whose version the user was shown
//! and agreed to, not whatever the feed happens to say a moment later.
use vstd::prelude::*;

use crate::purge::optional_text;

verus! {

/// A build that is newer than this one.
#[derive(Debug)]
pub struct UpdateInfo {
    pub version: String,
    pub current: String,
    pub notes: Option<String>,
}

/// What an [`UpdateInfo`] says.
pub struct UpdateInfoView {
    pub version: Seq<char>,
    pub current: Seq<char>,
    pub notes: Option<Seq<char>>,
}

impl View for UpdateInfo {
    type V = UpdateInfoView;

    open spec fn view(&self) -> UpdateInfoView {
        UpdateInfoView {
            version: self.version@,
            current: self.current@,
            notes: optional_text(self.notes),
        }
    }
}

impl Clone for UpdateInfo {
    fn clone(&self) -> (r: Self)
        ensures
            r@ == self@,
    {
        let notes = match &self.notes {
            Some(text) => Some(text.clone()),
            None => None,
        };
        UpdateInfo { version: self.version.clone(), current: self.current.clone(), notes }
    }
}

/// What an optional build says.
pub open spec fn optional_build(build: Option<UpdateInfo>) -> Option<UpdateInfoView> {
    match build {
        Some(build) => Some(build@),
        None => None,
    }
}

/// The build that is waiting.
#[derive(Debug)]
pub struct UpdateSlot {
    pub waiting: Option<UpdateInfo>,
}

impl View for UpdateSlot {
    type V = Option<UpdateInfoView>;

    open spec fn view(&self) -> Option<UpdateInfoView> {
        optional_build(self.waiting)
    }
}

/// What is waiting after a check: what it found, which may be nothing. A check
/// that failed says nothing either way.
pub open spec fn waiting_after(
    before: Option<UpdateInfoView>,
    checked: Result<Option<UpdateInfo>, String>,
) -> Option<UpdateInfoView> {
    match checked {
        Ok(found) => optional_build(found),
        Err(_) => before,
    }
}

impl UpdateSlot {
    pub fn new() -> (r: UpdateSlot)
        ensures
            r@ is None,
    {
        UpdateSlot { waiting: None }
    }

    /// Keep what a check of the release feed turned up, and pass it on.
    ///
    /// Nothing newer is a normal answer and not a failure: being offline must not
    /// read as being up to date.
    pub fn look_for_update(&mut self, checked: Result<Option<UpdateInfo>, String>) -> (r: Result<
        Option<UpdateInfo>,
        String,
    >)
        ensures
            final(self)@ == waiting_after(old(self)@, checked),
            (match (checked, r) {
                (Ok(found), Ok(shown)) => optional_build(shown) == optional_build(found),
                (Err(why), Err(told)) => told@ == why@,
                _ => false,
            }),
    {
        match checked {
            Ok(Some(build)) => {
                self.waiting = Some(build.clone());
                Ok(Some(build))
            },
            Ok(None) => {
                self.waiting = None;
                Ok(None)
            },
            Err(why) => Err(why),
        }
    }

    /// The build to install, or why there is none.
    pub fn update_install(&self) -> (r: Result<UpdateInfo, String>)
        ensures
            (match r {
                Ok(build) => self@ == Some(build@),
                Err(why) => self@ is None && why@ == "no update is waiting — check again"@,
            }),
    {
        match &self.waiting {
            Some(build) => Ok(build.clone()),
            None => Err("no update is waiting — check again".to_string()),
        }
    }
}

/// How far a download is.
#[derive(Debug, Clone, Copy, PartialEq, Eq, Structural)]
pub struct UpdateProgress {
    pub downloaded: u64,
    pub total: Option<u64>,
}

impl UpdateProgress {
    /// A download that has not started.
    pub fn new() -> (r: UpdateProgress)
        ensures
            r.downloaded == 0,
            r.total is None,
    {
        UpdateProgress { downloaded: 0, total: None }
    }

    /// Another chunk has arrived.
    pub fn arrived(&mut self, chunk: u64, total: Option<u64>)
        requires
            old(self).downloaded + chunk <= u64::MAX,
        ensures
            final(self).downloaded == old(self).downloaded + chunk,
            final(self).total == total,
    {
        self.downloaded = self.downloaded + chunk;
        self.total = total;
    }
}

/// What is installed is what was shown: the build that the last check to succeed
/// turned up, whatever checks failed since. Without such a build nothing is.
pub proof fn law_installed_is_what_was_shown(
    before: Option<UpdateInfoView>,
    shown: Option<UpdateInfo>,
    failed: Seq<String>,
    n: int,
)
    requires
        0 <= n <= failed.len(),
    ensures
        waiting_after_failures(waiting_after(before, Ok(shown)), failed, n) == optional_build(shown),
    decreases n,
{
    if n > 0 {
        law_installed_is_what_was_shown(before, shown, failed, n - 1);
    }
}

/// What is waiting after `n` checks that failed.
pub open spec fn waiting_after_failures(
    before: Option<UpdateInfoView>,
    failed: Seq<String>,
    n: int,
) -> Option<UpdateInfoView>
    decreases n,
{
    if n <= 0 {
        before
    } else {
        waiting_after(waiting_after_failures(before, failed, n - 1), Err(failed[n - 1]))
    }
}

/// A check that succeeds replaces what was waiting, with nothing if it found nothing;
/// a check that fails leaves it.
pub proof fn law_checks_replace_what_waits(
    before: Option<UpdateInfoView>,
    found: UpdateInfo,
    why: String,
)
    ensures
        waiting_after(before, Ok(Some(found))) == Some(found@),
        waiting_after(before, Ok(None)) is None,
        waiting_after(before, Err(why)) == before,
        found@.version == found.version@ && found@.current == found.current@,
        found.notes is None ==> found@.notes is None,
        found.notes is Some ==> found@.notes == Some(found.notes->0@),
{
}

} // verus!
