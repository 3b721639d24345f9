//! Downloading a file: what to do next, and what to tell the window.
use vstd::prelude::*;
use crate::text::split;
use crate::url::{download_file_name, law_file_name_follows_last_slash};

verus! {

/// What the window is told of a download.
#[derive(Debug)]
pub enum DownloadMsg {
    /// The address, and how many percent have been done.
    Progress(String, u8),
    /// The address, and where the file is.
    Done(String, String),
    /// The address, and what went wrong.
    Error(String, String),
}

/// The contents of a [`DownloadMsg`].
pub enum DownloadMsgView {
    Progress(Seq<char>, u8),
    Done(Seq<char>, Seq<char>),
    Error(Seq<char>, Seq<char>),
}

impl View for DownloadMsg {
    type V = DownloadMsgView;

    open spec fn view(&self) -> DownloadMsgView {
        match *self {
            DownloadMsg::Progress(url, percent) => DownloadMsgView::Progress(url@, percent),
            DownloadMsg::Done(url, path) => DownloadMsgView::Done(url@, path@),
            DownloadMsg::Error(url, reason) => DownloadMsgView::Error(url@, reason@),
        }
    }
}

/// What has happened to a download.
#[derive(Debug)]
pub enum DownloadEvent {
    /// It was asked for.
    Started,
    /// The file was fetched, or could not be.
    Fetched(bool),
    /// The user's profile was found, or could not be.
    ProfileFound(bool),
    /// The file was created at this place, or could not be.
    Stored(Option<String>),
}

/// What is to be done next for a download.
#[derive(Debug)]
pub enum DownloadAction {
    Fetch,
    FindProfile,
    /// Store the file under this name among the user's downloads.
    Store(String),
    Finish,
}

/// The contents of a [`DownloadAction`].
pub enum DownloadActionView {
    Fetch,
    FindProfile,
    Store(Seq<char>),
    Finish,
}

impl View for DownloadAction {
    type V = DownloadActionView;

    open spec fn view(&self) -> DownloadActionView {
        match *self {
            DownloadAction::Fetch => DownloadActionView::Fetch,
            DownloadAction::FindProfile => DownloadActionView::FindProfile,
            DownloadAction::Store(name) => DownloadActionView::Store(name@),
            DownloadAction::Finish => DownloadActionView::Finish,
        }
    }
}

/// What the window is told after `event` has happened to the download of `url`.
pub open spec fn download_message(url: Seq<char>, event: DownloadEvent) -> Option<DownloadMsgView> {
    match event {
        DownloadEvent::Started => Some(DownloadMsgView::Progress(url, 10)),
        DownloadEvent::Fetched(true) => None,
        DownloadEvent::Fetched(false) => Some(
            DownloadMsgView::Error(url, "Network error / Błąd sieci"@),
        ),
        DownloadEvent::ProfileFound(_) => None,
        DownloadEvent::Stored(Some(path)) => Some(DownloadMsgView::Done(url, path@)),
        DownloadEvent::Stored(None) => Some(
            DownloadMsgView::Error(url, "Write permission denied / Brak uprawnień zapisu"@),
        ),
    }
}

/// What is to be done after `event` has happened to the download of `url`.
pub open spec fn download_action(url: Seq<char>, event: DownloadEvent) -> DownloadActionView {
    match event {
        DownloadEvent::Started => DownloadActionView::Fetch,
        DownloadEvent::Fetched(true) => DownloadActionView::FindProfile,
        DownloadEvent::ProfileFound(true) => DownloadActionView::Store(split(url, '/').last()),
        _ => DownloadActionView::Finish,
    }
}

/// The contents of a message that may be missing.
pub open spec fn opt_message(message: Option<DownloadMsg>) -> Option<DownloadMsgView> {
    match message {
        Some(m) => Some(m@),
        None => None,
    }
}

/// What to tell the window, and what to do next, after `event` has happened to the download of
/// `url`.
pub fn download_step(url: &str, event: DownloadEvent) -> (r: (Option<DownloadMsg>, DownloadAction))
    ensures
        opt_message(r.0) == download_message(url@, event),
        r.1@ == download_action(url@, event),
{
    match event {
        DownloadEvent::Started => (
            Some(DownloadMsg::Progress(url.to_string(), 10)),
            DownloadAction::Fetch,
        ),
        DownloadEvent::Fetched(true) => (None, DownloadAction::FindProfile),
        DownloadEvent::Fetched(false) => {
            let reason = "Network error / Błąd sieci".to_string();
            (Some(DownloadMsg::Error(url.to_string(), reason)), DownloadAction::Finish)
        },
        DownloadEvent::ProfileFound(true) => (None, DownloadAction::Store(download_file_name(url))),
        DownloadEvent::ProfileFound(false) => (None, DownloadAction::Finish),
        DownloadEvent::Stored(Some(path)) => (
            Some(DownloadMsg::Done(url.to_string(), path)),
            DownloadAction::Finish,
        ),
        DownloadEvent::Stored(None) => {
            let reason = "Write permission denied / Brak uprawnień zapisu".to_string();
            (Some(DownloadMsg::Error(url.to_string(), reason)), DownloadAction::Finish)
        },
    }
}

/// A download is over with the message that it is done or has failed, and not before.
pub proof fn law_last_word_ends_download(url: Seq<char>, event: DownloadEvent)
    ensures
        download_message(url, event) matches Some(DownloadMsgView::Done(_, _)) ==> download_action(
            url,
            event,
        ) is Finish,
        download_message(url, event) matches Some(DownloadMsgView::Error(_, _)) ==> download_action(
            url,
            event,
        ) is Finish,
        download_action(url, event) is Finish && !(event matches DownloadEvent::ProfileFound(false))
            ==> download_message(url, event) is Some,
        download_message(url, event) matches Some(message) ==> (match message {
            DownloadMsgView::Progress(u, _) => u == url,
            DownloadMsgView::Done(u, _) => u == url,
            DownloadMsgView::Error(u, _) => u == url,
        }),
{
}

/// A download that goes well: it is announced and fetched, the profile is looked for, the file is
/// stored under what stands behind the last slash of its address, and the place is told.
pub proof fn law_download_goes_well(front: Seq<char>, name: Seq<char>, path: String)
    requires
        !name.contains('/'),
    ensures
        ({
            let url = front + seq!['/'] + name;
            &&& download_message(url, DownloadEvent::Started) == Some(DownloadMsgView::Progress(url, 10))
            &&& download_action(url, DownloadEvent::Started) == DownloadActionView::Fetch
            &&& download_message(url, DownloadEvent::Fetched(true)) is None
            &&& download_action(url, DownloadEvent::Fetched(true)) == DownloadActionView::FindProfile
            &&& download_message(url, DownloadEvent::ProfileFound(true)) is None
            &&& download_action(url, DownloadEvent::ProfileFound(true)) == DownloadActionView::Store(name)
            &&& download_message(url, DownloadEvent::Stored(Some(path))) == Some(
                DownloadMsgView::Done(url, path@),
            )
            &&& download_action(url, DownloadEvent::Stored(Some(path))) == DownloadActionView::Finish
            &&& download_action(name, DownloadEvent::ProfileFound(true)) == DownloadActionView::Store(name)
        }),
{
    law_file_name_follows_last_slash(front, name);
}

/// A download that fails is over, and what went wrong is told, unless there is no profile: that is
/// not told.
pub proof fn law_download_fails(url: Seq<char>)
    ensures
        download_message(url, DownloadEvent::Fetched(false)) == Some(
            DownloadMsgView::Error(url, "Network error / Błąd sieci"@),
        ),
        download_action(url, DownloadEvent::Fetched(false)) == DownloadActionView::Finish,
        download_message(url, DownloadEvent::ProfileFound(false)) is None,
        download_action(url, DownloadEvent::ProfileFound(false)) == DownloadActionView::Finish,
        download_message(url, DownloadEvent::Stored(None)) == Some(
            DownloadMsgView::Error(url, "Write permission denied / Brak uprawnień zapisu"@),
        ),
        download_action(url, DownloadEvent::Stored(None)) == DownloadActionView::Finish,
{
}

} // verus!
