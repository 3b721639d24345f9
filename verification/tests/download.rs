use gruznet::download::{download_step, DownloadAction, DownloadEvent, DownloadMsg};

const URL: &str = "http://a.com/b/c.zip";

#[test]
fn a_download_begins_with_fetching() {
    let (message, action) = download_step(URL, DownloadEvent::Started);
    assert!(matches!(message, Some(DownloadMsg::Progress(url, 10)) if url == URL));
    assert!(matches!(action, DownloadAction::Fetch));
}

#[test]
fn what_was_fetched_is_stored_under_its_name() {
    let (message, action) = download_step(URL, DownloadEvent::Fetched(true));
    assert!(message.is_none());
    assert!(matches!(action, DownloadAction::FindProfile));
    let (message, action) = download_step(URL, DownloadEvent::ProfileFound(true));
    assert!(message.is_none());
    assert!(matches!(action, DownloadAction::Store(name) if name == "c.zip"));
    let (message, action) = download_step(URL, DownloadEvent::Stored(Some("\"/d/c.zip\"".to_string())));
    assert!(matches!(
        message,
        Some(DownloadMsg::Done(url, path)) if url == URL && path == "\"/d/c.zip\""
    ));
    assert!(matches!(action, DownloadAction::Finish));
}

#[test]
fn a_failed_fetch_is_told() {
    let (message, action) = download_step(URL, DownloadEvent::Fetched(false));
    assert!(matches!(
        message,
        Some(DownloadMsg::Error(url, reason)) if url == URL && reason == "Network error / Błąd sieci"
    ));
    assert!(matches!(action, DownloadAction::Finish));
}

#[test]
fn a_failed_store_is_told() {
    let (message, action) = download_step(URL, DownloadEvent::Stored(None));
    assert!(matches!(
        message,
        Some(DownloadMsg::Error(url, reason))
            if url == URL && reason == "Write permission denied / Brak uprawnień zapisu"
    ));
    assert!(matches!(action, DownloadAction::Finish));
}

#[test]
fn without_a_profile_nothing_is_told() {
    let (message, action) = download_step(URL, DownloadEvent::ProfileFound(false));
    assert!(message.is_none());
    assert!(matches!(action, DownloadAction::Finish));
}

#[test]
fn every_way_comes_to_an_end() {
    for (fetched, profile, stored) in
        [(false, false, false), (true, false, false), (true, true, false), (true, true, true)]
    {
        let mut event = DownloadEvent::Started;
        let mut last = None;
        let mut steps = 0;
        loop {
            steps += 1;
            let (message, action) = download_step(URL, event);
            if message.is_some() {
                last = message;
            }
            event = match action {
                DownloadAction::Fetch => DownloadEvent::Fetched(fetched),
                DownloadAction::FindProfile => DownloadEvent::ProfileFound(profile),
                DownloadAction::Store(name) => {
                    DownloadEvent::Stored(if stored { Some(name) } else { None })
                }
                DownloadAction::Finish => break,
            };
        }
        assert!(steps <= 4);
        match last.unwrap() {
            DownloadMsg::Done(_, path) => assert!(stored && path == "c.zip"),
            DownloadMsg::Error(_, _) => assert!(!fetched || (profile && !stored)),
            DownloadMsg::Progress(_, _) => assert!(fetched && !profile),
        }
    }
}
