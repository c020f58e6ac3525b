use plex_discord_webhook::plex::Account;
use plex_discord_webhook::plex::Event;
use plex_discord_webhook::plex::Metadata;
use plex_discord_webhook::plex::Payload;
use plex_discord_webhook::plex::Server;
use plex_discord_webhook::plex::SubmissionError;
use plex_discord_webhook::plex::assemble_request;

fn payload() -> Payload {
    let mut md = Metadata::default();
    md.title = Some("Film".to_string());
    Payload {
        event: Event::LibraryNew,
        user: true,
        owner: true,
        account: Account { id: 1, thumb: "t".to_string(), title: "user".to_string() },
        server: Server { title: "srv".to_string(), uuid: "u-1".to_string() },
        player: None,
        metadata: Some(md),
    }
}

#[test]
fn submission_with_payload_is_accepted() {
    let r = assemble_request(Some(payload()), Some(vec![1, 2, 3]));
    let req = r.expect("a submission with a payload part is accepted");
    assert_eq!(req.thumb, Some(vec![1, 2, 3]));
    assert!(matches!(req.payload.event, Event::LibraryNew));
    assert_eq!(req.payload.metadata.unwrap().title, Some("Film".to_string()));
}

#[test]
fn submission_without_thumbnail_is_accepted() {
    let r = assemble_request(Some(payload()), None);
    assert_eq!(r.unwrap().thumb, None);
}

#[test]
fn submission_without_payload_is_rejected() {
    let r = assemble_request(None, Some(vec![9]));
    assert_eq!(r.unwrap_err(), SubmissionError::MissingPayload);
}
