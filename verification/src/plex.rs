//! Typed records for inbound media-server events. The transport that parses
//! the wire submission lives outside this crate and hands these records in
//! as plain values; every metadata field is optional because the upstream
//! format guarantees nothing.

use vstd::prelude::*;

verus! {

#[derive(Debug)]
pub struct Account {
    pub id: u64,
    pub thumb: String,
    pub title: String,
}

#[derive(Debug)]
pub struct Server {
    pub title: String,
    pub uuid: String,
}

#[derive(Debug)]
pub struct Player {
    pub local: bool,
    pub public_address: String,
    pub title: String,
    pub uuid: String,
}

/// The kind of event the media server reported.
#[derive(Debug, Clone, Copy, PartialEq, Eq, Structural)]
pub enum Event {
    LibraryOnDeck,
    LibraryNew,
    MediaPause,
    MediaPlay,
    MediaRate,
    MediaResume,
    MediaScrobble,
    MediaStop,
    AdminDatabaseBackup,
    AdminDatabaseCorrupted,
    DeviceNew,
    PlaybackStarted,
}

#[derive(Debug)]
pub struct Credit {
    pub filter: String,
    pub id: u32,
    pub tag: String,
    pub role: Option<String>,
    pub thumb: Option<String>,
}

#[derive(Debug)]
pub struct Link {
    pub id: String,
}

/// Metadata of the media item an event concerns. Which fields are present
/// depends on the kind of item: an episode carries its show in
/// `grandparent_title` and its season in `parent_title`; a season carries
/// its show in `parent_title`; a standalone item carries only `title`.
#[derive(Debug)]
pub struct Metadata {
    pub title: Option<String>,
    pub title_sort: Option<String>,
    pub thumb: Option<String>,
    pub key: Option<String>,
    pub guid: Option<String>,
    pub rating_key: Option<String>,
    pub summary: Option<String>,
    pub external_links: Option<Vec<Link>>,
    pub media_type: Option<String>,
    pub index: Option<u64>,
    pub art: Option<String>,
    pub skip_count: Option<u64>,
    pub view_count: Option<u64>,
    pub audience_rating_image: Option<String>,
    pub library_section_type: Option<String>,
    pub content_rating: Option<String>,
    pub view_offset: Option<u64>,
    pub writer: Option<Vec<Credit>>,
    pub director: Option<Vec<Credit>>,
    pub role: Option<Vec<Credit>>,
    pub producer: Option<Vec<Credit>>,
    pub originally_available_at: Option<String>,
    pub updated_at: Option<u64>,
    pub last_viewed_at: Option<u64>,
    pub duration: Option<u64>,
    pub added_at: Option<u64>,
    pub parent_rating_key: Option<String>,
    pub parent_index: Option<u64>,
    pub parent_key: Option<String>,
    pub parent_title: Option<String>,
    pub parent_guid: Option<String>,
    pub parent_thumb: Option<String>,
    pub grandparent_key: Option<String>,
    pub grandparent_title: Option<String>,
    pub grandparent_thumb: Option<String>,
    pub grandparent_theme: Option<String>,
    pub grandparent_guid: Option<String>,
    pub grandparent_rating_key: Option<String>,
    pub grandparent_art: Option<String>,
    pub library_section_title: Option<String>,
    pub library_section_key: Option<String>,
    pub library_section_id: u32,
}

impl Default for Metadata {
    /// Metadata with no field known: the starting point for building a
    /// record by hand.
    fn default() -> (r: Self)
        ensures
            r.title is None,
            r.title_sort is None,
            r.thumb is None,
            r.key is None,
            r.guid is None,
            r.rating_key is None,
            r.summary is None,
            r.external_links is None,
            r.media_type is None,
            r.index is None,
            r.art is None,
            r.skip_count is None,
            r.view_count is None,
            r.audience_rating_image is None,
            r.library_section_type is None,
            r.content_rating is None,
            r.view_offset is None,
            r.writer is None,
            r.director is None,
            r.role is None,
            r.producer is None,
            r.originally_available_at is None,
            r.updated_at is None,
            r.last_viewed_at is None,
            r.duration is None,
            r.added_at is None,
            r.parent_rating_key is None,
            r.parent_index is None,
            r.parent_key is None,
            r.parent_title is None,
            r.parent_guid is None,
            r.parent_thumb is None,
            r.grandparent_key is None,
            r.grandparent_title is None,
            r.grandparent_thumb is None,
            r.grandparent_theme is None,
            r.grandparent_guid is None,
            r.grandparent_rating_key is None,
            r.grandparent_art is None,
            r.library_section_title is None,
            r.library_section_key is None,
            r.library_section_id == 0,
    {
        Metadata {
            title: Option::None,
            title_sort: Option::None,
            thumb: Option::None,
            key: Option::None,
            guid: Option::None,
            rating_key: Option::None,
            summary: Option::None,
            external_links: Option::None,
            media_type: Option::None,
            index: Option::None,
            art: Option::None,
            skip_count: Option::None,
            view_count: Option::None,
            audience_rating_image: Option::None,
            library_section_type: Option::None,
            content_rating: Option::None,
            view_offset: Option::None,
            writer: Option::None,
            director: Option::None,
            role: Option::None,
            producer: Option::None,
            originally_available_at: Option::None,
            updated_at: Option::None,
            last_viewed_at: Option::None,
            duration: Option::None,
            added_at: Option::None,
            parent_rating_key: Option::None,
            parent_index: Option::None,
            parent_key: Option::None,
            parent_title: Option::None,
            parent_guid: Option::None,
            parent_thumb: Option::None,
            grandparent_key: Option::None,
            grandparent_title: Option::None,
            grandparent_thumb: Option::None,
            grandparent_theme: Option::None,
            grandparent_guid: Option::None,
            grandparent_rating_key: Option::None,
            grandparent_art: Option::None,
            library_section_title: Option::None,
            library_section_key: Option::None,
            library_section_id: 0,
        }
    }
}

/// One whole event submission as the media server reports it.
#[derive(Debug)]
pub struct Payload {
    pub event: Event,
    pub user: bool,
    pub owner: bool,
    pub account: Account,
    pub server: Server,
    pub player: Option<Player>,
    pub metadata: Option<Metadata>,
}

/// A parsed webhook submission: the typed payload plus the thumbnail bytes
/// that may ride along in the same form.
#[derive(Debug)]
pub struct PlexWebhookRequest {
    pub payload: Payload,
    pub thumb: Option<Vec<u8>>,
}

/// Why a submission was rejected.
#[derive(Debug, Clone, Copy, PartialEq, Eq, Structural)]
pub enum SubmissionError {
    /// The form held no parseable payload part.
    MissingPayload,
}

/// Assemble the parsed parts of one submission: a submission is accepted
/// exactly when a payload part was found; the thumbnail is optional either
/// way.
pub fn assemble_request(payload: Option<Payload>, thumb: Option<Vec<u8>>) -> (r: Result<
    PlexWebhookRequest,
    SubmissionError,
>)
    ensures
        payload is Some <==> r is Ok,
        r is Ok ==> r->Ok_0.payload == payload->0 && r->Ok_0.thumb == thumb,
        r is Err ==> r->Err_0 == SubmissionError::MissingPayload,
{
    match payload {
        Option::Some(p) => Result::Ok(PlexWebhookRequest { payload: p, thumb }),
        Option::None => Result::Err(SubmissionError::MissingPayload),
    }
}

} // verus!
