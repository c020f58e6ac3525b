use plex_discord_webhook::builder::build;
use plex_discord_webhook::builder::coalescing_key;
use plex_discord_webhook::builder::embed_from_metadata;
use plex_discord_webhook::decimal::u64_to_decimal;
use plex_discord_webhook::embed::Embed;
use plex_discord_webhook::embed::EmbedAuthor;
use plex_discord_webhook::plex::Metadata;
use plex_discord_webhook::table::PendingGroup;

fn template() -> Embed {
    let mut em = Embed::default();
    em.url = Some("https://example.org/project".to_string());
    em.color = Some(0x00ff00);
    em.author = Some(EmbedAuthor {
        name: "relay".to_string(),
        url: None,
        icon_url: None,
        proxy_icon_url: None,
    });
    em
}

#[test]
fn episode_metadata_builds_full_title_and_description() {
    let mut md = Metadata::default();
    md.media_type = Some("episode".to_string());
    md.grandparent_title = Some("Show".to_string());
    md.parent_title = Some("Season 1".to_string());
    md.title = Some("Pilot".to_string());
    md.index = Some(3);
    let em = embed_from_metadata(&md, &template());
    assert_eq!(em.title, Some("New episode added: Show - Season 1".to_string()));
    assert_eq!(em.description, Some("episode 3: Pilot".to_string()));
    // Decoration comes from the template.
    assert_eq!(em.url, Some("https://example.org/project".to_string()));
    assert_eq!(em.color, Some(0x00ff00));
    assert_eq!(em.author.as_ref().map(|a| a.name.clone()), Some("relay".to_string()));
}

#[test]
fn show_without_season_keeps_title_short() {
    let mut md = Metadata::default();
    md.media_type = Some("episode".to_string());
    md.grandparent_title = Some("Show".to_string());
    md.title = Some("Pilot".to_string());
    let em = embed_from_metadata(&md, &template());
    assert_eq!(em.title, Some("New episode added: Show".to_string()));
    assert_eq!(em.description, None);
}

#[test]
fn season_metadata_uses_parent_and_title() {
    let mut md = Metadata::default();
    md.media_type = Some("season".to_string());
    md.parent_title = Some("Show".to_string());
    md.title = Some("Season 2".to_string());
    md.index = Some(2);
    let em = embed_from_metadata(&md, &template());
    assert_eq!(em.title, Some("New season added: Show - Season 2".to_string()));
    assert_eq!(em.description, Some("season 2".to_string()));
}

#[test]
fn movie_metadata_uses_its_own_title_only() {
    let mut md = Metadata::default();
    md.media_type = Some("movie".to_string());
    md.title = Some("Film".to_string());
    let em = embed_from_metadata(&md, &template());
    assert_eq!(em.title, Some("New movie added: Film".to_string()));
    assert_eq!(em.description, None);
}

#[test]
fn metadata_without_any_title_still_builds() {
    let md = Metadata::default();
    let em = embed_from_metadata(&md, &template());
    assert_eq!(em.title, Some("New media added".to_string()));
    assert_eq!(em.description, None);
}

#[test]
fn missing_index_and_type_shrink_the_description() {
    let mut md = Metadata::default();
    md.grandparent_title = Some("Show".to_string());
    md.parent_title = Some("Season 1".to_string());
    md.title = Some("Pilot".to_string());
    let em = embed_from_metadata(&md, &template());
    assert_eq!(em.title, Some("New media added: Show - Season 1".to_string()));
    assert_eq!(em.description, Some(": Pilot".to_string()));
}

#[test]
fn coalescing_key_concatenates_parent_titles() {
    let mut md = Metadata::default();
    md.grandparent_title = Some("Show".to_string());
    md.parent_title = Some("Season 1".to_string());
    assert_eq!(coalescing_key(&md), "ShowSeason 1".to_string());
}

#[test]
fn coalescing_key_is_empty_without_parents() {
    let mut md = Metadata::default();
    md.title = Some("Film".to_string());
    assert_eq!(coalescing_key(&md), "".to_string());
}

#[test]
fn coalescing_key_with_only_a_parent() {
    let mut md = Metadata::default();
    md.parent_title = Some("Show".to_string());
    assert_eq!(coalescing_key(&md), "Show".to_string());
}

fn described(desc: Option<&str>) -> Embed {
    let mut em = Embed::default();
    em.title = Some("first title".to_string());
    em.color = Some(7);
    em.description = desc.map(|d| d.to_string());
    em
}

#[test]
fn merge_joins_descriptions_with_newlines() {
    let group = PendingGroup {
        last_update: 2,
        items: vec![described(Some("ep1")), described(Some("ep2"))],
    };
    let merged = build(group);
    assert_eq!(merged.description, Some("ep1\nep2".to_string()));
    assert_eq!(merged.title, Some("first title".to_string()));
    assert_eq!(merged.color, Some(7));
}

#[test]
fn merge_skips_absent_descriptions_without_blank_lines() {
    let group = PendingGroup {
        last_update: 0,
        items: vec![described(Some("a")), described(None), described(Some("b"))],
    };
    let merged = build(group);
    assert_eq!(merged.description, Some("a\nb".to_string()));
}

#[test]
fn merge_of_undescribed_group_has_no_description() {
    let group = PendingGroup { last_update: 0, items: vec![described(None), described(None)] };
    let merged = build(group);
    assert_eq!(merged.description, None);
}

#[test]
fn merge_of_single_fragment_keeps_its_description() {
    let group = PendingGroup { last_update: 0, items: vec![described(Some("only"))] };
    let merged = build(group);
    assert_eq!(merged.description, Some("only".to_string()));
}

#[test]
fn decimal_renders_zero() {
    assert_eq!(u64_to_decimal(0), "0".to_string());
}

#[test]
fn decimal_renders_single_digit() {
    assert_eq!(u64_to_decimal(7), "7".to_string());
}

#[test]
fn decimal_renders_many_digits() {
    assert_eq!(u64_to_decimal(12345), "12345".to_string());
    assert_eq!(u64_to_decimal(1000), "1000".to_string());
}

#[test]
fn decimal_renders_the_largest_value() {
    assert_eq!(u64_to_decimal(u64::MAX), "18446744073709551615".to_string());
}
