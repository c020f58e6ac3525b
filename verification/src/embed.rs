//! Outbound notification records, shaped after the chat service's embed
//! objects. These are the fragments that the coalescing engine accumulates
//! and merges; the wire encoding of a finished request is left to the caller.

use vstd::prelude::*;

verus! {

/// Embed type tag; webhook embeds are always rich embeds.
#[derive(Debug, Clone, Copy)]
pub enum EmbedKind {
    Rich,
}

impl Default for EmbedKind {
    fn default() -> (r: Self)
        ensures
            r is Rich,
    {
        EmbedKind::Rich
    }
}

/// One rich-embed fragment: the unit that events carry into the coalescing
/// table and that a flush merges into a single outbound notification.
#[derive(Debug)]
pub struct Embed {
    pub title: Option<String>,
    /// Always the rich kind for webhooks.
    pub kind: EmbedKind,
    pub description: Option<String>,
    pub url: Option<String>,
    pub timestamp: Option<String>,
    pub color: Option<u32>,
    pub footer: Option<EmbedFooter>,
    pub image: Option<EmbedMedia>,
    pub thumbnail: Option<EmbedMedia>,
    pub video: Option<EmbedMedia>,
    pub provider: Option<EmbedProvider>,
    pub author: Option<EmbedAuthor>,
    pub fields: Option<Vec<EmbedField>>,
}

#[derive(Debug)]
pub struct EmbedFooter {
    pub text: String,
    /// HTTPS link to an icon image.
    pub icon_url: Option<String>,
    /// Proxied URL of the icon.
    pub proxy_icon_url: Option<String>,
}

#[derive(Debug)]
pub struct EmbedMedia {
    url: String,
    proxy_url: Option<String>,
    height: Option<u32>,
    width: Option<u32>,
}

#[derive(Debug)]
pub struct EmbedProvider {
    name: String,
    url: Option<String>,
}

#[derive(Debug)]
pub struct EmbedAuthor {
    pub name: String,
    pub url: Option<String>,
    pub icon_url: Option<String>,
    pub proxy_icon_url: Option<String>,
}

#[derive(Debug)]
pub struct EmbedField {
    name: String,
    value: String,
    inline: Option<bool>,
}

/// Optional flags that may accompany a webhook request.
#[derive(Debug)]
pub struct RequestMetadata {
    username: Option<String>,
    avatar_url: Option<String>,
    tts: Option<bool>,
}

/// A webhook request body: either plain text or a list of rich embeds.
#[derive(Debug)]
pub enum WebhookRequest {
    Content(String),
    Embeds(Vec<Embed>),
}

impl Embed {
    /// Equality of everything but the title and description: the display
    /// decoration that a merged notification inherits unchanged. The field
    /// list is compared by its contents, since two separately allocated
    /// vectors with the same elements are not otherwise known to be equal.
    pub open spec fn same_decoration(self, other: Embed) -> bool {
        &&& self.kind == other.kind
        &&& self.url == other.url
        &&& self.timestamp == other.timestamp
        &&& self.color == other.color
        &&& self.footer == other.footer
        &&& self.image == other.image
        &&& self.thumbnail == other.thumbnail
        &&& self.video == other.video
        &&& self.provider == other.provider
        &&& self.author == other.author
        &&& match (self.fields, other.fields) {
            (Option::Some(a), Option::Some(b)) => a@ == b@,
            (Option::None, Option::None) => true,
            _ => false,
        }
    }

    /// Field-for-field equality, with the field list compared by its
    /// contents.
    pub open spec fn congruent(self, other: Embed) -> bool {
        &&& self.title == other.title
        &&& self.description == other.description
        &&& self.same_decoration(other)
    }
}

fn clone_opt_string(o: &Option<String>) -> (r: Option<String>)
    ensures
        r == *o,
{
    match o {
        Option::Some(s) => Option::Some(s.clone()),
        Option::None => Option::None,
    }
}

impl Clone for EmbedFooter {
    fn clone(&self) -> (r: Self)
        ensures
            r == *self,
    {
        EmbedFooter {
            text: self.text.clone(),
            icon_url: clone_opt_string(&self.icon_url),
            proxy_icon_url: clone_opt_string(&self.proxy_icon_url),
        }
    }
}

impl Clone for EmbedMedia {
    fn clone(&self) -> (r: Self)
        ensures
            r == *self,
    {
        EmbedMedia {
            url: self.url.clone(),
            proxy_url: clone_opt_string(&self.proxy_url),
            height: self.height,
            width: self.width,
        }
    }
}

impl Clone for EmbedProvider {
    fn clone(&self) -> (r: Self)
        ensures
            r == *self,
    {
        EmbedProvider { name: self.name.clone(), url: clone_opt_string(&self.url) }
    }
}

impl Clone for EmbedAuthor {
    fn clone(&self) -> (r: Self)
        ensures
            r == *self,
    {
        EmbedAuthor {
            name: self.name.clone(),
            url: clone_opt_string(&self.url),
            icon_url: clone_opt_string(&self.icon_url),
            proxy_icon_url: clone_opt_string(&self.proxy_icon_url),
        }
    }
}

impl Clone for EmbedField {
    fn clone(&self) -> (r: Self)
        ensures
            r == *self,
    {
        EmbedField {
            name: self.name.clone(),
            value: self.value.clone(),
            inline: self.inline,
        }
    }
}

fn clone_opt_footer(o: &Option<EmbedFooter>) -> (r: Option<EmbedFooter>)
    ensures
        r == *o,
{
    match o {
        Option::Some(f) => Option::Some(f.clone()),
        Option::None => Option::None,
    }
}

fn clone_opt_media(o: &Option<EmbedMedia>) -> (r: Option<EmbedMedia>)
    ensures
        r == *o,
{
    match o {
        Option::Some(m) => Option::Some(m.clone()),
        Option::None => Option::None,
    }
}

fn clone_opt_provider(o: &Option<EmbedProvider>) -> (r: Option<EmbedProvider>)
    ensures
        r == *o,
{
    match o {
        Option::Some(p) => Option::Some(p.clone()),
        Option::None => Option::None,
    }
}

fn clone_opt_author(o: &Option<EmbedAuthor>) -> (r: Option<EmbedAuthor>)
    ensures
        r == *o,
{
    match o {
        Option::Some(a) => Option::Some(a.clone()),
        Option::None => Option::None,
    }
}

fn clone_field_list(v: &Vec<EmbedField>) -> (r: Vec<EmbedField>)
    ensures
        r@ == v@,
{
    let mut r: Vec<EmbedField> = Vec::new();
    let mut i: usize = 0;
    while i < v.len()
        invariant
            i <= v@.len(),
            r@ =~= v@.take(i as int),
        decreases v@.len() - i,
    {
        r.push(v[i].clone());
        i = i + 1;
    }
    assert(r@ =~= v@);
    r
}

fn clone_opt_field_list(o: &Option<Vec<EmbedField>>) -> (r: Option<Vec<EmbedField>>)
    ensures
        match (r, *o) {
            (Option::Some(a), Option::Some(b)) => a@ == b@,
            (Option::None, Option::None) => true,
            _ => false,
        },
{
    match o {
        Option::Some(v) => Option::Some(clone_field_list(v)),
        Option::None => Option::None,
    }
}

impl Clone for Embed {
    fn clone(&self) -> (r: Self)
        ensures
            r.congruent(*self),
    {
        Embed {
            title: clone_opt_string(&self.title),
            kind: self.kind,
            description: clone_opt_string(&self.description),
            url: clone_opt_string(&self.url),
            timestamp: clone_opt_string(&self.timestamp),
            color: self.color,
            footer: clone_opt_footer(&self.footer),
            image: clone_opt_media(&self.image),
            thumbnail: clone_opt_media(&self.thumbnail),
            video: clone_opt_media(&self.video),
            provider: clone_opt_provider(&self.provider),
            author: clone_opt_author(&self.author),
            fields: clone_opt_field_list(&self.fields),
        }
    }
}

impl Default for Embed {
    /// A blank rich embed: every display field empty.
    fn default() -> (r: Self)
        ensures
            r.title is None,
            r.description is None,
            r.url is None,
            r.timestamp is None,
            r.color is None,
            r.footer is None,
            r.image is None,
            r.thumbnail is None,
            r.video is None,
            r.provider is None,
            r.author is None,
            r.fields is None,
    {
        Embed {
            title: Option::None,
            kind: EmbedKind::Rich,
            description: Option::None,
            url: Option::None,
            timestamp: Option::None,
            color: Option::None,
            footer: Option::None,
            image: Option::None,
            thumbnail: Option::None,
            video: Option::None,
            provider: Option::None,
            author: Option::None,
            fields: Option::None,
        }
    }
}

} // verus!
