//! The notification builder: pure assembly of notification fragments from
//! event metadata, and the merge of a pending group into the single
//! notification that gets delivered.

use vstd::prelude::*;
use vstd::string::StringExecFns;

use crate::decimal::dec_rep;
use crate::decimal::u64_to_decimal;
use crate::embed::Embed;
use crate::plex::Metadata;
use crate::table::PendingGroup;

verus! {

/// The view of an optional string, the empty sequence when absent.
pub open spec fn str_or_empty(o: Option<String>) -> Seq<char> {
    match o {
        Option::Some(s) => s@,
        Option::None => Seq::empty(),
    }
}

/// What the item is called in the title: its media type, or "media" when
/// the type is unknown.
pub open spec fn media_kind_text(m: Metadata) -> Seq<char> {
    match m.media_type {
        Option::Some(t) => t@,
        Option::None => "media"@,
    }
}

/// The notification title: "New <kind> added", then the most specific
/// naming available — show and season for an episode, show and season name
/// for a season, or the item's own title.
pub open spec fn title_text(m: Metadata) -> Seq<char> {
    let base = "New "@ + media_kind_text(m) + " added"@;
    match m.grandparent_title {
        Option::Some(g) => {
            let named = base + ": "@ + g@;
            match m.parent_title {
                Option::Some(p) => named + " - "@ + p@,
                Option::None => named,
            }
        },
        Option::None => match m.parent_title {
            Option::Some(p) => {
                let named = base + ": "@ + p@;
                match m.title {
                    Option::Some(t) => named + " - "@ + t@,
                    Option::None => named,
                }
            },
            Option::None => match m.title {
                Option::Some(t) => base + ": "@ + t@,
                Option::None => base,
            },
        },
    }
}

/// The media type followed by a space, when present.
pub open spec fn media_type_prefix(m: Metadata) -> Seq<char> {
    match m.media_type {
        Option::Some(t) => t@ + " "@,
        Option::None => Seq::empty(),
    }
}

/// The item's index in decimal, when present.
pub open spec fn index_text(m: Metadata) -> Seq<char> {
    match m.index {
        Option::Some(i) => dec_rep(i as int),
        Option::None => Seq::empty(),
    }
}

/// The notification description. An episode (item under a show and a
/// season) is described as "<type> <index>: <episode title>"; a season
/// (item under a show only) as "<type> <index>"; anything else contributes
/// no description. Pieces whose source field is absent are skipped.
pub open spec fn description_text(m: Metadata) -> Seq<char> {
    match m.grandparent_title {
        Option::Some(g) => match m.parent_title {
            Option::Some(p) => media_type_prefix(m) + index_text(m) + (match m.title {
                Option::Some(t) => ": "@ + t@,
                Option::None => Seq::empty(),
            }),
            Option::None => Seq::empty(),
        },
        Option::None => match m.parent_title {
            Option::Some(p) => match m.title {
                Option::Some(t) => media_type_prefix(m) + index_text(m),
                Option::None => Seq::empty(),
            },
            Option::None => Seq::empty(),
        },
    }
}

/// The coalescing key of an item: the names of its parents, concatenated.
/// Items of one show and season share a key; an item with no parents gets
/// the empty key and is never coalesced.
pub open spec fn coalescing_key_text(m: Metadata) -> Seq<char> {
    str_or_empty(m.grandparent_title) + str_or_empty(m.parent_title)
}

/// Build the notification fragment for one event: the display decoration
/// (author, footer, link and the like) is taken from the caller's template,
/// the title and description are assembled from the metadata.
pub fn embed_from_metadata(m: &Metadata, template: &Embed) -> (r: Embed)
    ensures
        r.same_decoration(*template),
        r.title is Some && r.title->0@ == title_text(*m),
        description_text(*m).len() == 0 ==> r.description is None,
        description_text(*m).len() > 0 ==> r.description is Some && r.description->0@
            == description_text(*m),
{
    let mut em = template.clone();
    let mut title = String::new();
    title.append("New ");
    match &m.media_type {
        Option::Some(t) => title.append(t.as_str()),
        Option::None => title.append("media"),
    }
    title.append(" added");
    assert(title@ =~= "New "@ + media_kind_text(*m) + " added"@);
    let mut desc = String::new();
    if let Option::Some(g) = &m.grandparent_title {
        title.append(": ");
        title.append(g.as_str());
        if let Option::Some(p) = &m.parent_title {
            title.append(" - ");
            title.append(p.as_str());
            if let Option::Some(t) = &m.media_type {
                desc.append(t.as_str());
                desc.append(" ");
            }
            if let Option::Some(i) = m.index {
                let digits = u64_to_decimal(i);
                desc.append(digits.as_str());
            }
            if let Option::Some(t) = &m.title {
                desc.append(": ");
                desc.append(t.as_str());
            }
        }
    } else if let Option::Some(p) = &m.parent_title {
        title.append(": ");
        title.append(p.as_str());
        if let Option::Some(t) = &m.title {
            title.append(" - ");
            title.append(t.as_str());
            if let Option::Some(mt) = &m.media_type {
                desc.append(mt.as_str());
                desc.append(" ");
            }
            if let Option::Some(i) = m.index {
                let digits = u64_to_decimal(i);
                desc.append(digits.as_str());
            }
        }
    } else if let Option::Some(t) = &m.title {
        title.append(": ");
        title.append(t.as_str());
    }
    assert(title@ =~= title_text(*m));
    assert(desc@ =~= description_text(*m));
    em.title = Option::Some(title);
    if desc.as_str().is_empty() {
        em.description = Option::None;
    } else {
        em.description = Option::Some(desc);
    }
    em
}

/// Build the coalescing key for one event's metadata.
pub fn coalescing_key(m: &Metadata) -> (r: String)
    ensures
        r@ == coalescing_key_text(*m),
{
    let mut key = String::new();
    if let Option::Some(g) = &m.grandparent_title {
        key.append(g.as_str());
    }
    if let Option::Some(p) = &m.parent_title {
        key.append(p.as_str());
    }
    assert(key@ =~= coalescing_key_text(*m));
    key
}

/// The descriptions present among a group's fragments, in arrival order.
pub open spec fn present_descs(items: Seq<Embed>) -> Seq<Seq<char>>
    decreases items.len(),
{
    if items.len() == 0 {
        Seq::empty()
    } else {
        let rest = present_descs(items.drop_first());
        match items[0].description {
            Option::Some(d) => seq![d@] + rest,
            Option::None => rest,
        }
    }
}

/// The given lines joined with a newline between each adjacent pair.
pub open spec fn join_lines(lines: Seq<Seq<char>>) -> Seq<char>
    decreases lines.len(),
{
    if lines.len() == 0 {
        Seq::empty()
    } else if lines.len() == 1 {
        lines[0]
    } else {
        lines[0] + seq!['\n'] + join_lines(lines.drop_first())
    }
}

pub proof fn lemma_present_descs_push(items: Seq<Embed>, e: Embed)
    ensures
        present_descs(items.push(e)) == present_descs(items) + (match e.description {
            Option::Some(d) => seq![d@],
            Option::None => Seq::<Seq<char>>::empty(),
        }),
    decreases items.len(),
{
    let tail = match e.description {
        Option::Some(d) => seq![d@],
        Option::None => Seq::<Seq<char>>::empty(),
    };
    if items.len() == 0 {
        assert(items.push(e).drop_first() =~= Seq::<Embed>::empty());
        assert(present_descs(Seq::<Embed>::empty()) == Seq::<Seq<char>>::empty());
        assert(present_descs(items.push(e)) =~= present_descs(items) + tail);
    } else {
        assert(items.push(e).drop_first() =~= items.drop_first().push(e));
        lemma_present_descs_push(items.drop_first(), e);
        assert(present_descs(items.push(e)) =~= present_descs(items) + tail);
    }
}

pub proof fn lemma_join_lines_push(lines: Seq<Seq<char>>, d: Seq<char>)
    ensures
        join_lines(lines.push(d)) == if lines.len() == 0 {
            d
        } else {
            join_lines(lines) + seq!['\n'] + d
        },
    decreases lines.len(),
{
    if lines.len() == 0 {
        assert(lines.push(d).len() == 1);
        assert(lines.push(d)[0] == d);
        assert(join_lines(lines.push(d)) == d);
    } else if lines.len() == 1 {
        assert(lines.push(d).drop_first() =~= seq![d]);
        assert(join_lines(seq![d]) == d);
        assert(join_lines(lines.push(d)) =~= join_lines(lines) + seq!['\n'] + d);
    } else {
        assert(lines.push(d).drop_first() =~= lines.drop_first().push(d));
        lemma_join_lines_push(lines.drop_first(), d);
        assert(join_lines(lines.push(d)) =~= join_lines(lines) + seq!['\n'] + d);
    }
}

/// Merge one pending group into the single notification to deliver: the
/// display fields come from the group's first fragment, and the description
/// stacks the descriptions present among the fragments, one line each, in
/// arrival order. A group with no described fragment yields a notification
/// with no description rather than empty lines.
pub fn build(group: PendingGroup) -> (r: Embed)
    requires
        group.items@.len() >= 1,
    ensures
        r.same_decoration(group.items@[0]),
        r.title == group.items@[0].title,
        present_descs(group.items@).len() == 0 ==> r.description is None,
        present_descs(group.items@).len() > 0 ==> r.description is Some && r.description->0@
            == join_lines(present_descs(group.items@)),
{
    let mut items = group.items;
    let ghost all = items@;
    let mut desc = String::new();
    let mut any = false;
    let mut i: usize = 0;
    proof {
        assert(all.take(0) =~= Seq::<Embed>::empty());
        assert(present_descs(all.take(0)) == Seq::<Seq<char>>::empty());
    }
    while i < items.len()
        invariant
            items@ == all,
            i <= all.len(),
            any == (present_descs(all.take(i as int)).len() > 0),
            desc@ == join_lines(present_descs(all.take(i as int))),
        decreases all.len() - i,
    {
        proof {
            assert(all.take(i + 1) =~= all.take(i as int).push(all[i as int]));
            lemma_present_descs_push(all.take(i as int), all[i as int]);
        }
        match &items[i].description {
            Option::Some(d) => {
                proof {
                    assert(present_descs(all.take(i as int)) + seq![d@] =~= present_descs(
                        all.take(i as int),
                    ).push(d@));
                    lemma_join_lines_push(present_descs(all.take(i as int)), d@);
                    reveal_strlit("\n");
                }
                if any {
                    desc.append("\n");
                    assert(desc@ =~= join_lines(present_descs(all.take(i as int))) + seq!['\n']);
                }
                desc.append(d.as_str());
                any = true;
                assert(desc@ =~= join_lines(present_descs(all.take(i + 1))));
            },
            Option::None => {
                assert(present_descs(all.take(i + 1)) == present_descs(all.take(i as int)));
            },
        }
        i = i + 1;
    }
    proof {
        assert(all.take(all.len() as int) =~= all);
    }
    let mut first = items.remove(0);
    if any {
        first.description = Option::Some(desc);
    } else {
        first.description = Option::None;
    }
    first
}

} // verus!
