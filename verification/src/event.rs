//! What a link tells its user.
//!
//! Everything the caller needs comes out as one stream of events rather than
//! callbacks -- logs, progress, and delivered messages alike. A UI can select on
//! it directly, and nothing is swallowed.
use crate::framing;
use crate::framing::{decode_file_blob, DeviceId, FileMeta, T_FILE, T_TEXT};
use crate::text;
use crate::text::push_hex_byte;
use vstd::prelude::*;
use vstd::utf8;

verus! {

#[derive(Clone, Copy, Debug, PartialEq, Eq, Structural)]
pub enum Level {
    Info,
    Warn,
    Error,
}

#[derive(Clone, Debug)]
pub enum Event {
    Log(Level, String),
    Progress { pct: u8, note: String },
    Text(String),
    File { meta: FileMeta, data: Vec<u8> },
    /// The peer we are addressing changed (discovered, or forgotten after a
    /// transfer failed).
    PeerChanged(DeviceId),
}

/// An event with its texts and its data as sequences.
#[verifier::ext_equal]
pub enum EventView {
    Log(Level, Seq<char>),
    Progress { pct: u8, note: Seq<char> },
    Text(Seq<char>),
    File { name: Seq<char>, size: u32, data: Seq<u8> },
    PeerChanged(DeviceId),
}

impl View for Event {
    type V = EventView;

    open spec fn view(&self) -> EventView {
        match *self {
            Event::Log(level, text) => EventView::Log(level, text@),
            Event::Progress { pct, note } => EventView::Progress { pct, note: note@ },
            Event::Text(text) => EventView::Text(text@),
            Event::File { meta, data } => EventView::File {
                name: meta.name@,
                size: meta.size,
                data: data@,
            },
            Event::PeerChanged(id) => EventView::PeerChanged(id),
        }
    }
}

/// A run of events with their texts and data as sequences.
pub open spec fn views(events: Seq<Event>) -> Seq<EventView> {
    events.map_values(|e: Event| e@)
}

pub proof fn lemma_views_push(events: Seq<Event>, e: Event)
    ensures
        views(events.push(e)) == views(events).push(e@),
{
    assert(views(events.push(e)) =~= views(events).push(e@));
}

/// Report one more thing.
pub fn emit(events: &mut Vec<Event>, e: Event)
    ensures
        views(final(events)@) == views(old(events)@).push(e@),
{
    proof {
        lemma_views_push(events@, e);
    }
    events.push(e);
}

/// No events yet.
pub fn no_events() -> (events: Vec<Event>)
    ensures
        views(events@) == Seq::<EventView>::empty(),
{
    let events: Vec<Event> = Vec::new();
    assert(views(events@) =~= Seq::<EventView>::empty());
    events
}

/// What the user is told of a complete message.
pub open spec fn delivery(kind: u8, blob: Seq<u8>) -> EventView {
    if kind == T_TEXT {
        EventView::Text(text::lossy(blob))
    } else if kind == T_FILE {
        match framing::file_parts(blob) {
            Some(parts) => EventView::File {
                name: text::lossy(parts.name),
                size: parts.size,
                data: parts.data,
            },
            None => EventView::Log(Level::Warn, "file message was malformed"@),
        }
    } else {
        EventView::Log(Level::Warn, "unknown message type "@ + text::hex_byte(kind))
    }
}

/// Turn a complete message into what the user is told of it.
pub fn deliver(kind: u8, blob: &[u8]) -> (e: Event)
    ensures
        e@ == delivery(kind, blob@),
{
    if kind == T_TEXT {
        Event::Text(text::from_utf8_lossy(blob))
    } else if kind == T_FILE {
        match decode_file_blob(blob) {
            Some((meta, data)) => Event::File { meta, data },
            None => Event::Log(Level::Warn, "file message was malformed".to_owned()),
        }
    } else {
        let mut note = "unknown message type ".to_owned();
        push_hex_byte(&mut note, kind);
        Event::Log(Level::Warn, note)
    }
}

/// A text is told as it was written, whatever its length.
pub proof fn texts_are_told_whole(text: Seq<char>)
    ensures
        delivery(T_TEXT, utf8::encode_utf8(text)) == EventView::Text(text),
{
    utf8::encode_utf8_valid_utf8(text);
    utf8::encode_utf8_decode_utf8(text);
}

/// A file is told with its name, its size and all of its contents.
pub proof fn files_are_told_whole(name: Seq<char>, data: Seq<u8>)
    requires
        utf8::encode_utf8(name).len() <= 255,
        data.len() <= u32::MAX,
    ensures
        delivery(
            T_FILE,
            framing::meta_bytes(utf8::encode_utf8(name), data.len() as u32) + data,
        ) == (EventView::File { name, size: data.len() as u32, data }),
{
    framing::file_messages_round_trip(name, data.len() as u32, data);
}

/// Only texts and files are told as such: whatever else arrives, and a file message that
/// does not hold its own metadata, is warned of.
pub proof fn other_messages_are_warned_of(kind: u8, blob: Seq<u8>)
    ensures
        delivery(kind, blob) is Text <==> kind == T_TEXT,
        delivery(kind, blob) is File <==> kind == T_FILE && framing::file_parts(blob) is Some,
        !(delivery(kind, blob) is Text) && !(delivery(kind, blob) is File) ==> delivery(
            kind,
            blob,
        ) matches EventView::Log(Level::Warn, _),
{
}

/// What is warned of a message that cannot be told: its type, or that it was malformed.
pub proof fn warnings_say_what_came(kind: u8, blob: Seq<u8>)
    ensures
        kind != T_TEXT && kind != T_FILE ==> delivery(kind, blob) == EventView::Log(
            Level::Warn,
            "unknown message type "@ + text::hex_byte(kind),
        ),
        kind == T_FILE && (blob.len() == 0 || blob.len() < 5 + blob[0]) ==> delivery(kind, blob)
            == EventView::Log(Level::Warn, "file message was malformed"@),
{
}

/// A file that arrives is told as it came: its name as text, the size that it announces
/// and the contents that are there, also where these are fewer.
pub proof fn files_are_told_as_they_came(blob: Seq<u8>, f: framing::FileParts)
    requires
        framing::file_parts(blob) == Some(f),
    ensures
        delivery(T_FILE, blob) == (EventView::File {
            name: text::lossy(f.name),
            size: f.size,
            data: f.data,
        }),
{
}

} // verus!
