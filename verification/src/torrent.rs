//! A torrent of the local client, as far as the tracker is concerned.

use crate::numbers::{decimal, push_decimal};
use vstd::prelude::*;
use vstd::string::StringExecFns;

verus! {

/// A torrent held by the local client.
#[derive(PartialEq, Eq)]
pub struct Torrent {
    pub name: String,
    pub torrent_hash: String,
    pub torrent_id: String,
    pub tracker: String,
    pub comment: String,
    pub state: String,
    pub category: String,
    pub tags: String,
    pub size: u64,
    pub seeders: u32,
    pub leechers: u32,
    pub save_path: String,
}

/// What a `Torrent` holds, as plain values.
pub struct TorrentView {
    pub name: Seq<char>,
    pub torrent_hash: Seq<char>,
    pub torrent_id: Seq<char>,
    pub tracker: Seq<char>,
    pub comment: Seq<char>,
    pub state: Seq<char>,
    pub category: Seq<char>,
    pub tags: Seq<char>,
    pub size: u64,
    pub seeders: u32,
    pub leechers: u32,
    pub save_path: Seq<char>,
}

impl View for Torrent {
    type V = TorrentView;

    open spec fn view(&self) -> TorrentView {
        TorrentView {
            name: self.name@,
            torrent_hash: self.torrent_hash@,
            torrent_id: self.torrent_id@,
            tracker: self.tracker@,
            comment: self.comment@,
            state: self.state@,
            category: self.category@,
            tags: self.tags@,
            size: self.size,
            seeders: self.seeders,
            leechers: self.leechers,
            save_path: self.save_path@,
        }
    }
}

/// The views of a sequence of torrents.
pub open spec fn torrent_views(torrents: Seq<Torrent>) -> Seq<TorrentView> {
    torrents.map_values(|t: Torrent| t@)
}

/// Bytes in a mebibyte.
pub const MIB: u64 = 1048576;

/// `label` and `value`, or nothing where `value` is empty.
pub open spec fn optional_line(label: Seq<char>, value: Seq<char>) -> Seq<char> {
    if value.len() == 0 {
        Seq::empty()
    } else {
        label + value
    }
}

/// The lines that describe a torrent to a reader: the fixed fields first,
/// then tags, tracker, save path and comment, each only where it is not
/// empty.
pub open spec fn display_text(t: TorrentView) -> Seq<char> {
    "Имя: "@ + t.name + "\n  - ID: "@ + t.torrent_id + "\n  - Хеш: "@ + t.torrent_hash
        + "\n  - Статус: "@ + t.state + "\n  - Категория: "@ + t.category + "\n  - Размер: "@
        + decimal((t.size / MIB) as nat) + " MB\n  - Сиды: "@ + decimal(t.seeders as nat)
        + " | Личи: "@ + decimal(t.leechers as nat) + optional_line("\n  - Теги: "@, t.tags)
        + optional_line("\n  - Трекер: "@, t.tracker) + optional_line("\n  - Путь: "@, t.save_path)
        + optional_line("\n  - Комментарий: "@, t.comment)
}

/// A text as `{:?}` writes it: between double quotes, with the
/// characters that cannot stand there as they are written as escapes.
pub uninterp spec fn debug_quoted(text: Seq<char>) -> Seq<char>;

/// The standard library's `Debug` formatting of a string slice
/// (`format!("{:?}", text)`). The result depends on the text alone; the
/// contract gives it its name and claims nothing more of it, and nothing
/// of it is proved here.
#[verifier::external_body]
fn quote_debug(text: &str) -> (quoted: String)
    ensures
        quoted@ == debug_quoted(text@),
{
    format!("{:?}", text)
}

/// The labels and values that a sequence of string pairs holds.
pub open spec fn field_texts(fields: Seq<(String, String)>) -> Seq<(Seq<char>, Seq<char>)> {
    fields.map_values(|f: (String, String)| (f.0@, f.1@))
}

/// Fields written as `label: value`, separated by a comma and a space.
pub open spec fn fields_text(fields: Seq<(Seq<char>, Seq<char>)>) -> Seq<char>
    decreases fields.len(),
{
    if fields.len() == 0 {
        Seq::empty()
    } else if fields.len() == 1 {
        fields[0].0 + ": "@ + fields[0].1
    } else {
        fields_text(fields.drop_last()) + ", "@ + fields.last().0 + ": "@ + fields.last().1
    }
}

/// A structure on one line: its name, then its fields between braces; the
/// name alone where it has no fields.
pub open spec fn struct_text(name: Seq<char>, fields: Seq<(Seq<char>, Seq<char>)>) -> Seq<char> {
    if fields.len() == 0 {
        name
    } else {
        name + " { "@ + fields_text(fields) + " }"@
    }
}

/// The fields of a torrent's one-line rendering: strings quoted, the peers
/// as `seeders/leechers`, the size in mebibytes, and the tags only where
/// there are any.
pub open spec fn debug_fields(t: TorrentView) -> Seq<(Seq<char>, Seq<char>)> {
    seq![
        ("name"@, debug_quoted(t.name)),
        ("id"@, debug_quoted(t.torrent_id)),
        ("hash"@, debug_quoted(t.torrent_hash)),
        ("state"@, debug_quoted(t.state)),
        ("peers"@, debug_quoted(decimal(t.seeders as nat) + "/"@ + decimal(t.leechers as nat))),
        ("size_mb"@, decimal((t.size / MIB) as nat)),
        ("category"@, debug_quoted(t.category)),
    ] + (if t.tags.len() == 0 {
        Seq::empty()
    } else {
        seq![("tags"@, debug_quoted(t.tags))]
    }) + seq![
        ("tracker"@, debug_quoted(t.tracker)),
        ("comment"@, debug_quoted(t.comment)),
        ("save_path"@, debug_quoted(t.save_path)),
    ]
}

/// Writes a structure on one line from its name and its fields, each
/// field's value already formatted.
pub fn debug_struct_text(name: &str, fields: &Vec<(String, String)>) -> (out: String)
    ensures
        out@ == struct_text(name@, field_texts(fields@)),
{
    let mut out = String::from_str(name);
    if fields.len() == 0 {
        return out;
    }
    out.append(" { ");
    let ghost head = out@;
    let mut i: usize = 0;
    while i < fields.len()
        invariant
            i <= fields.len(),
            out@ == head + fields_text(field_texts(fields@).take(i as int)),
        decreases fields.len() - i,
    {
        let ghost before = field_texts(fields@).take(i as int);
        let ghost now = field_texts(fields@).take(i + 1);
        assert(now.drop_last() =~= before);
        assert(now.last() == (fields@[i as int].0@, fields@[i as int].1@));
        if i > 0 {
            out.append(", ");
        }
        out.append(fields[i].0.as_str());
        out.append(": ");
        out.append(fields[i].1.as_str());
        assert(out@ =~= head + fields_text(now));
        i += 1;
    }
    assert(field_texts(fields@).take(i as int) =~= field_texts(fields@));
    out.append(" }");
    out
}

/// A field whose value is a quoted string.
fn quoted_field(label: &str, value: &str) -> (field: (String, String))
    ensures
        field.0@ == label@,
        field.1@ == debug_quoted(value@),
{
    (String::from_str(label), quote_debug(value))
}

/// Appends `label` and `value` to `out` unless `value` is empty.
fn push_optional_line(out: &mut String, label: &str, value: &str)
    ensures
        final(out)@ == old(out)@ + optional_line(label@, value@),
{
    if !value.is_empty() {
        out.append(label);
        out.append(value);
        assert(out@ =~= old(out)@ + (label@ + value@));
    } else {
        assert(out@ =~= old(out)@ + Seq::<char>::empty());
    }
}

impl Clone for Torrent {
    fn clone(&self) -> (copy: Self)
        ensures
            copy == *self,
    {
        Torrent {
            name: self.name.clone(),
            torrent_hash: self.torrent_hash.clone(),
            torrent_id: self.torrent_id.clone(),
            tracker: self.tracker.clone(),
            comment: self.comment.clone(),
            state: self.state.clone(),
            category: self.category.clone(),
            tags: self.tags.clone(),
            size: self.size,
            seeders: self.seeders,
            leechers: self.leechers,
            save_path: self.save_path.clone(),
        }
    }
}

impl Torrent {
    /// The torrent's description for a reader, over several lines.
    pub fn display_string(&self) -> (out: String)
        ensures
            out@ == display_text(self@),
    {
        let mut out = String::from_str("Имя: ");
        out.append(self.name.as_str());
        out.append("\n  - ID: ");
        out.append(self.torrent_id.as_str());
        out.append("\n  - Хеш: ");
        out.append(self.torrent_hash.as_str());
        out.append("\n  - Статус: ");
        out.append(self.state.as_str());
        out.append("\n  - Категория: ");
        out.append(self.category.as_str());
        out.append("\n  - Размер: ");
        push_decimal(&mut out, self.size / MIB);
        out.append(" MB\n  - Сиды: ");
        push_decimal(&mut out, self.seeders as u64);
        out.append(" | Личи: ");
        push_decimal(&mut out, self.leechers as u64);
        push_optional_line(&mut out, "\n  - Теги: ", self.tags.as_str());
        push_optional_line(&mut out, "\n  - Трекер: ", self.tracker.as_str());
        push_optional_line(&mut out, "\n  - Путь: ", self.save_path.as_str());
        push_optional_line(&mut out, "\n  - Комментарий: ", self.comment.as_str());
        out
    }

    /// The torrent on one line, as a structure with its fields.
    pub fn debug_string(&self) -> (out: String)
        ensures
            out@ == struct_text("Torrent"@, debug_fields(self@)),
    {
        let mut peers = String::new();
        push_decimal(&mut peers, self.seeders as u64);
        peers.append("/");
        push_decimal(&mut peers, self.leechers as u64);
        assert(peers@ =~= decimal(self.seeders as nat) + "/"@ + decimal(self.leechers as nat));
        let mut size_mb = String::new();
        push_decimal(&mut size_mb, self.size / MIB);
        assert(size_mb@ =~= decimal((self.size / MIB) as nat));

        let mut fields: Vec<(String, String)> = Vec::new();
        fields.push(quoted_field("name", self.name.as_str()));
        fields.push(quoted_field("id", self.torrent_id.as_str()));
        fields.push(quoted_field("hash", self.torrent_hash.as_str()));
        fields.push(quoted_field("state", self.state.as_str()));
        fields.push(quoted_field("peers", peers.as_str()));
        fields.push((String::from_str("size_mb"), size_mb));
        fields.push(quoted_field("category", self.category.as_str()));
        if !self.tags.as_str().is_empty() {
            fields.push(quoted_field("tags", self.tags.as_str()));
        }
        fields.push(quoted_field("tracker", self.tracker.as_str()));
        fields.push(quoted_field("comment", self.comment.as_str()));
        fields.push(quoted_field("save_path", self.save_path.as_str()));
        assert(field_texts(fields@) =~= debug_fields(self@));
        debug_struct_text("Torrent", &fields)
    }
}

} // verus!
