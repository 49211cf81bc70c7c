//! Shared data types: the stored file name of a stream and the paths
//! derived from it, catalog rows, clips, and the historical chat
//! message together with its translation into a replay [`Item`].

use vstd::prelude::*;

use crate::item::{Item, ItemModel};
use crate::text::{dec_i64, i64_to_dec, json_quoted, quote_json_string};

verus! {

/// Index of the last `'.'` in `s`, if any.
pub open spec fn last_dot(s: Seq<char>) -> Option<int>
    decreases s.len(),
{
    if s.len() == 0 {
        None
    } else if s[s.len() - 1] == '.' {
        Some(s.len() - 1)
    } else {
        last_dot(s.drop_last())
    }
}

/// `name` with everything from its last dot on replaced by `.ext`; a
/// name without a dot gets `.ext` appended.
pub open spec fn with_extension(name: Seq<char>, ext: Seq<char>) -> Seq<char> {
    match last_dot(name) {
        Some(i) => name.take(i) + seq!['.'] + ext,
        None => name + seq!['.'] + ext,
    }
}

fn rfind_dot(s: &str) -> (r: Option<usize>)
    ensures
        match r {
            Some(i) => i < s@.len() && last_dot(s@) == Some(i as int),
            None => last_dot(s@) is None,
        },
{
    let n = s.unicode_len();
    let mut i = n;
    proof {
        assert(s@.take(n as int) =~= s@);
    }
    while i > 0
        invariant
            n == s@.len(),
            i <= n,
            last_dot(s@) == last_dot(s@.take(i as int)),
        decreases i,
    {
        if s.get_char(i - 1) == '.' {
            proof {
                assert(s@.take(i as int).len() == i);
                assert(s@.take(i as int)[i - 1] == '.');
            }
            return Some(i - 1);
        }
        proof {
            assert(s@.take(i as int)[i - 1] != '.');
            assert(s@.take(i as int).drop_last() =~= s@.take(i as int - 1));
        }
        i = i - 1;
    }
    proof {
        assert(s@.take(0) =~= Seq::<char>::empty());
    }
    None
}

/// The stored file name of one stream's recording, as it stands in the
/// catalog; the chat log and the sidecar info file lie beside the
/// recording under derived names.
pub struct StreamFileName(String);

impl View for StreamFileName {
    type V = Seq<char>;

    closed spec fn view(&self) -> Seq<char> {
        self.0@
    }
}

impl StreamFileName {
    /// Wraps a stored file name.
    pub fn new(name: String) -> (r: StreamFileName)
        ensures
            r@ == name@,
    {
        StreamFileName(name)
    }

    /// The name as text.
    pub fn as_str(&self) -> (r: &str)
        ensures
            r@ == self@,
    {
        self.0.as_str()
    }

    /// The recording's path under the streams directory.
    pub fn stream_path(&self, streams_dir: &str) -> (r: String)
        ensures
            r@ == streams_dir@ + seq!['/'] + self@,
    {
        proof {
            reveal_strlit("/");
        }
        let mut p = streams_dir.to_owned();
        p.append("/");
        p.append(self.0.as_str());
        proof {
            assert(p@ =~= streams_dir@ + seq!['/'] + self@);
        }
        p
    }

    fn with_ext(&self, ext: &str) -> (r: String)
        ensures
            r@ == with_extension(self@, ext@),
    {
        proof {
            reveal_strlit(".");
        }
        let name = self.0.as_str();
        let mut p: String = match rfind_dot(name) {
            Some(i) => {
                let base = name.substring_char(0, i);
                proof {
                    assert(name@.subrange(0, i as int) =~= self@.take(i as int));
                }
                base.to_owned()
            },
            None => self.0.clone(),
        };
        p.append(".");
        p.append(ext);
        proof {
            assert(p@ =~= with_extension(self@, ext@));
        }
        p
    }

    /// The path of the stream's compressed chat log: the recording's
    /// path with its extension replaced by `txt.zst`.
    pub fn chat_file_path(&self, streams_dir: &str) -> (r: String)
        ensures
            r@ == streams_dir@ + seq!['/'] + with_extension(self@, "txt.zst"@),
    {
        proof {
            reveal_strlit("/");
        }
        let mut p = streams_dir.to_owned();
        p.append("/");
        p.append(self.with_ext("txt.zst").as_str());
        proof {
            assert(p@ =~= streams_dir@ + seq!['/'] + with_extension(self@, "txt.zst"@));
        }
        p
    }

    /// The path of the stream's sidecar info file: the recording's path
    /// with its extension replaced by `yaml`.
    pub fn extra_info_file_path(&self, streams_dir: &str) -> (r: String)
        ensures
            r@ == streams_dir@ + seq!['/'] + with_extension(self@, "yaml"@),
    {
        proof {
            reveal_strlit("/");
        }
        let mut p = streams_dir.to_owned();
        p.append("/");
        p.append(self.with_ext("yaml").as_str());
        proof {
            assert(p@ =~= streams_dir@ + seq!['/'] + with_extension(self@, "yaml"@));
        }
        p
    }
}

/// One game of the catalog.
#[derive(Clone, Debug)]
pub struct Game {
    pub id: i64,
    pub name: String,
    pub platform: Option<String>,
    pub twitch_name: Option<String>,
}

/// One user of the catalog.
#[derive(Clone, Debug)]
pub struct User {
    pub id: i64,
    pub username: String,
}

/// One person appearing in streams.
#[derive(Clone, Debug)]
pub struct Person {
    pub id: i64,
    pub name: String,
}

/// A person's appearance in one stream.
#[derive(Clone, Debug)]
pub struct PersonParticipation {
    pub stream_id: i64,
    pub person_id: i64,
}

/// A person, as served to clients.
#[derive(Clone, Debug)]
pub struct PersonInfo {
    pub id: i64,
    pub name: String,
}

/// A game, as served to clients.
#[derive(Clone, Debug)]
pub struct GameInfo {
    pub id: i64,
    pub name: String,
    pub twitch_name: Option<String>,
    pub platform: Option<String>,
}

/// A client's request to cut a clip out of a stream.
#[derive(Clone, Debug)]
pub struct CreateClipRequest {
    pub author_username: String,
    pub stream_id: i64,
    pub start_time: i64,
    pub duration: i64,
    pub title: Option<String>,
}

/// One clip of a stream; times are in seconds.
#[derive(Clone, Debug)]
pub struct Clip {
    pub id: i64,
    pub author_id: i64,
    pub author_username: String,
    pub stream_id: i64,
    pub start_time: i64,
    pub duration: i64,
    pub title: Option<String>,
    pub created_at: i64,
    pub view_count: i64,
}

impl Clip {
    /// Where the clip's preview video is stored.
    pub fn preview_path(id: i64) -> (r: String)
        ensures
            r@ == "./previews/clips/"@ + dec_i64(id) + ".webm"@,
    {
        let mut p: String = "./previews/clips/".to_owned();
        p.append(i64_to_dec(id).as_str());
        p.append(".webm");
        p
    }

    /// The URL under which the clip's preview is served.
    pub fn preview_url(&self) -> (r: String)
        ensures
            r@ == "/preview/clips/"@ + dec_i64(self.id) + ".webm"@,
    {
        let mut p: String = "/preview/clips/".to_owned();
        p.append(i64_to_dec(self.id).as_str());
        p.append(".webm");
        p
    }

    /// Where the clip's thumbnail is stored.
    pub fn thumbnail_path(id: i64) -> (r: String)
        ensures
            r@ == "./thumbnails/clips/"@ + dec_i64(id) + ".webp"@,
    {
        let mut p: String = "./thumbnails/clips/".to_owned();
        p.append(i64_to_dec(id).as_str());
        p.append(".webp");
        p
    }

    /// The URL under which the clip's thumbnail is served.
    pub fn thumbnail_url(&self) -> (r: String)
        ensures
            r@ == "/thumbnail/clips/"@ + dec_i64(self.id) + ".webp"@,
    {
        let mut p: String = "/thumbnail/clips/".to_owned();
        p.append(i64_to_dec(self.id).as_str());
        p.append(".webp");
        p
    }
}

/// One chat message stored in the catalog database, for streams whose
/// recording predates log-file capture; times are epoch milliseconds.
#[derive(Clone, Debug)]
pub struct DbMessage {
    pub id: i64,
    pub author_id: i64,
    pub message: String,
    pub time: i64,
    pub real_time: i64,
    pub author_name: String,
}

/// The serialized payload a database message is served as: the same
/// shape a live chat line carries, with database-derived identifiers.
pub open spec fn db_message_payload(m: DbMessage) -> Seq<char> {
    "{\"type\":\"chat\",\"tags\":{\"user-id\":\"db_"@ + dec_i64(m.author_id)
        + "\",\"display-name\":"@ + json_quoted(m.author_name@) + ",\"id\":\"db_"@ + dec_i64(m.id)
        + "\"},\"message\":"@ + json_quoted(m.message@) + "}"@
}

/// Shapes one database message into a replay item carrying the same
/// payload a live chat line would.
pub fn db_message_to_item(m: &DbMessage) -> (r: Item)
    ensures
        r.ts == m.time,
        r@.content == db_message_payload(*m),
{
    let mut s: String = "{\"type\":\"chat\",\"tags\":{\"user-id\":\"db_".to_owned();
    s.append(i64_to_dec(m.author_id).as_str());
    s.append("\",\"display-name\":");
    s.append(quote_json_string(m.author_name.as_str()).as_str());
    s.append(",\"id\":\"db_");
    s.append(i64_to_dec(m.id).as_str());
    s.append("\"},\"message\":");
    s.append(quote_json_string(m.message.as_str()).as_str());
    s.append("}");
    proof {
        assert(s@ =~= db_message_payload(*m));
    }
    Item { ts: m.time, content: s }
}

/// Shapes a whole database timeline, row by row, into replay items;
/// the order is kept.
pub fn db_messages_to_items(ms: &Vec<DbMessage>) -> (r: Vec<Item>)
    ensures
        r@.len() == ms@.len(),
        forall|i: int|
            0 <= i < ms@.len() ==> #[trigger] r.deep_view()[i] == (ItemModel {
                ts: ms@[i].time as int,
                content: db_message_payload(ms@[i]),
            }),
{
    let mut r: Vec<Item> = Vec::new();
    let mut i: usize = 0;
    while i < ms.len()
        invariant
            i <= ms@.len(),
            r@.len() == i,
            forall|j: int|
                0 <= j < i ==> #[trigger] r.deep_view()[j] == (ItemModel {
                    ts: ms@[j].time as int,
                    content: db_message_payload(ms@[j]),
                }),
        decreases ms@.len() - i,
    {
        let item = db_message_to_item(&ms[i]);
        let ghost item_model = item@;
        let ghost old_dv = r.deep_view();
        r.push(item);
        proof {
            assert(r.deep_view() =~= old_dv.push(item_model));
        }
        i = i + 1;
    }
    r
}

} // verus!
