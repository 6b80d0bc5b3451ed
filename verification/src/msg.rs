//! The message record: the unit of storage and pagination.

use vstd::prelude::*;

verus! {

/// Mathematical image of a [`Msg`]: the same fields with strings as
/// character sequences.
pub ghost struct MsgView {
    pub message_id: u64,
    pub channel_id: u64,
    pub guild_id: u64,
    pub author_id: u64,
    pub author_name: Seq<char>,
    pub bot: bool,
    pub timestamp: i64,
    pub content: Seq<char>,
}

/// One message record. Its identity is `message_id`, assigned by the remote
/// service, unique across the store. `author_name` is a snapshot taken at
/// fetch time, never updated afterwards.
pub struct Msg {
    pub message_id: u64,
    pub channel_id: u64,
    pub guild_id: u64,
    pub author_id: u64,
    pub author_name: String,
    pub bot: bool,
    pub timestamp: i64,
    pub content: String,
}

impl View for Msg {
    type V = MsgView;

    open spec fn view(&self) -> MsgView {
        MsgView {
            message_id: self.message_id,
            channel_id: self.channel_id,
            guild_id: self.guild_id,
            author_id: self.author_id,
            author_name: self.author_name@,
            bot: self.bot,
            timestamp: self.timestamp,
            content: self.content@,
        }
    }
}

impl Clone for Msg {
    fn clone(&self) -> (r: Self)
        ensures
            r@ == self@,
    {
        Msg {
            message_id: self.message_id,
            channel_id: self.channel_id,
            guild_id: self.guild_id,
            author_id: self.author_id,
            author_name: self.author_name.clone(),
            bot: self.bot,
            timestamp: self.timestamp,
            content: self.content.clone(),
        }
    }
}

/// The views of a sequence of records.
pub open spec fn views(s: Seq<Msg>) -> Seq<MsgView> {
    s.map_values(|m: Msg| m@)
}

} // verus!
