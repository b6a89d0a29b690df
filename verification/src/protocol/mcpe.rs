//! What a server announces of itself to clients that ping it.

use bytes::BytesMut;
use vstd::prelude::*;
use vstd::utf8::encode_utf8;

use super::binary::{buffer_clear, buffer_with_capacity, contents, put_slice, put_u8};

verus! {

/// The first line of the message of the day.
pub struct PrimaryMotd(pub String);

impl PrimaryMotd {
    /// Holds a copy of `value`.
    pub fn new(value: &str) -> (r: Self)
        ensures
            r.0@ == value@,
    {
        Self(value.to_owned())
    }

    /// The text held.
    pub fn get<'a>(&'a self) -> (value: &'a str)
        ensures
            value@ == self.0@,
    {
        self.0.as_str()
    }

    /// Holds a copy of `value` from now on.
    pub fn set(&mut self, value: &str)
        ensures
            final(self).0@ == value@,
    {
        self.0 = value.to_owned();
    }
}

/// The second line of the message of the day.
pub struct SecondaryMotd(pub String);

impl SecondaryMotd {
    /// Holds a copy of `value`.
    pub fn new(value: &str) -> (r: Self)
        ensures
            r.0@ == value@,
    {
        Self(value.to_owned())
    }

    /// The text held.
    pub fn get<'a>(&'a self) -> (value: &'a str)
        ensures
            value@ == self.0@,
    {
        self.0.as_str()
    }

    /// Holds a copy of `value` from now on.
    pub fn set(&mut self, value: &str)
        ensures
            final(self).0@ == value@,
    {
        self.0 = value.to_owned();
    }
}

/// The game version that the server announces.
pub struct MinecraftVersion(pub String);

impl MinecraftVersion {
    /// Holds a copy of `value`.
    pub fn new(value: &str) -> (r: Self)
        ensures
            r.0@ == value@,
    {
        Self(value.to_owned())
    }

    /// The text held.
    pub fn get<'a>(&'a self) -> (value: &'a str)
        ensures
            value@ == self.0@,
    {
        self.0.as_str()
    }

    /// Holds a copy of `value` from now on.
    pub fn set(&mut self, value: &str)
        ensures
            final(self).0@ == value@,
    {
        self.0 = value.to_owned();
    }
}

/// The game mode that the server announces.
pub struct BroadcastGamemode(pub String);

impl BroadcastGamemode {
    /// Holds a copy of `value`.
    pub fn new(value: &str) -> (r: Self)
        ensures
            r.0@ == value@,
    {
        Self(value.to_owned())
    }

    /// The text held.
    pub fn get<'a>(&'a self) -> (value: &'a str)
        ensures
            value@ == self.0@,
    {
        self.0.as_str()
    }

    /// Holds a copy of `value` from now on.
    pub fn set(&mut self, value: &str)
        ensures
            final(self).0@ == value@,
    {
        self.0 = value.to_owned();
    }
}

/// The number of players online.
pub struct OnlinePlayers(pub u32);

impl OnlinePlayers {
    /// Holds `value`.
    pub fn new(value: u32) -> (r: Self)
        ensures
            r.0 == value,
    {
        Self(value)
    }

    /// The number held.
    pub fn get(&self) -> (value: u32)
        ensures
            value == self.0,
    {
        self.0
    }

    /// Holds `value` from now on.
    pub fn set(&mut self, value: u32)
        ensures
            final(self).0 == value,
    {
        self.0 = value;
    }
}

/// The number of players the server takes.
pub struct MaxPlayers(pub u32);

impl MaxPlayers {
    /// Holds `value`.
    pub fn new(value: u32) -> (r: Self)
        ensures
            r.0 == value,
    {
        Self(value)
    }

    /// The number held.
    pub fn get(&self) -> (value: u32)
        ensures
            value == self.0,
    {
        self.0
    }

    /// Holds `value` from now on.
    pub fn set(&mut self, value: u32)
        ensures
            final(self).0 == value,
    {
        self.0 = value;
    }
}

/// The game protocol version that the server announces.
pub struct MinecraftProtocol(pub u32);

impl MinecraftProtocol {
    /// Holds `value`.
    pub fn new(value: u32) -> (r: Self)
        ensures
            r.0 == value,
    {
        Self(value)
    }

    /// The number held.
    pub fn get(&self) -> (value: u32)
        ensures
            value == self.0,
    {
        self.0
    }

    /// Holds `value` from now on.
    pub fn set(&mut self, value: u32)
        ensures
            final(self).0 == value,
    {
        self.0 = value;
    }
}

/// The decimal digits of `n` in ASCII, without leading zeros.
pub open spec fn decimal(n: nat) -> Seq<u8>
    decreases n,
{
    if n < 10 {
        seq![(48 + n) as u8]
    } else {
        decimal(n / 10).push((48 + n % 10) as u8)
    }
}

/// The decimal digits of `v` in ASCII, after a minus sign where it is negative.
pub open spec fn signed_decimal(v: int) -> Seq<u8> {
    if v < 0 {
        seq![45u8] + decimal((-v) as nat)
    } else {
        decimal(v as nat)
    }
}

/// A text and the semicolon after it.
pub open spec fn text_field(text: Seq<char>) -> Seq<u8> {
    encode_utf8(text) + seq![59u8]
}

/// The decimal digits of a number and the semicolon after them.
pub open spec fn number_field(n: nat) -> Seq<u8> {
    decimal(n) + seq![59u8]
}

/// The status that a server sends in answer to a ping: the edition, the two
/// lines of the message of the day, the versions, the player counts, the
/// server id, the game mode and the port, each followed by a semicolon, in
/// the order `MCPE;primary;protocol;version;online;max;guid;secondary;gamemode;1;port;`.
pub open spec fn status_text(
    primary: Seq<char>,
    protocol: u32,
    version: Seq<char>,
    online: u32,
    max: u32,
    guid: i64,
    secondary: Seq<char>,
    gamemode: Seq<char>,
    port: u16,
) -> Seq<u8> {
    text_field("MCPE"@) + text_field(primary) + number_field(protocol as nat) + text_field(version)
        + number_field(online as nat) + number_field(max as nat) + signed_decimal(guid as int)
        + seq![59u8] + text_field(secondary) + text_field(gamemode) + number_field(1)
        + number_field(port as nat)
}

/// Appends the decimal digits of `n`.
fn put_decimal(buf: &mut BytesMut, n: u64)
    ensures
        contents(*final(buf)) == contents(*old(buf)) + decimal(n as nat),
    decreases n,
{
    if n >= 10 {
        put_decimal(buf, n / 10);
    }
    put_u8(buf, 48 + (n % 10) as u8);
    assert(contents(*buf) =~= contents(*old(buf)) + decimal(n as nat));
}

/// Appends the decimal digits of `v`, after a minus sign where it is negative.
fn put_signed_decimal(buf: &mut BytesMut, v: i64)
    ensures
        contents(*final(buf)) == contents(*old(buf)) + signed_decimal(v as int),
{
    if v < 0 {
        put_u8(buf, 45);
        put_decimal(buf, (-(v as i128)) as u64);
        assert(contents(*buf) =~= contents(*old(buf)) + signed_decimal(v as int));
    } else {
        put_decimal(buf, v as u64);
    }
}

/// Appends the bytes of `text` and a semicolon.
fn put_field(buf: &mut BytesMut, text: &str)
    ensures
        contents(*final(buf)) == contents(*old(buf)) + text_field(text@),
{
    put_slice(buf, text.as_bytes());
    put_u8(buf, 59);
    assert(contents(*buf) =~= contents(*old(buf)) + text_field(text@));
}

/// Appends the decimal digits of `n` and a semicolon.
fn put_number(buf: &mut BytesMut, n: u64)
    ensures
        contents(*final(buf)) == contents(*old(buf)) + number_field(n as nat),
{
    put_decimal(buf, n);
    put_u8(buf, 59);
    assert(contents(*buf) =~= contents(*old(buf)) + number_field(n as nat));
}

/// The status of the server as it goes into the answer to a ping.
pub struct StatusResource {
    pub bytes: BytesMut,
}

impl StatusResource {
    /// The status of a server before its settings are known.
    pub fn new() -> (r: Self)
        ensures
            contents(r.bytes) == encode_utf8(
                "MCPE;RakNet;390;1.14.60;0;10;13253860892328930865;Blazingly fast;Survival;1;19132;"@,
            ),
    {
        let mut bytes = buffer_with_capacity(300);
        let status =
            "MCPE;RakNet;390;1.14.60;0;10;13253860892328930865;Blazingly fast;Survival;1;19132;";
        put_slice(&mut bytes, status.as_bytes());
        assert(contents(bytes) =~= encode_utf8(status@));
        Self { bytes }
    }

    /// Writes the status anew from the settings of the server, the id of the
    /// server and the port it listens on.
    pub fn update(
        &mut self,
        primary: &PrimaryMotd,
        secondary: &SecondaryMotd,
        online: &OnlinePlayers,
        max: &MaxPlayers,
        protocol: &MinecraftProtocol,
        version: &MinecraftVersion,
        gamemode: &BroadcastGamemode,
        guid: i64,
        port: u16,
    )
        ensures
            contents(final(self).bytes) == status_text(
                primary.0@,
                protocol.0,
                version.0@,
                online.0,
                max.0,
                guid,
                secondary.0@,
                gamemode.0@,
                port,
            ),
    {
        buffer_clear(&mut self.bytes);
        put_field(&mut self.bytes, "MCPE");
        put_field(&mut self.bytes, primary.get());
        put_number(&mut self.bytes, protocol.get() as u64);
        put_field(&mut self.bytes, version.get());
        put_number(&mut self.bytes, online.get() as u64);
        put_number(&mut self.bytes, max.get() as u64);
        put_signed_decimal(&mut self.bytes, guid);
        put_u8(&mut self.bytes, 59);
        put_field(&mut self.bytes, secondary.get());
        put_field(&mut self.bytes, gamemode.get());
        put_number(&mut self.bytes, 1);
        put_number(&mut self.bytes, port as u64);
        assert(contents(self.bytes) =~= status_text(
            primary.0@,
            protocol.0,
            version.0@,
            online.0,
            max.0,
            guid,
            secondary.0@,
            gamemode.0@,
            port,
        ));
    }
}

} // verus!
