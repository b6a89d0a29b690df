use raknet::net::server_update_status;
use raknet::net::socket::SocketInfo;
use raknet::protocol::binary::UDPAddress;
use raknet::protocol::mcpe::{
    BroadcastGamemode, MaxPlayers, MinecraftProtocol, MinecraftVersion, OnlinePlayers, PrimaryMotd,
    SecondaryMotd, StatusResource,
};

#[test]
fn default_status() {
    let status = StatusResource::new();
    assert_eq!(
        &status.bytes[..],
        &b"MCPE;RakNet;390;1.14.60;0;10;13253860892328930865;Blazingly fast;Survival;1;19132;"[..]
    );
}

#[test]
fn settings_hold_what_they_are_given() {
    let mut primary = PrimaryMotd::new("RakNet");
    assert_eq!(primary.get(), "RakNet");
    primary.set("Other");
    assert_eq!(primary.get(), "Other");
    let mut secondary = SecondaryMotd::new("a");
    secondary.set("b");
    assert_eq!(secondary.get(), "b");
    let mut version = MinecraftVersion::new("1.20.51");
    assert_eq!(version.get(), "1.20.51");
    version.set("1.21");
    assert_eq!(version.get(), "1.21");
    let mut gamemode = BroadcastGamemode::new("Survival");
    assert_eq!(gamemode.get(), "Survival");
    gamemode.set("Creative");
    assert_eq!(gamemode.get(), "Creative");
    let mut online = OnlinePlayers::new(3);
    assert_eq!(online.get(), 3);
    online.set(4);
    assert_eq!(online.get(), 4);
    let mut max = MaxPlayers::new(1000);
    assert_eq!(max.get(), 1000);
    max.set(u32::MAX);
    assert_eq!(max.get(), u32::MAX);
    let mut protocol = MinecraftProtocol::new(600);
    assert_eq!(protocol.get(), 600);
    protocol.set(0);
    assert_eq!(protocol.get(), 0);
}

#[test]
fn status_is_written_from_the_settings() {
    let mut status = StatusResource::new();
    status.update(
        &PrimaryMotd::new("RakNet"),
        &SecondaryMotd::new("blazingly fast!"),
        &OnlinePlayers::new(0),
        &MaxPlayers::new(1000),
        &MinecraftProtocol::new(600),
        &MinecraftVersion::new("1.20.51"),
        &BroadcastGamemode::new("Survival"),
        -5983281899847759751,
        19132,
    );
    assert_eq!(
        &status.bytes[..],
        &b"MCPE;RakNet;600;1.20.51;0;1000;-5983281899847759751;blazingly fast!;Survival;1;19132;"[..]
    );
}

#[test]
fn status_with_extreme_numbers() {
    let mut status = StatusResource::new();
    let info = SocketInfo { addr: UDPAddress::V6 { ip: 1, port: 65535 }, guid: i64::MIN };
    server_update_status(
        &PrimaryMotd::new(""),
        &SecondaryMotd::new("\u{e9}"),
        &OnlinePlayers::new(u32::MAX),
        &MaxPlayers::new(10),
        &MinecraftProtocol::new(9),
        &MinecraftVersion::new("v"),
        &BroadcastGamemode::new("g"),
        &info,
        &mut status,
    );
    assert_eq!(
        &status.bytes[..],
        "MCPE;;9;v;4294967295;10;-9223372036854775808;\u{e9};g;1;65535;".as_bytes()
    );
    let info = SocketInfo { addr: UDPAddress::V4 { ip: 1, port: 0 }, guid: i64::MAX };
    server_update_status(
        &PrimaryMotd::new("a;b"),
        &SecondaryMotd::new(""),
        &OnlinePlayers::new(0),
        &MaxPlayers::new(0),
        &MinecraftProtocol::new(0),
        &MinecraftVersion::new(""),
        &BroadcastGamemode::new(""),
        &info,
        &mut status,
    );
    assert_eq!(&status.bytes[..], &b"MCPE;a;b;0;;0;0;9223372036854775807;;;1;0;"[..]);
}
