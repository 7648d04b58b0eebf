//! Tests for the binary packet decoder.

use undersea::packets::{
    add_versions, bytes_to_binary_string, hex_string_to_bytes, Packet, PacketVariant,
};

fn top_packet(hex: &str) -> Packet {
    let bytes = hex_string_to_bytes(hex);
    let (packet, _) = Packet::parse(&bytes, 0).expect("test input decodes");
    packet
}

#[test]
fn hex() {
    let bytes = hex_string_to_bytes("D2FE28");
    assert_eq!(bytes_to_binary_string(&bytes), "110100101111111000101000");
}

#[test]
fn literal() {
    let packet = top_packet("D2FE28");
    assert_eq!(packet.header.version, 6);
    assert_eq!(packet.header.type_id, 4);
    assert_eq!(packet.length, 21);
    assert_eq!(packet.kind, PacketVariant::Literal(2021));
}

#[test]
fn operator_0() {
    let packet = top_packet("38006F45291200");
    assert_eq!(packet.header.version, 1);
    assert_eq!(packet.header.type_id, 6);
    assert_eq!(packet.length, 49);
    if let PacketVariant::Operator(packets) = packet.kind {
        assert_eq!(packets.len(), 2);
        assert_eq!(packets[0].kind, PacketVariant::Literal(10));
        assert_eq!(packets[1].kind, PacketVariant::Literal(20));
    } else {
        panic!("not operator variant");
    }
}

#[test]
fn operator_1() {
    let packet = top_packet("EE00D40C823060");
    assert_eq!(packet.header.version, 7);
    assert_eq!(packet.header.type_id, 3);
    assert_eq!(packet.length, 51);
    if let PacketVariant::Operator(packets) = packet.kind {
        assert_eq!(packets.len(), 3);
        assert_eq!(packets[0].kind, PacketVariant::Literal(1));
        assert_eq!(packets[1].kind, PacketVariant::Literal(2));
        assert_eq!(packets[2].kind, PacketVariant::Literal(3));
    } else {
        panic!("not operator variant");
    }
}

#[test]
fn part1_16() {
    assert_eq!(31, add_versions(&top_packet("A0016C880162017C3686B18A3D4780")));
    assert_eq!(16, add_versions(&top_packet("8A004A801A8002F478")));
    assert_eq!(12, add_versions(&top_packet("620080001611562C8802118E34")));
    assert_eq!(23, add_versions(&top_packet("C0015000016115A2E0802F182340")));
}

#[test]
fn part2_16() {
    assert_eq!(3, top_packet("C200B40A82").decode());
    assert_eq!(54, top_packet("04005AC33890").decode());
    assert_eq!(7, top_packet("880086C3E88112").decode());
    assert_eq!(9, top_packet("CE00C43D881120").decode());
    assert_eq!(1, top_packet("D8005AC2A8F0").decode());
    assert_eq!(0, top_packet("F600BC2D8F").decode());
    assert_eq!(0, top_packet("9C005AC2F8F0").decode());
    assert_eq!(1, top_packet("9C0141080250320F1802104A08").decode());
}

#[test]
fn truncated_input_is_rejected() {
    let bytes = hex_string_to_bytes("D2");
    assert!(Packet::parse(&bytes, 0).is_err());
    let empty: Vec<u8> = Vec::new();
    assert!(Packet::parse(&empty, 0).is_err());
}
