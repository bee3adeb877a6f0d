use geosite_rs::{encode_geoip, Cidr, GeoIp, GeoIpList};
use monadns::geo::{
    geoip_rows, geoip_rows_of_bytes, geosite_rows, GeoCidr, GeoDomain, GeoIpGroup, GeoSiteGroup,
};
use monadns::net::IpAddress;

#[test]
fn geosite_rows_flatten_groups_in_order() {
    let groups = vec![
        GeoSiteGroup {
            country_code: "GOOGLE".to_string(),
            domains: vec![
                GeoDomain { kind: 2, value: "google.com".to_string() },
                GeoDomain { kind: 3, value: "www.google.com".to_string() },
            ],
        },
        GeoSiteGroup { country_code: "EMPTY".to_string(), domains: Vec::new() },
        GeoSiteGroup {
            country_code: "CN".to_string(),
            domains: vec![GeoDomain { kind: 0, value: "baidu".to_string() }],
        },
    ];
    let rows = geosite_rows(&groups);
    let got: Vec<(String, String, i32)> =
        rows.into_iter().map(|r| (r.category, r.domain, r.kind)).collect();
    assert_eq!(
        got,
        vec![
            ("GOOGLE".to_string(), "google.com".to_string(), 2),
            ("GOOGLE".to_string(), "www.google.com".to_string(), 3),
            ("CN".to_string(), "baidu".to_string(), 0),
        ]
    );
}

#[test]
fn geoip_rows_read_big_endian_addresses_and_skip_odd_sizes() {
    let groups = vec![GeoIpGroup {
        country_code: "CN".to_string(),
        cidrs: vec![
            GeoCidr { ip: vec![1, 2, 3, 0], prefix: 24 },
            GeoCidr { ip: vec![1, 2, 3], prefix: 24 },
            GeoCidr {
                ip: vec![0x20, 0x01, 0x0d, 0xb8, 0, 0, 0, 0, 0, 0, 0, 0, 0, 0, 0, 0],
                prefix: 32,
            },
        ],
    }];
    let rows = geoip_rows(&groups);
    assert_eq!(rows.len(), 2);
    assert_eq!(rows[0].category, "CN");
    assert_eq!(rows[0].address, IpAddress::V4(0x0102_0300));
    assert_eq!(rows[0].prefix, 24);
    assert_eq!(rows[1].address, IpAddress::V6(0x2001_0db8u128 << 96));
    assert_eq!(rows[1].prefix, 32);
}

#[test]
fn geoip_rows_of_bytes_decode_a_database() {
    let list = GeoIpList {
        entry: vec![
            GeoIp {
                country_code: "PRIVATE".to_string(),
                cidr: vec![
                    Cidr { ip: vec![10, 0, 0, 0], prefix: 8 },
                    Cidr { ip: vec![192, 168, 0, 0], prefix: 16 },
                ],
                reverse_match: false,
            },
            GeoIp {
                country_code: "TEST".to_string(),
                cidr: vec![Cidr { ip: vec![0; 16], prefix: 0 }],
                reverse_match: false,
            },
        ],
    };
    let rows = geoip_rows_of_bytes(&encode_geoip(list)).unwrap();
    let got: Vec<(String, IpAddress, u32)> =
        rows.into_iter().map(|r| (r.category, r.address, r.prefix)).collect();
    assert_eq!(
        got,
        vec![
            ("PRIVATE".to_string(), IpAddress::V4(0x0a00_0000), 8),
            ("PRIVATE".to_string(), IpAddress::V4(0xc0a8_0000), 16),
            ("TEST".to_string(), IpAddress::V6(0), 0),
        ]
    );
}

#[test]
fn geoip_rows_of_bytes_report_decode_errors() {
    assert!(geoip_rows_of_bytes(&[0xff, 0xff, 0xff]).is_err());
    assert!(geoip_rows_of_bytes(&[]).unwrap().is_empty());
}
