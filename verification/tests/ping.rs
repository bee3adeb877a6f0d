use monadns::ping::{find_str, is_unreachable, latency_text, loss_text, ping_texts};

const LINUX_OUTPUT: &str = "PING 1.1.1.1 (1.1.1.1) from 10.0.0.2 wg0: 56(84) bytes of data.
64 bytes from 1.1.1.1: icmp_seq=1 ttl=57 time=10.2 ms

--- 1.1.1.1 ping statistics ---
3 packets transmitted, 3 received, 0% packet loss, time 2003ms
rtt min/avg/max/mdev = 9.812/10.245/10.601/0.325 ms
";

const BSD_OUTPUT: &str = "--- 1.1.1.1 ping statistics ---
3 packets transmitted, 2 packets received, 33.3% packet loss
round-trip min/avg/max/stddev = 11.1/12.5/13.9/1.1 ms
";

#[test]
fn find_str_gives_first_char_position() {
    assert_eq!(find_str("abcabc", "ca"), Some(2));
    assert_eq!(find_str("abc", ""), Some(0));
    assert_eq!(find_str("abc", "d"), None);
    assert_eq!(find_str("ab", "abc"), None);
}

#[test]
fn loss_text_is_between_last_comma_and_percent() {
    assert_eq!(
        loss_text("3 packets transmitted, 3 received, 0% packet loss, time 2003ms"),
        Some("0".to_string())
    );
    assert_eq!(
        loss_text("3 packets transmitted, 2 packets received, 33.3% packet loss"),
        Some("33.3".to_string())
    );
    assert_eq!(loss_text("100% packet loss"), None);
    assert_eq!(loss_text("no statistics here"), None);
}

#[test]
fn latency_text_is_the_average_field() {
    assert_eq!(
        latency_text("rtt min/avg/max/mdev = 9.812/10.245/10.601/0.325 ms"),
        Some("10.245".to_string())
    );
    assert_eq!(
        latency_text("round-trip min/avg/max/stddev = 11.1/12.5/13.9/1.1 ms"),
        Some("12.5".to_string())
    );
    assert_eq!(latency_text("64 bytes from 1.1.1.1: icmp_seq=1 ttl=57 time=10.2 ms"), None);
    assert_eq!(latency_text("rtt min/avg/max/mdev"), None);
}

#[test]
fn ping_texts_collect_candidates_in_line_order() {
    let (loss, lat) = ping_texts(LINUX_OUTPUT);
    assert_eq!(loss, vec!["0"]);
    assert_eq!(lat, vec!["10.245"]);
    let (loss, lat) = ping_texts(BSD_OUTPUT);
    assert_eq!(loss, vec!["33.3"]);
    assert_eq!(lat, vec!["12.5"]);
    let (loss, lat) = ping_texts("");
    assert!(loss.is_empty() && lat.is_empty());
}

#[test]
fn unreachable_messages() {
    assert!(is_unreachable("ping: connect: Network is unreachable\n"));
    assert!(is_unreachable("From 10.0.0.1 icmp_seq=1 No route to host"));
    assert!(is_unreachable("ping: socket: Address family not supported by protocol"));
    assert!(!is_unreachable("ping: unknown host"));
}

#[test]
fn latency_word_is_taken_after_any_white_space() {
    assert_eq!(
        latency_text("rtt min/avg/max/mdev =\u{3000}\t1.5/2.5/3.5/0.1\u{a0}ms"),
        Some("2.5".to_string())
    );
    assert_eq!(latency_text("rtt min/avg/max/mdev =   "), None);
}
