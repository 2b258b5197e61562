use sha2::{Digest, Sha256};

use linkup::fingerprint::{
    generate_fingerprint, generate_hash_prefix, get_mac_addresses, get_or_create_fingerprint,
    hostname_to_slug, parse_ifconfig_output, u64_to_decimal, FingerprintPlan,
};

#[test]
fn test_hostname_to_slug() {
    assert_eq!(hostname_to_slug("MyHostName"), "myhostname");
    assert_eq!(hostname_to_slug("my-hostname"), "my-hostname");
    assert_eq!(hostname_to_slug("my_hostname"), "my-hostname");
    assert_eq!(hostname_to_slug("My Hostname"), "my-hostname");
}

#[test]
fn test_generate_hash_prefix() {
    let macs = vec!["00:11:22:33:44:55".to_string()];
    let hash = generate_hash_prefix(&macs);
    assert_eq!(hash.len(), 6);
    assert!(hash.chars().all(|c| c.is_ascii_hexdigit()));
}

#[test]
fn test_fingerprint_format() {
    let macs = get_mac_addresses(None);
    let fingerprint = generate_fingerprint("Build-Host.local", &macs);
    let parts: Vec<&str> = fingerprint.split('-').collect();
    assert!(
        parts.len() >= 2,
        "Fingerprint should have at least hostname and hash"
    );

    let last_part = parts.last().unwrap();
    assert_eq!(last_part.len(), 6);
    assert!(last_part.chars().all(|c| c.is_ascii_hexdigit()));
}

#[test]
fn slug_trims_dashes_and_keeps_only_ascii_letters_and_digits() {
    assert_eq!(hostname_to_slug("--Host__Name--"), "host--name");
    assert_eq!(hostname_to_slug("___"), "");
    assert_eq!(hostname_to_slug("héllo.local"), "h-llo-local");
    assert_eq!(hostname_to_slug(""), "");
}

#[test]
fn hash_prefix_is_sha256_of_joined_addresses() {
    let macs = vec!["a".to_string(), "b".to_string()];
    let expected = {
        let digest = Sha256::digest("a|b".as_bytes());
        hex::encode(&digest[..3])
    };
    assert_eq!(generate_hash_prefix(&macs), expected);
    // the empty list hashes the empty text
    let empty: Vec<String> = vec![];
    assert_eq!(generate_hash_prefix(&empty), "e3b0c4");
}

#[test]
fn fingerprint_is_slug_dash_hash() {
    let macs = vec!["00:11:22:33:44:55".to_string()];
    let fingerprint = generate_fingerprint("My Laptop", &macs);
    assert_eq!(
        fingerprint,
        format!("my-laptop-{}", generate_hash_prefix(&macs))
    );
}

#[test]
fn stored_fingerprint_is_used() {
    match get_or_create_fingerprint(Some("stored-abc123".to_string())) {
        FingerprintPlan::UseStored(f) => assert_eq!(f, "stored-abc123"),
        FingerprintPlan::GenerateAndStore => panic!("expected the stored fingerprint"),
    }
    assert!(matches!(
        get_or_create_fingerprint(None),
        FingerprintPlan::GenerateAndStore
    ));
}

const IFCONFIG: &str = "lo0: flags=8049<UP,LOOPBACK,RUNNING,MULTICAST> mtu 16384\n\
\tinet 127.0.0.1 netmask 0xff000000\n\
en0: flags=8863<UP,BROADCAST,SMART,RUNNING,SIMPLEX,MULTICAST> mtu 1500\n\
\tether F0:18:98:AA:BB:CC\r\n\
\tinet 192.168.1.10 netmask 0xffffff00 broadcast 192.168.1.255\n\
bridge0: flags=8863<UP> mtu 1500\n\
\tether 00:00:00:00:00:00\n\
eth1: flags=4163<UP> mtu 1500\n\
        inet6 fe80::1  prefixlen 64  scopeid 0x20<link>\n\
        ether 0a:1b:2c:3d:4e:5f  txqueuelen 1000  (Ethernet)\n\
en5: flags=8863<UP> mtu 1500\n\
\tether ac:de:48:00:11:22";

#[test]
fn ifconfig_output_gives_sorted_lowercase_macs() {
    let macs = parse_ifconfig_output(IFCONFIG);
    assert_eq!(
        macs,
        vec![
            "0a:1b:2c:3d:4e:5f".to_string(),
            "ac:de:48:00:11:22".to_string(),
            "f0:18:98:aa:bb:cc".to_string(),
        ]
    );
}

#[test]
fn ifconfig_ignores_lines_without_ether_and_wrong_lengths() {
    let output = "inet6 fe80::aaaa:bbbb:cccc:dddd\nether 00:11:22:33:44\nether 00:11:22:33:44:55:66\n";
    assert!(parse_ifconfig_output(output).is_empty());
    assert!(parse_ifconfig_output("").is_empty());
}

#[test]
fn ifconfig_counts_bytes_not_characters() {
    // 16 characters, 17 bytes: 'é' takes two bytes in UTF-8
    let output = "ether é0:11:22:33:44:5";
    assert_eq!(parse_ifconfig_output(output), vec!["é0:11:22:33:44:5".to_string()]);
}

#[test]
fn missing_ifconfig_gives_one_random_stand_in() {
    let macs = get_mac_addresses(None);
    assert_eq!(macs.len(), 1);
    let number = macs[0].strip_prefix("random-").expect("random- prefix");
    assert!(number.parse::<u64>().is_ok());
    assert_eq!(get_mac_addresses(Some("ether 00:11:22:33:44:55")), vec!["00:11:22:33:44:55".to_string()]);
}

#[test]
fn decimal_notation() {
    assert_eq!(u64_to_decimal(0), "0");
    assert_eq!(u64_to_decimal(7), "7");
    assert_eq!(u64_to_decimal(1234567890), "1234567890");
    assert_eq!(u64_to_decimal(u64::MAX), u64::MAX.to_string());
}

#[test]
fn fingerprint_does_not_depend_on_interface_order() {
    let one = "en0: flags\n\tether ac:de:48:00:11:22\nen1: flags\n\tether 0a:1b:2c:3d:4e:5f\n";
    let two = "en1: flags\n\tether 0a:1b:2c:3d:4e:5f\nen0: flags\n\tether ac:de:48:00:11:22\n";
    let a = get_mac_addresses(Some(one));
    let b = get_mac_addresses(Some(two));
    assert_eq!(a, b);
    assert_eq!(generate_fingerprint("host", &a), generate_fingerprint("host", &b));
}
