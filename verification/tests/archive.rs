use edit_checkpoint::rewrite::{read_image_entry, rewrite_archive};
use edit_checkpoint::tarfmt::{build_archive, parse_archive, parse_octal_field, TarEntry};
use edit_checkpoint::RewriteError;
use serde_json::Value;
use std::io::Read;

fn tar_with(entries: &[(&str, &[u8])]) -> Vec<u8> {
    let mut builder = tar::Builder::new(Vec::new());
    for (path, data) in entries {
        let mut h = tar::Header::new_ustar();
        h.set_path(path).unwrap();
        h.set_size(data.len() as u64);
        h.set_mode(0o644);
        h.set_cksum();
        builder.append(&h, *data).unwrap();
    }
    builder.into_inner().unwrap()
}

fn read_tar(bytes: &[u8]) -> Vec<(String, Vec<u8>)> {
    let mut archive = tar::Archive::new(bytes);
    let mut out = Vec::new();
    for entry in archive.entries().unwrap() {
        let mut entry = entry.unwrap();
        let path = entry.path().unwrap().display().to_string();
        let mut data = Vec::new();
        entry.read_to_end(&mut data).unwrap();
        out.push((path, data));
    }
    out
}

#[test]
fn parse_reads_paths_and_payloads() {
    let bytes = tar_with(&[("a.txt", b"alpha"), ("dir/b.bin", &[0u8, 1, 2, 3])]);
    let entries = parse_archive(&bytes).unwrap();
    assert_eq!(entries.len(), 2);
    assert_eq!(entries[0].path, b"a.txt");
    assert_eq!(entries[0].data, b"alpha");
    assert_eq!(entries[1].path, b"dir/b.bin");
    assert_eq!(entries[1].data, vec![0u8, 1, 2, 3]);
}

#[test]
fn parse_rejects_truncated_archives() {
    let bytes = tar_with(&[("a.txt", b"alpha")]);
    assert_eq!(parse_archive(&bytes[..600]).unwrap_err(), RewriteError::BadArchive);
}

#[test]
fn build_round_trips_through_an_outside_reader() {
    let bytes = tar_with(&[("a.txt", b"alpha"), ("b.txt", b"beta")]);
    let entries = parse_archive(&bytes).unwrap();
    let rebuilt = build_archive(&entries);
    let seen = read_tar(&rebuilt);
    assert_eq!(seen.len(), 2);
    assert_eq!(seen[0].0, "a.txt");
    assert_eq!(seen[0].1, b"alpha");
    assert_eq!(seen[1].0, "b.txt");
    assert_eq!(seen[1].1, b"beta");
}

#[test]
fn build_round_trips_through_own_parser() {
    let bytes = tar_with(&[("a.txt", b"alpha")]);
    let entries = parse_archive(&bytes).unwrap();
    let rebuilt = build_archive(&entries);
    let again = parse_archive(&rebuilt).unwrap();
    assert_eq!(again.len(), 1);
    assert_eq!(again[0].path, b"a.txt");
    assert_eq!(again[0].data, b"alpha");
}

#[test]
fn octal_fields_parse() {
    assert_eq!(parse_octal_field(b"00000000017\0"), Some(15));
    assert_eq!(parse_octal_field(b"   17 \0\0\0\0\0\0"), Some(15));
    assert_eq!(parse_octal_field(b"\0\0\0\0"), None);
    assert_eq!(parse_octal_field(b"19\0"), None);
}

fn checkpoint_tar(image: &[u8]) -> Vec<u8> {
    let status = br#"[{"ips":[{"address":"192.168.12.2/24"}],"name":"eth0"}]"#;
    let config = br#"{"createCommand":["podman","run","--ip","192.168.12.2","img"],"staticIP":"192.168.12.2"}"#;
    tar_with(&[
        ("config.dump", config as &[u8]),
        ("checkpoint/files.img", image),
        ("network.status", status as &[u8]),
        ("other/unrelated.bin", &[9u8, 8, 7]),
    ])
}

#[test]
fn rewrite_preserves_order_and_unmatched_bytes() {
    let input = checkpoint_tar(b"OLDIMAGE");
    let out = rewrite_archive(&input, "10.1.1.9", &b"NEWIMAGE!".to_vec()).unwrap();
    let seen = read_tar(&out);
    assert_eq!(seen.len(), 4);
    assert_eq!(seen[0].0, "config.dump");
    assert_eq!(seen[1].0, "checkpoint/files.img");
    assert_eq!(seen[2].0, "network.status");
    assert_eq!(seen[3].0, "other/unrelated.bin");
    assert_eq!(seen[1].1, b"NEWIMAGE!");
    assert_eq!(seen[3].1, vec![9u8, 8, 7]);

    let status: Value = serde_json::from_slice(&seen[2].1).unwrap();
    assert_eq!(status[0]["ips"][0]["address"], Value::String("10.1.1.9/24".to_string()));
    assert_eq!(status[0]["name"], Value::String("eth0".to_string()));

    let config: Value = serde_json::from_slice(&seen[0].1).unwrap();
    assert_eq!(config["staticIP"], Value::String("10.1.1.9".to_string()));
    assert_eq!(config["createCommand"][3], Value::String("10.1.1.9".to_string()));
}

#[test]
fn rewrite_without_image_entry_fails_and_writes_nothing() {
    let input = tar_with(&[("network.status", b"[]" as &[u8]), ("a.txt", b"alpha")]);
    let r = rewrite_archive(&input, "10.1.1.9", &b"IMG".to_vec());
    assert_eq!(r.unwrap_err(), RewriteError::ImageMissing);
}

#[test]
fn rewrite_with_bad_status_json_fails() {
    let input = tar_with(&[
        ("checkpoint/files.img", b"IMG" as &[u8]),
        ("network.status", b"not json" as &[u8]),
    ]);
    let r = rewrite_archive(&input, "10.1.1.9", &b"IMG".to_vec());
    assert_eq!(r.unwrap_err(), RewriteError::ParseNetworkStatus);
}

#[test]
fn read_image_entry_returns_the_payload() {
    let input = checkpoint_tar(b"OLDIMAGE");
    assert_eq!(read_image_entry(&input).unwrap(), b"OLDIMAGE");
}

#[test]
fn read_image_entry_reports_a_missing_image() {
    let input = tar_with(&[("a.txt", b"alpha")]);
    assert_eq!(read_image_entry(&input).unwrap_err(), RewriteError::ImageMissing);
}

#[test]
fn rewrite_output_parses_with_own_parser_too() {
    let input = checkpoint_tar(b"OLDIMAGE");
    let out = rewrite_archive(&input, "10.1.1.9", &b"NEW".to_vec()).unwrap();
    let entries = parse_archive(&out).unwrap();
    assert_eq!(entries.len(), 4);
    assert_eq!(entries[1].path, b"checkpoint/files.img");
    assert_eq!(entries[1].data, b"NEW");
}

#[test]
fn entries_built_by_hand_round_trip() {
    // a raw pre-POSIX header: name, mode, sizes, checksum, no magic
    let mut header = vec![0u8; 512];
    header[..8].copy_from_slice(b"demo.txt");
    header[124..136].copy_from_slice(b"00000000004\0");
    let entry = TarEntry { header, path: b"demo.txt".to_vec(), data: b"text".to_vec() };
    let bytes = build_archive(&vec![entry]);
    let seen = read_tar(&bytes);
    assert_eq!(seen.len(), 1);
    assert_eq!(seen[0].0, "demo.txt");
    assert_eq!(seen[0].1, b"text");
}

#[test]
fn backslash_paths_are_normalized() {
    let mut header = vec![0u8; 512];
    header[..14].copy_from_slice(b"dir\\inner.txt\0");
    header[124..136].copy_from_slice(b"00000000000\0");
    let bytes = build_archive(&vec![TarEntry {
        header,
        path: Vec::new(),
        data: Vec::new(),
    }]);
    let entries = parse_archive(&bytes).unwrap();
    assert_eq!(entries[0].path, b"dir/inner.txt");
}

#[test]
fn rewrite_grows_and_shrinks_entry_sizes_correctly() {
    let image = vec![7u8; 600];
    let input = checkpoint_tar(&image);
    let small = rewrite_archive(&input, "10.1.1.9", &b"x".to_vec()).unwrap();
    let seen = read_tar(&small);
    assert_eq!(seen[1].1, b"x");
    let big = rewrite_archive(&input, "10.1.1.9", &vec![5u8; 2000]).unwrap();
    let seen = read_tar(&big);
    assert_eq!(seen[1].1, vec![5u8; 2000]);
}

#[test]
fn config_keys_survive_serialization_order() {
    // serde_json orders object keys; both patched entries stay valid JSON maps
    let input = checkpoint_tar(b"OLDIMAGE");
    let out = rewrite_archive(&input, "10.1.1.9", &b"N".to_vec()).unwrap();
    let seen = read_tar(&out);
    let config: serde_json::Map<String, Value> = serde_json::from_slice(&seen[0].1).unwrap();
    assert!(config.contains_key("staticIP"));
    assert!(config.contains_key("createCommand"));
}

#[test]
fn gnu_format_headers_parse_too() {
    let mut builder = tar::Builder::new(Vec::new());
    let mut h = tar::Header::new_gnu();
    h.set_path("checkpoint/files.img").unwrap();
    h.set_size(3);
    h.set_mode(0o600);
    h.set_cksum();
    builder.append(&h, b"abc" as &[u8]).unwrap();
    let bytes = builder.into_inner().unwrap();
    let entries = parse_archive(&bytes).unwrap();
    assert_eq!(entries.len(), 1);
    assert_eq!(entries[0].path, b"checkpoint/files.img");
    assert_eq!(entries[0].data, b"abc");
}
