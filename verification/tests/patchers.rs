use edit_checkpoint::patch::{
    is_specific_addr, patch_config_dump, patch_files_img, patch_files_img_json,
    patch_network_status,
};
use edit_checkpoint::json::Json;
use edit_checkpoint::RewriteError;
use serde_json::{Number, Value};

fn vobj(pairs: Vec<(&str, Value)>) -> Value {
    let mut m = serde_json::Map::new();
    for (k, v) in pairs {
        m.insert(k.to_string(), v);
    }
    Value::Object(m)
}

fn vnum(n: u64) -> Value {
    Value::Number(Number::from(n))
}

fn vstr(s: &str) -> Value {
    Value::String(s.to_string())
}

fn inet_record(family: Value, src_addr: Vec<Value>) -> Value {
    vobj(vec![
        ("type", vstr("INETSK")),
        ("isk", vobj(vec![("family", family), ("src_addr", Value::Array(src_addr))])),
    ])
}

fn image_doc(records: Vec<Value>) -> Value {
    vobj(vec![("entries", Value::Array(records))])
}

fn run_image(doc: &Value, new_addr: &str) -> (Vec<u8>, u64) {
    let input = serde_json::to_vec(doc).unwrap();
    patch_files_img(&input, new_addr).unwrap()
}

#[test]
fn image_numeric_binding_becomes_numeric_wildcard() {
    let doc = image_doc(vec![inet_record(vstr("AF_INET"), vec![vnum(167880718)])]);
    let (out, count) = run_image(&doc, "10.1.1.9");
    let expected = image_doc(vec![inet_record(vstr("AF_INET"), vec![vnum(0)])]);
    assert_eq!(out, serde_json::to_vec(&expected).unwrap());
    assert_eq!(count, 1);
}

#[test]
fn image_textual_binding_becomes_textual_wildcard() {
    // the new address never appears in the socket record: the policy is the wildcard
    let doc = image_doc(vec![inet_record(vstr("AF_INET"), vec![vstr("10.0.0.5")])]);
    let (out, count) = run_image(&doc, "10.1.1.9");
    let expected = image_doc(vec![inet_record(vstr("AF_INET"), vec![vstr("0.0.0.0")])]);
    assert_eq!(out, serde_json::to_vec(&expected).unwrap());
    assert_eq!(count, 1);
}

#[test]
fn image_wildcard_bindings_are_left_alone() {
    for addr in [vstr("0.0.0.0"), vstr("::"), vstr("0"), vnum(0)] {
        let doc = image_doc(vec![inet_record(vstr("AF_INET"), vec![addr])]);
        let (out, count) = run_image(&doc, "10.1.1.9");
        assert_eq!(out, serde_json::to_vec(&doc).unwrap());
        assert_eq!(count, 0);
    }
}

#[test]
fn image_patcher_is_idempotent() {
    let doc = image_doc(vec![
        inet_record(vstr("AF_INET"), vec![vnum(167880718)]),
        inet_record(vstr("AF_INET"), vec![vstr("10.0.0.5")]),
    ]);
    let (once, count1) = run_image(&doc, "10.1.1.9");
    let (twice, count2) = patch_files_img(&once, "10.1.1.9").unwrap();
    assert_eq!(count1, 2);
    assert_eq!(count2, 0);
    assert_eq!(once, twice);
}

#[test]
fn image_family_forms_are_recognized() {
    // "INET" and the numeric code 2 are IPv4; 10 is not
    let doc = image_doc(vec![
        inet_record(vstr("INET"), vec![vnum(7)]),
        inet_record(vnum(2), vec![vnum(7)]),
        inet_record(vnum(10), vec![vnum(7)]),
    ]);
    let (_, count) = run_image(&doc, "10.1.1.9");
    assert_eq!(count, 2);
}

#[test]
fn image_ignores_other_record_types_and_shapes() {
    let doc = image_doc(vec![
        vobj(vec![("type", vstr("REGFILE"))]),
        vobj(vec![("type", vstr("INETSK"))]),
        vobj(vec![("type", vstr("INETSK")), ("isk", vstr("odd"))]),
    ]);
    let (out, count) = run_image(&doc, "10.1.1.9");
    assert_eq!(out, serde_json::to_vec(&doc).unwrap());
    assert_eq!(count, 0);
}

#[test]
fn image_doc_without_entries_is_unchanged() {
    let doc = vobj(vec![("other", vnum(1))]);
    let (out, count) = run_image(&doc, "10.1.1.9");
    assert_eq!(out, serde_json::to_vec(&doc).unwrap());
    assert_eq!(count, 0);
}

#[test]
fn image_invalid_json_is_a_parse_error() {
    assert_eq!(patch_files_img(b"{ nope", "10.1.1.9").unwrap_err(), RewriteError::ParseImage);
}

#[test]
fn image_doc_level_counts_without_using_new_addr() {
    let rec = Json::Obj(vec![
        ("type".to_string(), Json::Str("INETSK".to_string())),
        (
            "isk".to_string(),
            Json::Obj(vec![
                ("family".to_string(), Json::Str("AF_INET".to_string())),
                ("src_addr".to_string(), Json::Arr(vec![Json::UInt(42)])),
            ]),
        ),
    ]);
    let doc = Json::Obj(vec![("entries".to_string(), Json::Arr(vec![rec]))]);
    let (_, count) = patch_files_img_json(doc, "ignored");
    assert_eq!(count, 1);
}

#[test]
fn specific_address_detection() {
    assert!(is_specific_addr(&vec![Json::UInt(1)]));
    assert!(is_specific_addr(&vec![Json::Str("10.0.0.5".to_string())]));
    assert!(!is_specific_addr(&vec![Json::UInt(0)]));
    assert!(!is_specific_addr(&vec![Json::Str("0.0.0.0".to_string())]));
    assert!(!is_specific_addr(&vec![Json::Str("::".to_string())]));
    assert!(!is_specific_addr(&vec![Json::Str("0".to_string())]));
    assert!(!is_specific_addr(&vec![Json::Str(String::new())]));
    assert!(!is_specific_addr(&vec![Json::Null, Json::Bool(true)]));
    assert!(is_specific_addr(&vec![Json::UInt(0), Json::UInt(3)]));
    assert!(!is_specific_addr(&vec![]));
}

#[test]
fn network_status_replaces_address_and_keeps_prefix() {
    let doc = Value::Array(vec![vobj(vec![(
        "ips",
        Value::Array(vec![vobj(vec![("address", vstr("192.168.12.2/24"))])]),
    )])]);
    let input = serde_json::to_vec(&doc).unwrap();
    let out = patch_network_status(&input, "10.1.1.9").unwrap();
    let expected = Value::Array(vec![vobj(vec![(
        "ips",
        Value::Array(vec![vobj(vec![("address", vstr("10.1.1.9/24"))])]),
    )])]);
    assert_eq!(out, serde_json::to_vec_pretty(&expected).unwrap());
}

#[test]
fn network_status_defaults_missing_prefix_to_24() {
    let doc = Value::Array(vec![vobj(vec![(
        "ips",
        Value::Array(vec![vobj(vec![("address", vstr("192.168.12.2"))])]),
    )])]);
    let input = serde_json::to_vec(&doc).unwrap();
    let out = patch_network_status(&input, "10.1.1.9").unwrap();
    let expected = Value::Array(vec![vobj(vec![(
        "ips",
        Value::Array(vec![vobj(vec![("address", vstr("10.1.1.9/24"))])]),
    )])]);
    assert_eq!(out, serde_json::to_vec_pretty(&expected).unwrap());
}

#[test]
fn network_status_keeps_other_fields_and_interfaces() {
    let doc = Value::Array(vec![
        vobj(vec![
            ("name", vstr("eth0")),
            (
                "ips",
                Value::Array(vec![vobj(vec![
                    ("address", vstr("192.168.12.2/16")),
                    ("gateway", vstr("192.168.12.1")),
                ])]),
            ),
        ]),
        vobj(vec![("name", vstr("lo"))]),
    ]);
    let input = serde_json::to_vec(&doc).unwrap();
    let out = patch_network_status(&input, "10.1.1.9").unwrap();
    let expected = Value::Array(vec![
        vobj(vec![
            ("name", vstr("eth0")),
            (
                "ips",
                Value::Array(vec![vobj(vec![
                    ("address", vstr("10.1.1.9/16")),
                    ("gateway", vstr("192.168.12.1")),
                ])]),
            ),
        ]),
        vobj(vec![("name", vstr("lo"))]),
    ]);
    assert_eq!(out, serde_json::to_vec_pretty(&expected).unwrap());
}

#[test]
fn network_status_empty_document_is_a_noop() {
    let out = patch_network_status(b"[]", "10.1.1.9").unwrap();
    assert_eq!(out, serde_json::to_vec_pretty(&Value::Array(vec![])).unwrap());
}

#[test]
fn network_status_invalid_json_is_a_parse_error() {
    assert_eq!(
        patch_network_status(b"]]", "10.1.1.9").unwrap_err(),
        RewriteError::ParseNetworkStatus
    );
}

#[test]
fn config_dump_replaces_static_ip_and_flag_value() {
    let doc = vobj(vec![
        ("staticIP", vstr("192.168.12.2")),
        (
            "createCommand",
            Value::Array(vec![
                vstr("podman"),
                vstr("run"),
                vstr("--ip"),
                vstr("192.168.12.2"),
                vstr("img"),
            ]),
        ),
    ]);
    let input = serde_json::to_vec(&doc).unwrap();
    let out = patch_config_dump(&input, "10.1.1.9").unwrap();
    let expected = vobj(vec![
        ("staticIP", vstr("10.1.1.9")),
        (
            "createCommand",
            Value::Array(vec![
                vstr("podman"),
                vstr("run"),
                vstr("--ip"),
                vstr("10.1.1.9"),
                vstr("img"),
            ]),
        ),
    ]);
    assert_eq!(out, serde_json::to_vec(&expected).unwrap());
}

#[test]
fn config_dump_rules_fire_independently() {
    let only_static = vobj(vec![("staticIP", vstr("192.168.12.2"))]);
    let out = patch_config_dump(&serde_json::to_vec(&only_static).unwrap(), "10.1.1.9").unwrap();
    assert_eq!(
        out,
        serde_json::to_vec(&vobj(vec![("staticIP", vstr("10.1.1.9"))])).unwrap()
    );

    let neither = vobj(vec![("name", vstr("box"))]);
    let out = patch_config_dump(&serde_json::to_vec(&neither).unwrap(), "10.1.1.9").unwrap();
    assert_eq!(out, serde_json::to_vec(&neither).unwrap());
}

#[test]
fn config_dump_flag_at_end_has_no_value_to_replace() {
    let doc = vobj(vec![("createCommand", Value::Array(vec![vstr("run"), vstr("--ip")]))]);
    let out = patch_config_dump(&serde_json::to_vec(&doc).unwrap(), "10.1.1.9").unwrap();
    assert_eq!(out, serde_json::to_vec(&doc).unwrap());
}

#[test]
fn config_dump_invalid_json_is_a_parse_error() {
    assert_eq!(
        patch_config_dump(b"{", "10.1.1.9").unwrap_err(),
        RewriteError::ParseConfigDump
    );
}

#[test]
fn error_messages_name_their_condition() {
    assert_eq!(
        RewriteError::ImageMissing.message(),
        "checkpoint/files.img not found in archive"
    );
    assert_eq!(RewriteError::BadArchive.message(), "invalid or truncated tar archive");
}

#[test]
fn config_dump_consecutive_flags_scan_sequentially() {
    // the value written over a flag's successor is not itself re-examined
    let doc = vobj(vec![(
        "createCommand",
        Value::Array(vec![vstr("--ip"), vstr("--ip"), vstr("x")]),
    )]);
    let out = patch_config_dump(&serde_json::to_vec(&doc).unwrap(), "10.1.1.9").unwrap();
    let expected = vobj(vec![(
        "createCommand",
        Value::Array(vec![vstr("--ip"), vstr("10.1.1.9"), vstr("x")]),
    )]);
    assert_eq!(out, serde_json::to_vec(&expected).unwrap());
}
