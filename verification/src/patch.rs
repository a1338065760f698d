//! The three content patchers.
//!
//! The image patcher walks the decoded image document, finds the socket-state
//! records ("INETSK"), and rewrites every specifically-bound IPv4 address to
//! the wildcard; the destination address is assigned later by the
//! orchestration layer, so binding to it here would fail the restore.  The
//! network-status and config-dump patchers write the new address literally.

use crate::json::{
    jval_of, lemma_jval_of_arr, lemma_jval_of_obj, lemma_obj_set_at, obj_get, obj_set, str_eq,
    JVal, Json,
};
use crate::jsonio::{json_parse, json_ser, json_ser_pretty, json_to_vec, json_to_vec_pretty, parse_json};
use crate::RewriteError;
use vstd::prelude::*;

verus! {

broadcast use lemma_jval_of_arr, lemma_jval_of_obj, crate::json::lemma_vec_deep_view;

// ---------------------------------------------------------------------------
// The image patcher's model
// ---------------------------------------------------------------------------
/// A bound address is specific when it is not the wildcard in either its
/// numeric form (`0`) or one of its textual forms.
pub open spec fn addr_specific(a: JVal) -> bool {
    match a {
        JVal::UInt(n) => n != 0,
        JVal::Str(s) => s.len() > 0 && s != "0.0.0.0"@ && s != "::"@ && s != "0"@,
        _ => false,
    }
}

/// Whether a bound-address sequence holds at least one specific address.
pub open spec fn any_specific(addrs: Seq<JVal>) -> bool {
    exists|i: int| 0 <= i < addrs.len() && addr_specific(addrs[i])
}

/// The wildcard replacement keeps the representation of the original first
/// element: numeric stays numeric, textual stays textual.
pub open spec fn wildcard_of(addrs: Seq<JVal>) -> JVal {
    if addrs.len() == 0 || addrs[0] is UInt || addrs[0] is NumStr {
        JVal::UInt(0)
    } else {
        JVal::Str("0.0.0.0"@)
    }
}

/// Whether a socket sub-record's address family is IPv4; the family may be a
/// symbolic name or the numeric code 2.
pub open spec fn family_is_inet4(isk: Seq<(Seq<char>, JVal)>) -> bool {
    match obj_get(isk, "family"@) {
        Some(JVal::Str(s)) => s == "AF_INET"@ || s == "INET"@,
        Some(JVal::UInt(n)) => n == 2,
        _ => false,
    }
}

/// Whether a record is rewritten: an "INETSK" record whose sub-record is an
/// IPv4 object with a bound-address array holding a specific address.
pub open spec fn rec_patchable(r: JVal) -> bool {
    match r {
        JVal::Obj(pairs) => {
            &&& obj_get(pairs, "type"@) == Some(JVal::Str("INETSK"@))
            &&& match obj_get(pairs, "isk"@) {
                Some(JVal::Obj(isk)) => {
                    &&& family_is_inet4(isk)
                    &&& match obj_get(isk, "src_addr"@) {
                        Some(JVal::Arr(a)) => any_specific(a),
                        _ => false,
                    }
                },
                _ => false,
            }
        },
        _ => false,
    }
}

/// One record after patching: a patchable record has its whole bound-address
/// sequence replaced by a single wildcard entry; any other record is
/// untouched.
pub open spec fn patch_record(r: JVal) -> JVal {
    if rec_patchable(r) {
        let pairs = r->Obj_0;
        let isk = obj_get(pairs, "isk"@)->Some_0->Obj_0;
        let a = obj_get(isk, "src_addr"@)->Some_0->Arr_0;
        JVal::Obj(
            obj_set(
                pairs,
                "isk"@,
                JVal::Obj(obj_set(isk, "src_addr"@, JVal::Arr(seq![wildcard_of(a)]))),
            ),
        )
    } else {
        r
    }
}

/// How many records of a record sequence are patched.
pub open spec fn count_patched(s: Seq<JVal>) -> nat
    decreases s.len(),
{
    if s.len() == 0 {
        0
    } else {
        (if rec_patchable(s[0]) {
            1nat
        } else {
            0nat
        }) + count_patched(s.drop_first())
    }
}

/// The decoded image document after patching: each record under "entries" is
/// patched; a document without an "entries" array is returned unchanged.
pub open spec fn patch_image_doc(j: JVal) -> JVal {
    match j {
        JVal::Obj(pairs) => match obj_get(pairs, "entries"@) {
            Some(JVal::Arr(es)) => JVal::Obj(
                obj_set(pairs, "entries"@, JVal::Arr(Seq::new(es.len(), |i: int| patch_record(es[i])))),
            ),
            _ => j,
        },
        _ => j,
    }
}

/// How many records the image patcher rewrites in a document.
pub open spec fn image_patch_count(j: JVal) -> nat {
    match j {
        JVal::Obj(pairs) => match obj_get(pairs, "entries"@) {
            Some(JVal::Arr(es)) => count_patched(es),
            _ => 0,
        },
        _ => 0,
    }
}

pub proof fn lemma_count_patched_le(s: Seq<JVal>)
    ensures
        count_patched(s) <= s.len(),
    decreases s.len(),
{
    if s.len() > 0 {
        lemma_count_patched_le(s.drop_first());
    }
}

proof fn lemma_count_patched_push(s: Seq<JVal>, r: JVal)
    ensures
        count_patched(s.push(r)) == count_patched(s) + (if rec_patchable(r) {
            1nat
        } else {
            0nat
        }),
    decreases s.len(),
{
    if s.len() == 0 {
        assert(s.push(r).drop_first() =~= s);
    } else {
        lemma_count_patched_push(s.drop_first(), r);
        assert(s.push(r).drop_first() =~= s.drop_first().push(r));
        assert(s.push(r)[0] == s[0]);
    }
}

/// Law: a record whose bound-address sequence holds no specific address —
/// the wildcard in numeric or in textual form — is left untouched by the
/// image patcher.
pub proof fn lemma_wildcard_record_unchanged(r: JVal)
    requires
        match r {
            JVal::Obj(pairs) => match obj_get(pairs, "isk"@) {
                Some(JVal::Obj(isk)) => match obj_get(isk, "src_addr"@) {
                    Some(JVal::Arr(a)) => !any_specific(a),
                    _ => true,
                },
                _ => true,
            },
            _ => true,
        },
    ensures
        patch_record(r) == r,
{
}

proof fn lemma_count_zero(s: Seq<JVal>)
    requires
        forall|i: int| 0 <= i < s.len() ==> !rec_patchable(#[trigger] s[i]),
    ensures
        count_patched(s) == 0,
    decreases s.len(),
{
    if s.len() > 0 {
        assert(forall|i: int|
            0 <= i < s.drop_first().len() ==> !rec_patchable(#[trigger] s.drop_first()[i]));
        lemma_count_zero(s.drop_first());
    }
}

/// Law: patching one record is idempotent: a patched record holds only the
/// wildcard and is never patched again.
pub proof fn lemma_patch_record_idempotent(r: JVal)
    ensures
        patch_record(patch_record(r)) == patch_record(r),
        rec_patchable(patch_record(r)) == false,
{
    if rec_patchable(r) {
        let pairs = r->Obj_0;
        let isk = obj_get(pairs, "isk"@)->Some_0->Obj_0;
        let a = obj_get(isk, "src_addr"@)->Some_0->Arr_0;
        let w = wildcard_of(a);
        let newisk = obj_set(isk, "src_addr"@, JVal::Arr(seq![w]));
        let newpairs = obj_set(pairs, "isk"@, JVal::Obj(newisk));
        crate::json::lemma_obj_get_set(pairs, "isk"@, JVal::Obj(newisk));
        crate::json::lemma_obj_get_set(isk, "src_addr"@, JVal::Arr(seq![w]));
        assert(!addr_specific(w));
        assert(!any_specific(seq![w])) by {
            if any_specific(seq![w]) {
                let i = choose|i: int| 0 <= i < seq![w].len() && addr_specific(seq![w][i]);
                assert(seq![w][i] == w);
            }
        }
        assert(!rec_patchable(JVal::Obj(newpairs)));
    }
}

/// Law: re-running the image patcher on an already-patched document leaves
/// it unchanged and reports zero patched records.
pub proof fn lemma_image_patch_idempotent(j: JVal)
    ensures
        patch_image_doc(patch_image_doc(j)) == patch_image_doc(j),
        image_patch_count(patch_image_doc(j)) == 0,
{
    match j {
        JVal::Obj(pairs) => {
            match obj_get(pairs, "entries"@) {
                Some(v) => {
                    match v {
                        JVal::Arr(es) => {
                            let m = Seq::new(es.len(), |i: int| patch_record(es[i]));
                            let set_pairs = obj_set(pairs, "entries"@, JVal::Arr(m));
                            crate::json::lemma_obj_get_set(pairs, "entries"@, JVal::Arr(m));
                            assert(obj_get(set_pairs, "entries"@) == Some(JVal::Arr(m)));
                            assert forall|i: int| 0 <= i < m.len() implies !rec_patchable(
                                #[trigger] m[i],
                            ) && patch_record(m[i]) == m[i] by {
                                lemma_patch_record_idempotent(es[i]);
                            }
                            lemma_count_zero(m);
                            let m2 = Seq::new(m.len(), |i: int| patch_record(m[i]));
                            assert(m2 =~= m);
                            crate::json::lemma_obj_set_set(
                                pairs,
                                "entries"@,
                                JVal::Arr(m),
                                JVal::Arr(m2),
                            );
                        },
                        _ => {},
                    }
                },
                None => {},
            }
        },
        _ => {},
    }
}

// ---------------------------------------------------------------------------
// The image patcher
// ---------------------------------------------------------------------------
/// Whether a bound-address array holds a specific (non-wildcard) address.
pub fn is_specific_addr(addrs: &Vec<Json>) -> (r: bool)
    ensures
        r == any_specific(addrs.deep_view()),
{
    let mut i: usize = 0;
    while i < addrs.len()
        invariant
            i <= addrs@.len(),
            forall|j: int| 0 <= j < i ==> !addr_specific(addrs.deep_view()[j]),
        decreases addrs@.len() - i,
    {
        let specific = match &addrs[i] {
            Json::UInt(n) => *n != 0,
            Json::Str(s) => {
                let st = s.as_str();
                !st.is_empty() && !str_eq(st, "0.0.0.0") && !str_eq(st, "::") && !str_eq(st, "0")
            },
            _ => false,
        };
        assert(specific == addr_specific(addrs.deep_view()[i as int]));
        if specific {
            return true;
        }
        i = i + 1;
    }
    false
}

/// Replaces the value of the member at `i`, keeping its key and position.
fn set_member_value(pairs: &mut Vec<(String, Json)>, i: usize, v: Json)
    requires
        i < old(pairs)@.len(),
    ensures
        final(pairs).deep_view() == old(pairs).deep_view().update(
            i as int,
            (old(pairs).deep_view()[i as int].0, v.deep_view()),
        ),
        final(pairs)@.len() == old(pairs)@.len(),
        final(pairs)@[i as int].0 == old(pairs)@[i as int].0,
        final(pairs)@[i as int].1 == v,
        forall|j: int| 0 <= j < final(pairs)@.len() && j != i ==> final(pairs)@[j] == old(pairs)@[j],
{
    let kv = pairs.remove(i);
    pairs.insert(i, (kv.0, v));
    proof {
        assert(pairs.deep_view() =~= old(pairs).deep_view().update(
            i as int,
            (old(pairs).deep_view()[i as int].0, v.deep_view()),
        ));
    }
}

/// Whether the member at `i` is exactly the string `lit`.
fn member_is_str(pairs: &Vec<(String, Json)>, i: usize, lit: &str) -> (r: bool)
    requires
        i < pairs@.len(),
    ensures
        r == (pairs.deep_view()[i as int].1 == JVal::Str(lit@)),
{
    match &pairs[i].1 {
        Json::Str(s) => str_eq(s.as_str(), lit),
        _ => false,
    }
}

/// Patches one record of the decoded image document; the flag says whether
/// the record was rewritten.
pub fn patch_one_record(rec: Json) -> (r: (Json, bool))
    ensures
        r.0.deep_view() == patch_record(rec.deep_view()),
        r.1 == rec_patchable(rec.deep_view()),
{
    let ghost m = rec.deep_view();
    let mut pairs = match rec {
        Json::Obj(pairs) => pairs,
        other => {
            return (other, false);
        },
    };
    // the record must be tagged "INETSK"
    let is_inetsk = match Json::obj_find(&pairs, "type") {
        Some(ti) => member_is_str(&pairs, ti, "INETSK"),
        None => false,
    };
    if !is_inetsk {
        return (Json::Obj(pairs), false);
    }
    // the sub-record must be an object
    let isk_idx = match Json::obj_find(&pairs, "isk") {
        Some(i) => i,
        None => {
            return (Json::Obj(pairs), false);
        },
    };
    let ghost pairs0 = pairs.deep_view();
    let kv = pairs.remove(isk_idx);
    let isk_key = kv.0;
    let mut isk = match kv.1 {
        Json::Obj(isk) => isk,
        other => {
            pairs.insert(isk_idx, (isk_key, other));
            proof {
                assert(pairs.deep_view() =~= pairs0);
            }
            return (Json::Obj(pairs), false);
        },
    };
    let ghost isk0 = isk.deep_view();
    // the family must be IPv4, by name or by code
    let family_ok = match Json::obj_find(&isk, "family") {
        Some(fi) => match &isk[fi].1 {
            Json::Str(s) => {
                let st = s.as_str();
                str_eq(st, "AF_INET") || str_eq(st, "INET")
            },
            Json::UInt(n) => *n == 2,
            _ => false,
        },
        None => false,
    };
    // the bound-address array must hold a specific address
    let addr_idx = if family_ok {
        Json::obj_find(&isk, "src_addr")
    } else {
        None
    };
    let patch_at = match addr_idx {
        Some(ai) => match &isk[ai].1 {
            Json::Arr(a) => {
                if is_specific_addr(a) {
                    Some(ai)
                } else {
                    None
                }
            },
            _ => None,
        },
        None => None,
    };
    let ai = match patch_at {
        Some(ai) => ai,
        None => {
            proof {
                assert(!rec_patchable(m));
            }
            pairs.insert(isk_idx, (isk_key, Json::Obj(isk)));
            proof {
                assert(pairs.deep_view() =~= pairs0);
            }
            return (Json::Obj(pairs), false);
        },
    };
    // rewrite the whole bound-address sequence to a single wildcard entry,
    // keeping the original element representation
    let numeric = match &isk[ai].1 {
        Json::Arr(a) => {
            if a.len() == 0 {
                true
            } else {
                match &a[0] {
                    Json::UInt(_) => true,
                    Json::NumStr(_) => true,
                    _ => false,
                }
            }
        },
        _ => false,
    };
    let wildcard: Json = if numeric {
        Json::UInt(0)
    } else {
        Json::Str(String::from_str("0.0.0.0"))
    };
    let mut warr: Vec<Json> = Vec::new();
    warr.push(wildcard);
    set_member_value(&mut isk, ai, Json::Arr(warr));
    proof {
        let a = obj_get(isk0, "src_addr"@)->Some_0->Arr_0;
        assert(jval_of(Json::Arr(warr)) == JVal::Arr(seq![wildcard_of(a)])) by {
            assert(warr.deep_view() =~= seq![wildcard_of(a)]);
        }
        lemma_obj_set_at(isk0, "src_addr"@, JVal::Arr(seq![wildcard_of(a)]), ai as int);
        assert(isk.deep_view() =~= obj_set(isk0, "src_addr"@, JVal::Arr(seq![wildcard_of(a)])));
    }
    pairs.insert(isk_idx, (isk_key, Json::Obj(isk)));
    proof {
        assert(rec_patchable(m));
        let new_isk = JVal::Obj(
            obj_set(isk0, "src_addr"@, JVal::Arr(seq![wildcard_of(obj_get(isk0, "src_addr"@)->Some_0->Arr_0)])),
        );
        lemma_obj_set_at(pairs0, "isk"@, new_isk, isk_idx as int);
        assert(pairs.deep_view() =~= obj_set(pairs0, "isk"@, new_isk));
    }
    (Json::Obj(pairs), true)
}

/// Patches the decoded image document: every specifically-bound IPv4 socket
/// record is rewritten to the wildcard.  Returns the patched document and the
/// number of records rewritten.  `_new_addr` is accepted for interface
/// symmetry with the other patchers; socket bindings are deliberately
/// rewritten to the wildcard, not to the new address.
pub fn patch_files_img_json(data: Json, _new_addr: &str) -> (r: (Json, u64))
    ensures
        r.0.deep_view() == patch_image_doc(data.deep_view()),
        r.1 == image_patch_count(data.deep_view()),
{
    let ghost m = data.deep_view();
    let mut pairs = match data {
        Json::Obj(pairs) => pairs,
        other => {
            return (other, 0);
        },
    };
    let ei = match Json::obj_find(&pairs, "entries") {
        Some(ei) => ei,
        None => {
            return (Json::Obj(pairs), 0);
        },
    };
    let ghost pairs0 = pairs.deep_view();
    let kv = pairs.remove(ei);
    let entries_key = kv.0;
    let mut es = match kv.1 {
        Json::Arr(es) => es,
        other => {
            pairs.insert(ei, (entries_key, other));
            proof {
                assert(pairs.deep_view() =~= pairs0);
            }
            return (Json::Obj(pairs), 0);
        },
    };
    let ghost es0 = es.deep_view();
    proof {
        assert(es0.len() == es.len());
    }
    let mut out: Vec<Json> = Vec::new();
    let mut count: u64 = 0;
    let ghost i: int = 0;
    while es.len() > 0
        invariant
            0 <= i <= es0.len(),
            es0.len() <= usize::MAX,
            es.deep_view() =~= es0.subrange(i, es0.len() as int),
            out.deep_view() =~= Seq::new(i as nat, |k: int| patch_record(es0[k])),
            count == count_patched(es0.subrange(0, i)),
            count <= i,
        decreases es@.len(),
    {
        let ghost es_pre_v = es@;
        let rec = es.remove(0);
        proof {
            assert(i < es0.len());
            assert(rec.deep_view() == es0.subrange(i, es0.len() as int)[0]);
            assert(rec.deep_view() == es0[i]);
            assert forall|k: int| 0 <= k < es@.len() implies es@[k].deep_view() == es0[i + 1 + k] by {
                assert(es@[k] == es_pre_v[k + 1]);
                assert(es_pre_v[k + 1].deep_view() == es0.subrange(i, es0.len() as int)[k + 1]);
            }
            assert(es.deep_view() =~= es0.subrange(i + 1, es0.len() as int));
        }
        let (nr, changed) = patch_one_record(rec);
        let ghost out_pre = out.deep_view();
        out.push(nr);
        if changed {
            count = count + 1;
        }
        proof {
            lemma_count_patched_le(es0.subrange(0, i));
            assert(es0.subrange(0, i).push(es0[i]) =~= es0.subrange(0, i + 1));
            lemma_count_patched_push(es0.subrange(0, i), es0[i]);
            assert forall|k: int| 0 <= k <= i implies out.deep_view()[k] == patch_record(es0[k]) by {
                if k < i {
                    assert(out.deep_view()[k] == out_pre[k]);
                } else {
                    assert(out@[i] == nr);
                }
            }
            assert(out.deep_view() =~= Seq::new((i + 1) as nat, |k: int| patch_record(es0[k])));
        }
        proof {
            i = i + 1;
        }
    }
    proof {
        assert(es0.subrange(0, es0.len() as int) =~= es0);
        lemma_obj_set_at(
            pairs0,
            "entries"@,
            JVal::Arr(Seq::new(es0.len(), |k: int| patch_record(es0[k]))),
            ei as int,
        );
    }
    pairs.insert(ei, (entries_key, Json::Arr(out)));
    proof {
        assert(pairs.deep_view() =~= obj_set(
            pairs0,
            "entries"@,
            JVal::Arr(Seq::new(es0.len(), |k: int| patch_record(es0[k]))),
        ));
    }
    (Json::Obj(pairs), count)
}

// ---------------------------------------------------------------------------
// The network-status patcher
// ---------------------------------------------------------------------------
/// The first position of `c` in `s` at or after `from`; `s.len()` if absent.
pub open spec fn find_char(s: Seq<char>, from: int, c: char) -> int
    decreases s.len() - from,
{
    if from < 0 || from >= s.len() {
        s.len() as int
    } else if s[from] == c {
        from
    } else {
        find_char(s, from + 1, c)
    }
}

pub proof fn lemma_find_char_bounds(s: Seq<char>, from: int, c: char)
    requires
        0 <= from <= s.len(),
    ensures
        from <= find_char(s, from, c) <= s.len(),
    decreases s.len() - from,
{
    if from < s.len() && s[from] != c {
        lemma_find_char_bounds(s, from + 1, c);
    }
}

/// The prefix length kept from an existing combined "address/prefix" string:
/// the text between the first and second slash, or the conventional "24"
/// when there is no slash.
pub open spec fn prefix_of(s: Seq<char>) -> Seq<char> {
    let i = find_char(s, 0, '/');
    if i == s.len() {
        "24"@
    } else {
        s.subrange(i + 1, find_char(s, i + 1, '/'))
    }
}

/// The prefix length kept from an address field that may not be a string.
pub open spec fn prefix_of_val(v: JVal) -> Seq<char> {
    match v {
        JVal::Str(s) => prefix_of(s),
        _ => "24"@,
    }
}

/// The rebuilt address field: the new address joined with the kept prefix.
pub open spec fn joined_address(addr: Seq<char>, old: JVal) -> JVal {
    JVal::Str(addr + "/"@ + prefix_of_val(old))
}

/// One address record after patching: its "address" field is rebuilt; a
/// record without one, or a non-object, is untouched.
pub open spec fn patch_ip(ip: JVal, addr: Seq<char>) -> JVal {
    match ip {
        JVal::Obj(pairs) => match obj_get(pairs, "address"@) {
            Some(v) => JVal::Obj(obj_set(pairs, "address"@, joined_address(addr, v))),
            None => ip,
        },
        _ => ip,
    }
}

/// One interface record after patching: every record under "ips" is patched.
pub open spec fn patch_iface(e: JVal, addr: Seq<char>) -> JVal {
    match e {
        JVal::Obj(pairs) => match obj_get(pairs, "ips"@) {
            Some(JVal::Arr(ips)) => JVal::Obj(
                obj_set(pairs, "ips"@, JVal::Arr(Seq::new(ips.len(), |i: int| patch_ip(ips[i], addr)))),
            ),
            _ => e,
        },
        _ => e,
    }
}

/// The network-status document after patching: every interface record is
/// patched; a document that is not a sequence is untouched.
pub open spec fn patch_status_doc(j: JVal, addr: Seq<char>) -> JVal {
    match j {
        JVal::Arr(es) => JVal::Arr(Seq::new(es.len(), |i: int| patch_iface(es[i], addr))),
        _ => j,
    }
}

/// The first position of `/` in `s` at or after `from`.
fn find_slash(s: &str, from: usize) -> (r: usize)
    requires
        from <= s@.len(),
    ensures
        r == find_char(s@, from as int, '/'),
        from <= r <= s@.len(),
{
    let n = s.unicode_len();
    let mut i = from;
    while i < n
        invariant
            from <= i <= n,
            n == s@.len(),
            find_char(s@, from as int, '/') == find_char(s@, i as int, '/'),
        decreases n - i,
    {
        if s.get_char(i) == '/' {
            return i;
        }
        i = i + 1;
    }
    i
}

/// Rebuilds a combined "address/prefix" field around the new address,
/// keeping the old field's prefix length.
fn rebuild_address(new_addr: &str, old: &Json) -> (r: String)
    ensures
        JVal::Str(r@) == joined_address(new_addr@, jval_of(*old)),
{
    let mut out = new_addr.to_owned();
    out.append("/");
    match old {
        Json::Str(s) => {
            let st = s.as_str();
            let n = st.unicode_len();
            let i = find_slash(st, 0);
            if i == n {
                out.append("24");
            } else {
                proof {
                    lemma_find_char_bounds(st@, i as int + 1, '/');
                }
                let j = find_slash(st, i + 1);
                let pre = st.substring_char(i + 1, j);
                out.append(pre);
            }
        },
        _ => {
            out.append("24");
        },
    }
    out
}

/// Patches one address record of the network-status document.
fn patch_one_ip(ip: Json, new_addr: &str) -> (r: Json)
    ensures
        r.deep_view() == patch_ip(ip.deep_view(), new_addr@),
{
    let ghost m = ip.deep_view();
    let mut pairs = match ip {
        Json::Obj(pairs) => pairs,
        other => {
            return other;
        },
    };
    let ai = match Json::obj_find(&pairs, "address") {
        Some(ai) => ai,
        None => {
            return Json::Obj(pairs);
        },
    };
    let ghost pairs0 = pairs.deep_view();
    let rebuilt = rebuild_address(new_addr, &pairs[ai].1);
    proof {
        lemma_obj_set_at(
            pairs0,
            "address"@,
            joined_address(new_addr@, pairs0[ai as int].1),
            ai as int,
        );
    }
    set_member_value(&mut pairs, ai, Json::Str(rebuilt));
    Json::Obj(pairs)
}

/// Patches one interface record of the network-status document.
fn patch_one_iface(e: Json, new_addr: &str) -> (r: Json)
    ensures
        r.deep_view() == patch_iface(e.deep_view(), new_addr@),
{
    let ghost m = e.deep_view();
    let mut pairs = match e {
        Json::Obj(pairs) => pairs,
        other => {
            return other;
        },
    };
    let ii = match Json::obj_find(&pairs, "ips") {
        Some(ii) => ii,
        None => {
            return Json::Obj(pairs);
        },
    };
    let ghost pairs0 = pairs.deep_view();
    let kv = pairs.remove(ii);
    let ips_key = kv.0;
    let mut ips = match kv.1 {
        Json::Arr(ips) => ips,
        other => {
            pairs.insert(ii, (ips_key, other));
            proof {
                assert(pairs.deep_view() =~= pairs0);
            }
            return Json::Obj(pairs);
        },
    };
    let ghost ips0 = ips.deep_view();
    proof {
        assert(ips0.len() == ips.len());
    }
    let mut out: Vec<Json> = Vec::new();
    let ghost i: int = 0;
    while ips.len() > 0
        invariant
            0 <= i <= ips0.len(),
            ips.deep_view() =~= ips0.subrange(i, ips0.len() as int),
            out.deep_view() =~= Seq::new(i as nat, |k: int| patch_ip(ips0[k], new_addr@)),
        decreases ips@.len(),
    {
        let ghost ips_pre_v = ips@;
        let ip = ips.remove(0);
        proof {
            assert(i < ips0.len());
            assert(ip.deep_view() == ips0.subrange(i, ips0.len() as int)[0]);
            assert forall|k: int| 0 <= k < ips@.len() implies ips@[k].deep_view() == ips0[i + 1
                + k] by {
                assert(ips@[k] == ips_pre_v[k + 1]);
                assert(ips_pre_v[k + 1].deep_view() == ips0.subrange(i, ips0.len() as int)[k + 1]);
            }
            assert(ips.deep_view() =~= ips0.subrange(i + 1, ips0.len() as int));
        }
        let np = patch_one_ip(ip, new_addr);
        let ghost out_pre = out.deep_view();
        out.push(np);
        proof {
            assert forall|k: int| 0 <= k <= i implies out.deep_view()[k] == patch_ip(
                ips0[k],
                new_addr@,
            ) by {
                if k < i {
                    assert(out.deep_view()[k] == out_pre[k]);
                } else {
                    assert(out@[i] == np);
                }
            }
            assert(out.deep_view() =~= Seq::new(
                (i + 1) as nat,
                |k: int| patch_ip(ips0[k], new_addr@),
            ));
        }
        proof {
            i = i + 1;
        }
    }
    proof {
        lemma_obj_set_at(
            pairs0,
            "ips"@,
            JVal::Arr(Seq::new(ips0.len(), |k: int| patch_ip(ips0[k], new_addr@))),
            ii as int,
        );
    }
    pairs.insert(ii, (ips_key, Json::Arr(out)));
    proof {
        assert(pairs.deep_view() =~= obj_set(
            pairs0,
            "ips"@,
            JVal::Arr(Seq::new(ips0.len(), |k: int| patch_ip(ips0[k], new_addr@))),
        ));
    }
    Json::Obj(pairs)
}

/// Patches the network-status document: every interface's every address
/// record is rebuilt around `new_addr`, keeping each record's prefix length.
pub fn patch_network_status_doc(data: Json, new_addr: &str) -> (r: Json)
    ensures
        r.deep_view() == patch_status_doc(data.deep_view(), new_addr@),
{
    let ghost m = data.deep_view();
    let mut es = match data {
        Json::Arr(es) => es,
        other => {
            return other;
        },
    };
    let ghost es0 = es.deep_view();
    proof {
        assert(es0.len() == es.len());
    }
    let mut out: Vec<Json> = Vec::new();
    let ghost i: int = 0;
    while es.len() > 0
        invariant
            0 <= i <= es0.len(),
            es.deep_view() =~= es0.subrange(i, es0.len() as int),
            out.deep_view() =~= Seq::new(i as nat, |k: int| patch_iface(es0[k], new_addr@)),
        decreases es@.len(),
    {
        let ghost es_pre_v = es@;
        let e = es.remove(0);
        proof {
            assert(i < es0.len());
            assert(e.deep_view() == es0.subrange(i, es0.len() as int)[0]);
            assert forall|k: int| 0 <= k < es@.len() implies es@[k].deep_view() == es0[i + 1
                + k] by {
                assert(es@[k] == es_pre_v[k + 1]);
                assert(es_pre_v[k + 1].deep_view() == es0.subrange(i, es0.len() as int)[k + 1]);
            }
            assert(es.deep_view() =~= es0.subrange(i + 1, es0.len() as int));
        }
        let ne = patch_one_iface(e, new_addr);
        let ghost out_pre = out.deep_view();
        out.push(ne);
        proof {
            assert forall|k: int| 0 <= k <= i implies out.deep_view()[k] == patch_iface(
                es0[k],
                new_addr@,
            ) by {
                if k < i {
                    assert(out.deep_view()[k] == out_pre[k]);
                } else {
                    assert(out@[i] == ne);
                }
            }
            assert(out.deep_view() =~= Seq::new(
                (i + 1) as nat,
                |k: int| patch_iface(es0[k], new_addr@),
            ));
        }
        proof {
            i = i + 1;
        }
    }
    Json::Arr(out)
}

// ---------------------------------------------------------------------------
// The config-dump patcher
// ---------------------------------------------------------------------------
/// The captured command line after scanning from position `i`: wherever an
/// element equals the flag "--ip" and a following element exists, that
/// following element is overwritten with the new address, and the scan
/// continues after it was overwritten, as an in-place pass does.
pub open spec fn patch_cmd(s: Seq<JVal>, i: int, addr: Seq<char>) -> Seq<JVal>
    decreases s.len() - i,
{
    if i < 0 || i >= s.len() {
        s
    } else if s[i] == JVal::Str("--ip"@) && i + 1 < s.len() {
        patch_cmd(s.update(i + 1, JVal::Str(addr)), i + 1, addr)
    } else {
        patch_cmd(s, i + 1, addr)
    }
}

/// The config-dump document after patching: a present top-level "staticIP"
/// member is overwritten with the new address, and a present
/// "createCommand" sequence has the value after each "--ip" flag
/// overwritten; both rules are independent.
pub open spec fn patch_config_doc(j: JVal, addr: Seq<char>) -> JVal {
    match j {
        JVal::Obj(pairs) => {
            let with_static = if obj_get(pairs, "staticIP"@) is Some {
                obj_set(pairs, "staticIP"@, JVal::Str(addr))
            } else {
                pairs
            };
            match obj_get(with_static, "createCommand"@) {
                Some(JVal::Arr(cmd)) => JVal::Obj(
                    obj_set(with_static, "createCommand"@, JVal::Arr(patch_cmd(cmd, 0, addr))),
                ),
                _ => JVal::Obj(with_static),
            }
        },
        _ => j,
    }
}

/// Replaces the element at `i`, keeping its position.
fn set_elem_at(v: &mut Vec<Json>, i: usize, x: Json)
    requires
        i < old(v)@.len(),
    ensures
        final(v).deep_view() == old(v).deep_view().update(i as int, x.deep_view()),
        final(v)@.len() == old(v)@.len(),
{
    let removed = v.remove(i);
    v.insert(i, x);
    proof {
        assert(v.deep_view() =~= old(v).deep_view().update(i as int, x.deep_view()));
    }
}

/// Patches the config-dump document.
pub fn patch_config_dump_doc(data: Json, new_addr: &str) -> (r: Json)
    ensures
        r.deep_view() == patch_config_doc(data.deep_view(), new_addr@),
{
    let ghost m = data.deep_view();
    let mut pairs = match data {
        Json::Obj(pairs) => pairs,
        other => {
            return other;
        },
    };
    if let Some(si) = Json::obj_find(&pairs, "staticIP") {
        proof {
            lemma_obj_set_at(pairs.deep_view(), "staticIP"@, JVal::Str(new_addr@), si as int);
        }
        set_member_value(&mut pairs, si, Json::Str(new_addr.to_owned()));
    }
    let ghost with_static = pairs.deep_view();
    let ci = match Json::obj_find(&pairs, "createCommand") {
        Some(ci) => ci,
        None => {
            return Json::Obj(pairs);
        },
    };
    let kv = pairs.remove(ci);
    let cmd_key = kv.0;
    let mut cmd = match kv.1 {
        Json::Arr(cmd) => cmd,
        other => {
            pairs.insert(ci, (cmd_key, other));
            proof {
                assert(pairs.deep_view() =~= with_static);
            }
            return Json::Obj(pairs);
        },
    };
    let ghost cmd0 = cmd.deep_view();
    let mut i: usize = 0;
    while i < cmd.len()
        invariant
            i <= cmd@.len(),
            cmd.deep_view().len() == cmd@.len(),
            cmd0.len() == cmd@.len(),
            patch_cmd(cmd0, 0, new_addr@) == patch_cmd(cmd.deep_view(), i as int, new_addr@),
        decreases cmd@.len() - i,
    {
        let is_flag = match &cmd[i] {
            Json::Str(s) => str_eq(s.as_str(), "--ip"),
            _ => false,
        };
        proof {
            assert(cmd.deep_view()[i as int] == cmd@[i as int].deep_view());
            assert(is_flag == (cmd.deep_view()[i as int] == JVal::Str("--ip"@)));
        }
        if is_flag && i + 1 < cmd.len() {
            let ghost pre = cmd.deep_view();
            set_elem_at(&mut cmd, i + 1, Json::Str(new_addr.to_owned()));
            proof {
                assert(cmd.deep_view() == pre.update(i + 1, JVal::Str(new_addr@)));
            }
        }
        i = i + 1;
    }
    proof {
        lemma_obj_set_at(
            with_static,
            "createCommand"@,
            JVal::Arr(patch_cmd(cmd0, 0, new_addr@)),
            ci as int,
        );
    }
    pairs.insert(ci, (cmd_key, Json::Arr(cmd)));
    proof {
        assert(pairs.deep_view() =~= obj_set(
            with_static,
            "createCommand"@,
            JVal::Arr(patch_cmd(cmd0, 0, new_addr@)),
        ));
    }
    Json::Obj(pairs)
}

// ---------------------------------------------------------------------------
// Byte-level patchers
// ---------------------------------------------------------------------------
/// Patches the network-status entry's bytes: parse, rewrite every address
/// record around `new_addr`, and pretty-print the result.  Fails exactly
/// when the bytes are not parseable as JSON.
pub fn patch_network_status(content: &[u8], new_addr: &str) -> (r: Result<
    Vec<u8>,
    RewriteError,
>)
    ensures
        match json_parse(content@) {
            None => r matches Err(e) && e == RewriteError::ParseNetworkStatus,
            Some(j) => r matches Ok(v) && v@ == json_ser_pretty(patch_status_doc(j, new_addr@)),
        },
{
    let doc = match parse_json(content) {
        Some(doc) => doc,
        None => {
            return Err(RewriteError::ParseNetworkStatus);
        },
    };
    let patched = patch_network_status_doc(doc, new_addr);
    Ok(json_to_vec_pretty(&patched))
}

/// Patches the config-dump entry's bytes: parse, overwrite the
/// static-address field and the value after each "--ip" flag, and serialize
/// the result compactly.  Fails exactly when the bytes are not parseable as
/// JSON.
pub fn patch_config_dump(content: &[u8], new_addr: &str) -> (r: Result<Vec<u8>, RewriteError>)
    ensures
        match json_parse(content@) {
            None => r matches Err(e) && e == RewriteError::ParseConfigDump,
            Some(j) => r matches Ok(v) && v@ == json_ser(patch_config_doc(j, new_addr@)),
        },
{
    let doc = match parse_json(content) {
        Some(doc) => doc,
        None => {
            return Err(RewriteError::ParseConfigDump);
        },
    };
    let patched = patch_config_dump_doc(doc, new_addr);
    Ok(json_to_vec(&patched))
}

/// Patches the decoded image document's bytes: parse, rewrite the socket
/// records, and serialize compactly.  Returns the new bytes and the number
/// of records rewritten.  Fails exactly when the bytes are not parseable as
/// JSON.
pub fn patch_files_img(decoded: &[u8], new_addr: &str) -> (r: Result<
    (Vec<u8>, u64),
    RewriteError,
>)
    ensures
        match json_parse(decoded@) {
            None => r matches Err(e) && e == RewriteError::ParseImage,
            Some(j) => r matches Ok(p) && p.0@ == json_ser(patch_image_doc(j)) && p.1
                == image_patch_count(j),
        },
{
    let doc = match parse_json(decoded) {
        Some(doc) => doc,
        None => {
            return Err(RewriteError::ParseImage);
        },
    };
    let (patched, count) = patch_files_img_json(doc, new_addr);
    Ok((json_to_vec(&patched), count))
}

} // verus!
