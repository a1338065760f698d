//! The archive rewriter: one pass over the entries, patching the three
//! designated paths and reproducing everything else unchanged.

use crate::jsonio::{json_parse, json_ser, json_ser_pretty};
use crate::patch::{patch_config_doc, patch_config_dump, patch_network_status, patch_status_doc};
use crate::tarfmt::{
    build_archive, encode_archive, entries_from, entry_wf, parse_archive, size_field,
    size_field_bytes, size_limit, with_size, TarEntry, TarEntryV,
};
use crate::RewriteError;
use vstd::prelude::*;
use vstd::slice::{slice_index_get, slice_to_vec};
use vstd::string::StringSliceAdditionalSpecFns;

verus! {

broadcast use crate::json::lemma_vec_deep_view;

/// The path of the checkpoint image entry.
pub open spec fn files_img_path() -> Seq<u8> {
    "checkpoint/files.img".spec_bytes()
}

/// The path of the network-status entry.
pub open spec fn network_status_path() -> Seq<u8> {
    "network.status".spec_bytes()
}

/// The path of the config-dump entry.
pub open spec fn config_dump_path() -> Seq<u8> {
    "config.dump".spec_bytes()
}

/// Whether two byte strings are equal.
pub fn bytes_eq(a: &[u8], b: &[u8]) -> (r: bool)
    ensures
        r == (a@ == b@),
{
    if a.len() != b.len() {
        return false;
    }
    let mut i: usize = 0;
    while i < a.len()
        invariant
            0 <= i <= a@.len(),
            a@.len() == b@.len(),
            forall|j: int| 0 <= j < i ==> a@[j] == b@[j],
        decreases a@.len() - i,
    {
        if *slice_index_get(a, i) != *slice_index_get(b, i) {
            return false;
        }
        i = i + 1;
    }
    proof {
        assert(a@ =~= b@);
    }
    true
}

/// Whether a payload of `n` bytes still fits an eleven-digit size field.
fn fits_size_field(n: usize) -> (r: bool)
    ensures
        r == (n < size_limit()),
{
    proof {
        assert(crate::tarfmt::pow8(11) == 0x200000000) by {
            reveal_with_fuel(crate::tarfmt::pow8, 12);
        }
    }
    (n as u64) < 0x200000000u64
}

/// An entry with its payload replaced and its size field rewritten; all
/// other header bytes are kept.
pub open spec fn with_new_data(e: TarEntryV, d: Seq<u8>) -> TarEntryV {
    TarEntryV { header: with_size(e.header, d.len()), path: e.path, data: d }
}

/// What one entry becomes: the image entry takes the externally re-encoded
/// image, the network-status and config-dump entries are patched as JSON,
/// and every other entry is untouched.
pub open spec fn rewrite_entry(e: TarEntryV, addr: Seq<char>, img: Seq<u8>) -> Result<
    TarEntryV,
    RewriteError,
> {
    if e.path == files_img_path() {
        if img.len() < size_limit() {
            Ok(with_new_data(e, img))
        } else {
            Err(RewriteError::OversizeEntry)
        }
    } else if e.path == network_status_path() {
        match json_parse(e.data) {
            None => Err(RewriteError::ParseNetworkStatus),
            Some(j) => {
                let d = json_ser_pretty(patch_status_doc(j, addr));
                if d.len() < size_limit() {
                    Ok(with_new_data(e, d))
                } else {
                    Err(RewriteError::OversizeEntry)
                }
            },
        }
    } else if e.path == config_dump_path() {
        match json_parse(e.data) {
            None => Err(RewriteError::ParseConfigDump),
            Some(j) => {
                let d = json_ser(patch_config_doc(j, addr));
                if d.len() < size_limit() {
                    Ok(with_new_data(e, d))
                } else {
                    Err(RewriteError::OversizeEntry)
                }
            },
        }
    } else {
        Ok(e)
    }
}

/// What the whole entry sequence becomes; the first failure wins.
pub open spec fn rewrite_all(es: Seq<TarEntryV>, addr: Seq<char>, img: Seq<u8>) -> Result<
    Seq<TarEntryV>,
    RewriteError,
>
    decreases es.len(),
{
    if es.len() == 0 {
        Ok(Seq::empty())
    } else {
        match rewrite_entry(es[0], addr, img) {
            Err(e) => Err(e),
            Ok(e0) => match rewrite_all(es.drop_first(), addr, img) {
                Err(e) => Err(e),
                Ok(rest) => Ok(seq![e0] + rest),
            },
        }
    }
}

/// Whether the image entry occurs among the entries.
pub open spec fn has_image(es: Seq<TarEntryV>) -> bool {
    exists|i: int| 0 <= i < es.len() && (#[trigger] es[i]).path == files_img_path()
}

/// What a whole rewrite yields: the patched entries re-encoded, or the
/// first error; an archive without the image entry is refused after the
/// full pass.
pub open spec fn spec_rewrite(s: Seq<u8>, addr: Seq<char>, img: Seq<u8>) -> Result<
    Seq<u8>,
    RewriteError,
> {
    match entries_from(s, 0) {
        None => Err(RewriteError::BadArchive),
        Some(es) => match rewrite_all(es, addr, img) {
            Err(e) => Err(e),
            Ok(out) => if has_image(es) {
                Ok(encode_archive(out))
            } else {
                Err(RewriteError::ImageMissing)
            },
        },
    }
}

/// Replaces an entry's payload, rewriting the header's size field.
fn replace_entry_data(e: TarEntry, d: Vec<u8>) -> (r: TarEntry)
    requires
        entry_wf(e.deep_view()),
        d@.len() < size_limit(),
    ensures
        r.deep_view() == with_new_data(e.deep_view(), d@),
        entry_wf(r.deep_view()),
{
    let ghost ev = e.deep_view();
    let mut header = e.header;
    crate::tarfmt::set_size(&mut header, d.len());
    proof {
        crate::tarfmt::lemma_size_field_roundtrip(d@.len());
        crate::tarfmt::lemma_entry_path_with_size(ev.header, d@.len());
        crate::tarfmt::lemma_octal_digits_len(d@.len(), 11);
        assert(size_field(with_size(ev.header, d@.len())) =~= size_field_bytes(d@.len()));
    }
    TarEntry { header, path: e.path, data: d }
}

/// Rewrites one entry, exactly as the model says.
fn rewrite_one_entry(e: TarEntry, new_addr: &str, new_image: &Vec<u8>) -> (r: Result<
    TarEntry,
    RewriteError,
>)
    requires
        entry_wf(e.deep_view()),
    ensures
        match rewrite_entry(e.deep_view(), new_addr@, new_image@) {
            Ok(se) => r matches Ok(x) && x.deep_view() == se && entry_wf(x.deep_view()),
            Err(se) => r matches Err(er) && er == se,
        },
{
    let ghost ev = e.deep_view();
    if bytes_eq(e.path.as_slice(), "checkpoint/files.img".as_bytes()) {
        if !fits_size_field(new_image.len()) {
            return Err(RewriteError::OversizeEntry);
        }
        let d = slice_to_vec(new_image.as_slice());
        Ok(replace_entry_data(e, d))
    } else if bytes_eq(e.path.as_slice(), "network.status".as_bytes()) {
        match patch_network_status(e.data.as_slice(), new_addr) {
            Err(er) => Err(er),
            Ok(d) => {
                if !fits_size_field(d.len()) {
                    return Err(RewriteError::OversizeEntry);
                }
                Ok(replace_entry_data(e, d))
            },
        }
    } else if bytes_eq(e.path.as_slice(), "config.dump".as_bytes()) {
        match patch_config_dump(e.data.as_slice(), new_addr) {
            Err(er) => Err(er),
            Ok(d) => {
                if !fits_size_field(d.len()) {
                    return Err(RewriteError::OversizeEntry);
                }
                Ok(replace_entry_data(e, d))
            },
        }
    } else {
        Ok(e)
    }
}

proof fn lemma_has_image_push(es: Seq<TarEntryV>, i: int)
    requires
        0 <= i < es.len(),
    ensures
        has_image(es.subrange(0, i + 1)) == (has_image(es.subrange(0, i)) || es[i].path
            == files_img_path()),
{
    let a = es.subrange(0, i);
    let b = es.subrange(0, i + 1);
    if has_image(b) {
        let w = choose|w: int| 0 <= w < b.len() && (#[trigger] b[w]).path == files_img_path();
        if w < i {
            assert(a[w] == b[w]);
            assert(has_image(a));
        } else {
            assert(b[w] == es[i]);
        }
    }
    if has_image(a) {
        let w = choose|w: int| 0 <= w < a.len() && (#[trigger] a[w]).path == files_img_path();
        assert(b[w] == a[w]);
        assert(has_image(b));
    }
    if es[i].path == files_img_path() {
        assert(b[i] == es[i]);
        assert(has_image(b));
    }
}

pub open spec fn join_rewritten(a: Seq<TarEntryV>, r: Result<Seq<TarEntryV>, RewriteError>) -> Result<
    Seq<TarEntryV>,
    RewriteError,
> {
    match r {
        Err(e) => Err(e),
        Ok(t) => Ok(a + t),
    }
}

/// Rewrites a whole archive held in memory: the image entry's payload is
/// replaced by `new_image`, the network-status and config-dump entries are
/// patched around `new_addr`, every other entry is reproduced unchanged
/// (with its header checksum recomputed), and the entries are re-encoded in
/// their original order.  Fails without producing output on an unreadable
/// archive, on a patch failure, and when the image entry is absent; a
/// patched payload of eight gibibytes or more is refused as oversize, the
/// limit of the eleven-digit octal size field the library writes.
pub fn rewrite_archive(input: &[u8], new_addr: &str, new_image: &Vec<u8>) -> (r: Result<
    Vec<u8>,
    RewriteError,
>)
    ensures
        match spec_rewrite(input@, new_addr@, new_image@) {
            Ok(o) => r matches Ok(v) && v@ == o,
            Err(se) => r matches Err(e2) && e2 == se,
        },
{
    let mut entries = match parse_archive(input) {
        Ok(es) => es,
        Err(e) => {
            return Err(e);
        },
    };
    let ghost es0 = entries.deep_view();
    proof {
        assert(es0.len() == entries.len());
    }
    let mut out_entries: Vec<TarEntry> = Vec::new();
    let mut found = false;
    let ghost i: int = 0;
    while entries.len() > 0
        invariant
            0 <= i <= es0.len(),
            entries_from(input@, 0) == Some(es0),
            entries.deep_view() =~= es0.subrange(i, es0.len() as int),
            forall|k: int|
                0 <= k < entries.deep_view().len() ==> entry_wf(
                    #[trigger] entries.deep_view()[k],
                ),
            forall|k: int|
                0 <= k < out_entries.deep_view().len() ==> entry_wf(
                    #[trigger] out_entries.deep_view()[k],
                ),
            rewrite_all(es0, new_addr@, new_image@) == join_rewritten(
                out_entries.deep_view(),
                rewrite_all(entries.deep_view(), new_addr@, new_image@),
            ),
            found == has_image(es0.subrange(0, i)),
        decreases entries@.len(),
    {
        let ghost pre_v = entries@;
        let ghost rem_pre = entries.deep_view();
        let e = entries.remove(0);
        proof {
            assert(i < es0.len());
            assert(e.deep_view() == rem_pre[0]);
            assert(e.deep_view() == es0[i]);
            assert forall|k: int| 0 <= k < entries@.len() implies entries@[k].deep_view()
                == es0[i + 1 + k] by {
                assert(entries@[k] == pre_v[k + 1]);
                assert(pre_v[k + 1].deep_view() == rem_pre[k + 1]);
            }
            assert(entries.deep_view() =~= es0.subrange(i + 1, es0.len() as int));
        }
        let is_img = bytes_eq(e.path.as_slice(), "checkpoint/files.img".as_bytes());
        proof {
            lemma_has_image_push(es0, i);
        }
        found = found || is_img;
        let ne = match rewrite_one_entry(e, new_addr, new_image) {
            Ok(ne) => ne,
            Err(er) => {
                proof {
                    assert(rem_pre.drop_first() =~= es0.subrange(i + 1, es0.len() as int));
                    assert(rem_pre.len() > 0);
                    assert(rem_pre[0] == es0[i]);
                    match rewrite_entry(es0[i], new_addr@, new_image@) {
                        Err(se) => {
                            assert(rewrite_all(rem_pre, new_addr@, new_image@)
                                == Err::<Seq<TarEntryV>, RewriteError>(se));
                            assert(rewrite_all(es0, new_addr@, new_image@)
                                == Err::<Seq<TarEntryV>, RewriteError>(se));
                        },
                        Ok(_) => {
                            assert(false);
                        },
                    }
                }
                return Err(er);
            },
        };
        let ghost out_pre = out_entries.deep_view();
        out_entries.push(ne);
        proof {
            assert(out_entries.deep_view() =~= out_pre.push(ne.deep_view()));
            assert(rem_pre.drop_first() =~= es0.subrange(i + 1, es0.len() as int));
            let rest = rewrite_all(es0.subrange(i + 1, es0.len() as int), new_addr@, new_image@);
            match rest {
                Err(_) => {},
                Ok(t) => {
                    assert(out_pre + (seq![ne.deep_view()] + t) =~= out_pre.push(ne.deep_view())
                        + t);
                },
            }
            assert forall|k: int| 0 <= k < out_entries.deep_view().len() implies entry_wf(
                #[trigger] out_entries.deep_view()[k],
            ) by {
                if k < out_pre.len() {
                    assert(out_entries.deep_view()[k] == out_pre[k]);
                }
            }
        }
        proof {
            i = i + 1;
        }
    }
    proof {
        assert(es0.subrange(0, es0.len() as int) =~= es0);
        assert(rewrite_all(es0, new_addr@, new_image@) == Ok::<Seq<TarEntryV>, RewriteError>(out_entries.deep_view())) by {
            assert(out_entries.deep_view() + Seq::<TarEntryV>::empty() =~= out_entries.deep_view());
        }
    }
    if !found {
        return Err(RewriteError::ImageMissing);
    }
    let bytes = build_archive(&out_entries);
    Ok(bytes)
}

/// The payload of the first entry at the image path.
pub open spec fn first_image(es: Seq<TarEntryV>) -> Option<Seq<u8>>
    decreases es.len(),
{
    if es.len() == 0 {
        None
    } else if es[0].path == files_img_path() {
        Some(es[0].data)
    } else {
        first_image(es.drop_first())
    }
}

proof fn lemma_first_image_skip(es: Seq<TarEntryV>, i: int)
    requires
        0 <= i <= es.len(),
        forall|j: int| 0 <= j < i ==> (#[trigger] es[j]).path != files_img_path(),
    ensures
        first_image(es) == first_image(es.skip(i)),
    decreases i,
{
    if i > 0 {
        lemma_first_image_skip(es.drop_first(), i - 1);
        assert(es.drop_first().skip(i - 1) =~= es.skip(i));
    } else {
        assert(es.skip(0) =~= es);
    }
}

/// Reads the checkpoint image entry's payload out of an archive, so that
/// the external codec can decode it.
pub fn read_image_entry(input: &[u8]) -> (r: Result<Vec<u8>, RewriteError>)
    ensures
        match entries_from(input@, 0) {
            None => r matches Err(e) && e == RewriteError::BadArchive,
            Some(es) => match first_image(es) {
                Some(d) => r matches Ok(v) && v@ == d,
                None => r matches Err(e) && e == RewriteError::ImageMissing,
            },
        },
{
    let entries = match parse_archive(input) {
        Ok(es) => es,
        Err(e) => {
            return Err(e);
        },
    };
    let ghost es = entries.deep_view();
    let mut idx: usize = 0;
    while idx < entries.len()
        invariant
            0 <= idx <= entries@.len(),
            entries_from(input@, 0) == Some(es),
            es == entries.deep_view(),
            es.len() == entries@.len(),
            forall|j: int| 0 <= j < idx ==> (#[trigger] es[j]).path != files_img_path(),
        decreases entries@.len() - idx,
    {
        if bytes_eq(entries[idx].path.as_slice(), "checkpoint/files.img".as_bytes()) {
            proof {
                lemma_first_image_skip(es, idx as int);
                assert(es[idx as int] == entries@[idx as int].deep_view());
                assert(es[idx as int].path == files_img_path());
                assert(es.skip(idx as int)[0] == es[idx as int]);
                assert(es.skip(idx as int).len() > 0);
                assert(first_image(es) == Some(es[idx as int].data));
            }
            return Ok(slice_to_vec(entries[idx].data.as_slice()));
        }
        idx = idx + 1;
    }
    proof {
        lemma_first_image_skip(es, es.len() as int);
    }
    Err(RewriteError::ImageMissing)
}

/// A rewritten entry is still well-formed.
proof fn lemma_with_new_data_wf(e: TarEntryV, d: Seq<u8>)
    requires
        entry_wf(e),
        d.len() < size_limit(),
    ensures
        entry_wf(with_new_data(e, d)),
{
    crate::tarfmt::lemma_size_field_roundtrip(d.len());
    crate::tarfmt::lemma_entry_path_with_size(e.header, d.len());
    crate::tarfmt::lemma_octal_digits_len(d.len(), 11);
    assert(size_field(with_size(e.header, d.len())) =~= size_field_bytes(d.len()));
}

proof fn lemma_rewrite_all_wf(es: Seq<TarEntryV>, addr: Seq<char>, img: Seq<u8>, out: Seq<
    TarEntryV,
>)
    requires
        forall|i: int| 0 <= i < es.len() ==> entry_wf(#[trigger] es[i]),
        rewrite_all(es, addr, img) == Ok::<Seq<TarEntryV>, RewriteError>(out),
    ensures
        forall|i: int| 0 <= i < out.len() ==> entry_wf(#[trigger] out[i]),
    decreases es.len(),
{
    if es.len() > 0 {
        let e2 = rewrite_entry(es[0], addr, img)->Ok_0;
        let rest = rewrite_all(es.drop_first(), addr, img)->Ok_0;
        match rewrite_entry(es[0], addr, img) {
            Ok(_) => {
                if es[0].path == files_img_path() {
                    lemma_with_new_data_wf(es[0], img);
                } else if es[0].path == network_status_path() {
                    lemma_with_new_data_wf(
                        es[0],
                        json_ser_pretty(patch_status_doc(json_parse(es[0].data)->Some_0, addr)),
                    );
                } else if es[0].path == config_dump_path() {
                    lemma_with_new_data_wf(
                        es[0],
                        json_ser(patch_config_doc(json_parse(es[0].data)->Some_0, addr)),
                    );
                }
            },
            Err(_) => {},
        }
        lemma_rewrite_all_wf(es.drop_first(), addr, img, rest);
        assert(out == seq![e2] + rest);
        assert forall|i: int| 0 <= i < out.len() implies entry_wf(#[trigger] out[i]) by {
            if i > 0 {
                assert(out[i] == rest[i - 1]);
            }
        }
    }
}

/// Law: the archive a successful rewrite writes out reads back entry for
/// entry: the same number of entries, each path at its input position, and
/// for every entry at none of the three patched paths the payload bytes
/// exactly as they came in.
pub proof fn lemma_rewrite_output_reads_back(
    es: Seq<TarEntryV>,
    addr: Seq<char>,
    img: Seq<u8>,
    out: Seq<TarEntryV>,
)
    requires
        forall|i: int| 0 <= i < es.len() ==> entry_wf(#[trigger] es[i]),
        rewrite_all(es, addr, img) == Ok::<Seq<TarEntryV>, RewriteError>(out),
    ensures
        entries_from(encode_archive(out), 0) matches Some(back) && {
            &&& back.len() == es.len()
            &&& forall|i: int| 0 <= i < es.len() ==> (#[trigger] back[i]).path == es[i].path
            &&& forall|i: int|
                0 <= i < es.len() && (#[trigger] es[i]).path != files_img_path() && es[i].path
                    != network_status_path() && es[i].path != config_dump_path() ==> back[i].data
                    == es[i].data
        },
{
    lemma_rewrite_preserves_structure(es, addr, img, out);
    lemma_rewrite_all_wf(es, addr, img, out);
    crate::tarfmt::lemma_encode_parse_roundtrip(out);
    let back = Seq::new(out.len(), |i: int| crate::tarfmt::written_entry(out[i]));
    assert forall|i: int| 0 <= i < es.len() implies (#[trigger] back[i]).path == es[i].path by {
        assert(back[i] == crate::tarfmt::written_entry(out[i]));
    }
}

/// Law: a successful rewrite keeps the number, the order and the paths of
/// the entries, and every entry at none of the three patched paths is kept
/// exactly, header bytes and payload bytes alike.
pub proof fn lemma_rewrite_preserves_structure(
    es: Seq<TarEntryV>,
    addr: Seq<char>,
    img: Seq<u8>,
    out: Seq<TarEntryV>,
)
    requires
        rewrite_all(es, addr, img) == Ok::<Seq<TarEntryV>, RewriteError>(out),
    ensures
        out.len() == es.len(),
        forall|i: int| 0 <= i < es.len() ==> (#[trigger] out[i]).path == es[i].path,
        forall|i: int|
            0 <= i < es.len() && (#[trigger] es[i]).path != files_img_path() && es[i].path
                != network_status_path() && es[i].path != config_dump_path() ==> out[i] == es[i],
    decreases es.len(),
{
    if es.len() > 0 {
        let e0 = rewrite_entry(es[0], addr, img);
        let rest = rewrite_all(es.drop_first(), addr, img);
        lemma_rewrite_preserves_structure(es.drop_first(), addr, img, rest->Ok_0);
        assert(out == seq![e0->Ok_0] + rest->Ok_0);
        assert(out[0] == e0->Ok_0);
        assert forall|i: int| 1 <= i < es.len() implies (#[trigger] out[i]) == (rest->Ok_0)[i
            - 1] by {}
        assert forall|i: int| 1 <= i < es.len() implies es.drop_first()[i - 1] == es[i] by {}
    }
}

} // verus!
