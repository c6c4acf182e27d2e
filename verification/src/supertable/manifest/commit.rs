//! Publishing a manifest: where its objects lie, the pointer file that makes
//! one of them current, and what each outcome of a write means.

use vstd::prelude::*;
use vstd::string::StringExecFns;
use crate::storage::{StorageError, StorageFault};
use crate::supertable::error::{CommitError, CommitFault};
use crate::supertable::manifest::avro::{avro_datum_bytes, PART_SCHEMA};
use crate::supertable::manifest::error::{joined, PartFault};
use crate::supertable::manifest::frame::{
    blake3_digest, decompress, zstd_content, zstd_frame,
};
use crate::supertable::manifest::part::{
    self, checked_part, hash_of_chars, part_is_readable, part_node, part_of, ContentHash,
    ManifestPart, PartId, Refusals,
};
use crate::text::{
    decimal, differs_first, from_chars, hex, is_hex, lemma_hex_reads_back, padded_decimal,
    parse_decimal, push_decimal, push_hex, push_padded_decimal, quoted, quoted_chars, read_decimal,
    sorts_before, spells, text_of_utf8, to_chars, unhex, utf8_fault, utf8_of_text, utf8_text,
};

verus! {

/// Where the pointer file lies under the root of a table. It is the only
/// object that is ever replaced.
pub const POINTER_PATH: &'static str = "_supertable/current";

/// Directory of the manifest lists.
pub const MANIFEST_LISTS_DIR: &'static str = "manifest-lists";

/// Directory of the manifest parts.
pub const MANIFEST_PARTS_DIR: &'static str = "manifests";

/// The URI of the list of manifest `manifest_id`.
pub open spec fn list_uri_chars(manifest_id: u64) -> Seq<char> {
    MANIFEST_LISTS_DIR@ + "/list-"@ + padded_decimal(manifest_id as nat, 6) + ".json"@
}

/// The URI of the part with digest `hash`.
pub open spec fn part_uri_chars(hash: Seq<u8>) -> Seq<char> {
    MANIFEST_PARTS_DIR@ + "/part-"@ + hex(hash) + ".avro.zst"@
}

/// The URI of a manifest list. The identifier has six digits, so that names
/// sort by version up to 999 999; larger ones have more.
pub fn list_uri(manifest_id: u64) -> (uri: String)
    ensures
        uri@ == list_uri_chars(manifest_id),
{
    let mut uri = MANIFEST_LISTS_DIR.to_owned();
    uri.append("/list-");
    push_padded_decimal(&mut uri, manifest_id, 6);
    uri.append(".json");
    uri
}

/// The URI of a manifest part. Equal bytes have equal digests, so they lie
/// under one URI.
pub fn part_uri(content_hash: &ContentHash) -> (uri: String)
    ensures
        uri@ == part_uri_chars(content_hash@),
{
    let mut uri = MANIFEST_PARTS_DIR.to_owned();
    uri.append("/part-");
    push_hex(&mut uri, content_hash.0.as_slice());
    uri.append(".avro.zst");
    uri
}

/// Different digests lie under different URIs.
pub proof fn lemma_part_uri_injective(a: Seq<u8>, b: Seq<u8>)
    requires
        part_uri_chars(a) == part_uri_chars(b),
    ensures
        a == b,
{
    let head = MANIFEST_PARTS_DIR@ + "/part-"@;
    let tail = ".avro.zst"@;
    let x = part_uri_chars(a);
    let y = part_uri_chars(b);
    assert(x.len() == head.len() + hex(a).len() + tail.len());
    assert(y.len() == head.len() + hex(b).len() + tail.len());
    assert(x.subrange(head.len() as int, (head.len() + hex(a).len()) as int) =~= hex(a));
    assert(y.subrange(head.len() as int, (head.len() + hex(b).len()) as int) =~= hex(b));
    crate::text::lemma_hex_reads_back(a);
    crate::text::lemma_hex_reads_back(b);
}

/// The list URI around its number.
proof fn lemma_list_uri_parts(manifest_id: u64)
    ensures
        ({
            let uri = list_uri_chars(manifest_id);
            let head = MANIFEST_LISTS_DIR@ + "/list-"@;
            let number = padded_decimal(manifest_id as nat, 6);
            &&& head.len() == 20
            &&& ".json"@.len() == 5
            &&& uri.len() == 25 + number.len()
            &&& uri == head + number + ".json"@
            &&& uri.subrange(20, uri.len() - 5) == number
            &&& forall|i: int| 0 <= i < uri.len() ==> (#[trigger] uri[i]) != '\n' && uri[i] != '\r'
        }),
{
    reveal_strlit("manifest-lists");
    reveal_strlit("/list-");
    reveal_strlit(".json");
    let uri = list_uri_chars(manifest_id);
    let number = padded_decimal(manifest_id as nat, 6);
    assert(uri.subrange(20, uri.len() - 5) =~= number);
    crate::text::lemma_padded_reads_back(manifest_id as nat, 6, u64::MAX as nat);
    assert forall|i: int| 0 <= i < uri.len() implies (#[trigger] uri[i]) != '\n' && uri[i]
        != '\r' by {
        if 20 <= i < 20 + number.len() {
            assert(uri[i] == number[i - 20]);
        }
    }
}

/// Different manifests have their lists under different URIs.
pub proof fn lemma_list_uri_injective(a: u64, b: u64)
    requires
        list_uri_chars(a) == list_uri_chars(b),
    ensures
        a == b,
{
    lemma_list_uri_parts(a);
    lemma_list_uri_parts(b);
    crate::text::lemma_padded_reads_back(a as nat, 6, u64::MAX as nat);
    crate::text::lemma_padded_reads_back(b as nat, 6, u64::MAX as nat);
}

/// Up to a million manifests, list URIs sort as the manifests do.
pub proof fn lemma_list_uris_sort(a: u64, b: u64)
    requires
        a < b < 1_000_000,
    ensures
        sorts_before(list_uri_chars(a), list_uri_chars(b)),
{
    let (x, y) = (padded_decimal(a as nat, 6), padded_decimal(b as nat, 6));
    let (u, v) = (list_uri_chars(a), list_uri_chars(b));
    lemma_list_uri_parts(a);
    lemma_list_uri_parts(b);
    crate::text::lemma_six_digits(a as nat);
    crate::text::lemma_six_digits(b as nat);
    crate::text::lemma_padded_reads_back(a as nat, 6, u64::MAX as nat);
    crate::text::lemma_padded_reads_back(b as nat, 6, u64::MAX as nat);
    crate::text::lemma_digits_sort(x, y, u64::MAX as nat);
    let i = choose|i: int| #[trigger] differs_first(x, y, i) && (x[i] as int) < (y[i] as int);
    let head = MANIFEST_LISTS_DIR@ + "/list-"@;
    assert(u.take(20 + i) =~= head + x.take(i));
    assert(v.take(20 + i) =~= head + y.take(i));
    assert(u[20 + i] == x[i] && v[20 + i] == y[i]);
    assert(differs_first(u, v, 20 + i));
}

// ---- The pointer file -------------------------------------------------------

/// Names the current manifest list. Replacing it is what makes a commit
/// visible.
#[derive(Debug, Clone, PartialEq, Eq)]
pub struct PointerFile {
    pub manifest_id: u64,
    pub manifest_list_uri: String,
    pub content_hash: ContentHash,
}

/// [`PointerFile`] over sequences.
#[verifier::ext_equal]
pub struct PointerView {
    pub manifest_id: u64,
    pub manifest_list_uri: Seq<char>,
    pub content_hash: Seq<u8>,
}

impl View for PointerFile {
    type V = PointerView;

    open spec fn view(&self) -> PointerView {
        PointerView {
            manifest_id: self.manifest_id,
            manifest_list_uri: self.manifest_list_uri@,
            content_hash: self.content_hash@,
        }
    }
}

/// The text of a pointer file: a line for each of the three fields.
pub open spec fn pointer_text(pointer: PointerView) -> Seq<char> {
    "manifest_id="@ + decimal(pointer.manifest_id as nat) + "\nmanifest_list_uri="@
        + pointer.manifest_list_uri + "\ncontent_hash=blake3:"@ + hex(pointer.content_hash)
        + "\n"@
}

/// `line` without a carriage return at its end.
pub open spec fn without_return(line: Seq<char>) -> Seq<char> {
    if line.len() > 0 && line.last() == '\r' {
        line.drop_last()
    } else {
        line
    }
}

/// The position of the first `c` in `s`, or the length of `s`.
pub open spec fn first_index(s: Seq<char>, c: char) -> int
    decreases s.len(),
{
    if s.len() == 0 || s[0] == c {
        0
    } else {
        1 + first_index(s.subrange(1, s.len() as int), c)
    }
}

/// The lines of a text: each ends with a line feed, before which a carriage
/// return may stand; the last may end with the text.
pub open spec fn lines_of(s: Seq<char>) -> Seq<Seq<char>>
    decreases s.len(),
{
    let i = first_index(s, '\n');
    if s.len() == 0 {
        Seq::empty()
    } else if !(0 <= i < s.len()) {
        seq![s]
    } else {
        seq![without_return(s.subrange(0, i))] + lines_of(s.subrange(i + 1, s.len() as int))
    }
}

/// The fields read so far.
#[verifier::ext_equal]
pub struct PointerDraft {
    pub manifest_id: Option<u64>,
    pub manifest_list_uri: Option<Seq<char>>,
    pub content_hash: Option<Seq<u8>>,
}

/// The digest in the value of a `content_hash` line, or the message why
/// there is none.
pub open spec fn hash_of_value(value: Seq<char>) -> Result<Seq<u8>, Seq<char>> {
    let prefix = "blake3:"@;
    if !(value.len() >= prefix.len() && value.take(prefix.len() as int) == prefix) {
        Err("content_hash missing 'blake3:' prefix: "@ + value)
    } else {
        let digits = value.skip(prefix.len() as int);
        if vstd::utf8::encode_utf8(digits).len() != 64 {
            Err(
                "content_hash hex must be 64 chars; got "@ + decimal(
                    vstd::utf8::encode_utf8(digits).len(),
                ),
            )
        } else if digits.len() == 64 && is_hex(digits) {
            Ok(unhex(digits))
        } else {
            Err("content_hash hex: "@ + digits)
        }
    }
}

/// What a line adds to the fields: empty lines and unknown keys add nothing,
/// and a repeated key replaces the earlier value.
pub open spec fn read_line(draft: PointerDraft, line: Seq<char>) -> Result<
    PointerDraft,
    Seq<char>,
> {
    let eq = first_index(line, '=');
    let key = line.take(eq);
    let value = line.skip(eq + 1);
    if line.len() == 0 {
        Ok(draft)
    } else if eq >= line.len() {
        Err("no '=' in line: "@ + quoted_chars(line))
    } else if key == "manifest_id"@ {
        match read_decimal(value, u64::MAX as nat) {
            Ok(id) => Ok(PointerDraft { manifest_id: Some(id as u64), ..draft }),
            Err(e) => Err("manifest_id: "@ + e.message_spec()),
        }
    } else if key == "manifest_list_uri"@ {
        Ok(PointerDraft { manifest_list_uri: Some(value), ..draft })
    } else if key == "content_hash"@ {
        match hash_of_value(value) {
            Ok(hash) => Ok(PointerDraft { content_hash: Some(hash), ..draft }),
            Err(message) => Err(message),
        }
    } else {
        Ok(draft)
    }
}

/// The fields of lines, read in order.
pub open spec fn read_lines(lines: Seq<Seq<char>>) -> Result<PointerDraft, Seq<char>>
    decreases lines.len(),
{
    if lines.len() == 0 {
        Ok(PointerDraft { manifest_id: None, manifest_list_uri: None, content_hash: None })
    } else {
        match read_lines(lines.drop_last()) {
            Err(message) => Err(message),
            Ok(draft) => read_line(draft, lines.last()),
        }
    }
}

/// The pointer file with the fields of `draft`.
pub open spec fn pointer_of_draft(draft: PointerDraft) -> Result<PointerView, Seq<char>> {
    match draft.manifest_id {
        None => Err("missing manifest_id"@),
        Some(manifest_id) => match draft.manifest_list_uri {
            None => Err("missing manifest_list_uri"@),
            Some(manifest_list_uri) => match draft.content_hash {
                None => Err("missing content_hash"@),
                Some(content_hash) => Ok(
                    PointerView { manifest_id, manifest_list_uri, content_hash },
                ),
            },
        },
    }
}

/// The pointer file that a text stands for.
pub open spec fn pointer_of_text(text: Seq<char>) -> Result<PointerView, Seq<char>> {
    match read_lines(lines_of(text)) {
        Err(message) => Err(message),
        Ok(draft) => pointer_of_draft(draft),
    }
}

/// The pointer file that bytes stand for, or the message why there is none.
pub open spec fn pointer_of_bytes(bytes: Seq<u8>) -> Result<PointerView, Seq<char>> {
    match utf8_text(bytes, utf8_fault(bytes)) {
        Err(fault) => Err("not utf-8: "@ + fault),
        Ok(text) => pointer_of_text(text),
    }
}

/// The first `c` lies where no earlier character is `c`.
proof fn lemma_first_index(s: Seq<char>, c: char, i: int)
    requires
        0 <= i <= s.len(),
        forall|k: int| 0 <= k < i ==> (#[trigger] s[k]) != c,
        i == s.len() || s[i] == c,
    ensures
        first_index(s, c) == i,
    decreases i,
{
    if i > 0 {
        assert(s[0] != c);
        lemma_first_index(s.subrange(1, s.len() as int), c, i - 1);
    }
}

/// The first `c` of `chars[from..to]`, counted from the start of `chars`.
fn find(chars: &[char], from: usize, to: usize, c: char) -> (i: usize)
    requires
        from <= to <= chars@.len(),
    ensures
        from <= i <= to,
        i - from == first_index(chars@.subrange(from as int, to as int), c),
        i < to ==> chars@[i as int] == c,
{
    let mut i: usize = from;
    while i < to && chars[i] != c
        invariant
            from <= i <= to <= chars@.len(),
            forall|k: int| from <= k < i ==> (#[trigger] chars@[k]) != c,
        decreases to - i,
    {
        i = i + 1;
    }
    proof {
        lemma_first_index(chars@.subrange(from as int, to as int), c, i - from);
    }
    i
}

/// The texts of the ranges of `chars`.
spec fn range_texts(chars: Seq<char>, ranges: Seq<(usize, usize)>) -> Seq<Seq<char>> {
    Seq::new(
        ranges.len(),
        |k: int| chars.subrange(ranges[k].0 as int, ranges[k].1 as int),
    )
}

/// Where the lines of a text lie.
fn split_lines(chars: &[char]) -> (ranges: Vec<(usize, usize)>)
    ensures
        forall|k: int|
            0 <= k < ranges@.len() ==> (#[trigger] ranges@[k]).0 <= ranges@[k].1 <= chars@.len(),
        range_texts(chars@, ranges@) == lines_of(chars@),
{
    assert(chars.len() == chars@.len());
    let mut ranges: Vec<(usize, usize)> = Vec::new();
    let mut pos: usize = 0;
    assert(chars@.skip(0) =~= chars@);
    assert(range_texts(chars@, ranges@) + lines_of(chars@) =~= lines_of(chars@));
    while pos < chars.len()
        invariant
            chars.len() == chars@.len(),
            pos <= chars@.len(),
            forall|k: int|
                0 <= k < ranges@.len() ==> (#[trigger] ranges@[k]).0 <= ranges@[k].1
                    <= chars@.len(),
            range_texts(chars@, ranges@) + lines_of(chars@.skip(pos as int)) == lines_of(chars@),
        decreases chars.len() - pos,
    {
        let ghost rest = chars@.skip(pos as int);
        let ghost before = range_texts(chars@, ranges@);
        let i = find(chars, pos, chars.len(), '\n');
        assert(chars@.subrange(pos as int, chars@.len() as int) =~= rest);
        let mut end: usize = i;
        if i < chars.len() && i > pos && chars[i - 1] == '\r' {
            end = i - 1;
        }
        ranges.push((pos, end));
        let ghost line = chars@.subrange(pos as int, end as int);
        assert(range_texts(chars@, ranges@) =~= before.push(line));
        if i < chars.len() {
            proof {
                assert(rest.subrange(0, i - pos) =~= chars@.subrange(pos as int, i as int));
                assert(line =~= without_return(rest.subrange(0, i - pos)));
                assert(rest.subrange(i - pos + 1, rest.len() as int) =~= chars@.skip(i + 1));
                assert(before.push(line) + lines_of(chars@.skip(i + 1)) =~= before + (seq![line]
                    + lines_of(chars@.skip(i + 1))));
            }
            pos = i + 1;
        } else {
            proof {
                assert(line =~= rest);
                assert(before.push(line) + lines_of(chars@.skip(chars@.len() as int)) =~= before
                    + seq![line]);
            }
            pos = chars.len();
        }
    }
    assert(range_texts(chars@, ranges@) + lines_of(chars@.skip(pos as int)) =~= range_texts(
        chars@,
        ranges@,
    ));
    ranges
}

/// The fields read so far, executable.
struct Draft {
    manifest_id: Option<u64>,
    manifest_list_uri: Option<String>,
    content_hash: Option<ContentHash>,
}

impl Draft {
    spec fn draft(&self) -> PointerDraft {
        PointerDraft {
            manifest_id: self.manifest_id,
            manifest_list_uri: match self.manifest_list_uri {
                Some(uri) => Some(uri@),
                None => None,
            },
            content_hash: match self.content_hash {
                Some(hash) => Some(hash@),
                None => None,
            },
        }
    }
}

/// Reads the value of a `content_hash` line, `chars[from..to]`.
fn read_hash(chars: &[char], from: usize, to: usize) -> (res: Result<ContentHash, String>)
    requires
        from <= to <= chars@.len(),
    ensures
        res matches Ok(hash) ==> hash_of_value(chars@.subrange(from as int, to as int)) == Ok::<
            Seq<u8>,
            Seq<char>,
        >(hash@),
        res matches Err(e) ==> hash_of_value(chars@.subrange(from as int, to as int)) == Err::<
            Seq<u8>,
            Seq<char>,
        >(e@),
{
    let ghost value = chars@.subrange(from as int, to as int);
    proof {
        reveal_strlit("blake3:");
    }
    if to - from < 7 || !spells(chars, from, from + 7, "blake3:") {
        proof {
            if value.len() >= 7 {
                assert(value.take(7) =~= chars@.subrange(from as int, from + 7));
            }
        }
        return Err(
            joined("content_hash missing 'blake3:' prefix: ", &from_chars(chars, from, to)),
        );
    }
    let start = from + 7;
    let digits = from_chars(chars, start, to);
    let ghost d = digits@;
    proof {
        assert(value.take(7) =~= chars@.subrange(from as int, from + 7));
        assert(value.skip(7) =~= d);
    }
    let width = digits.as_str().as_bytes().len();
    if width != 64 {
        let mut text = "content_hash hex must be 64 chars; got ".to_owned();
        push_decimal(&mut text, width as u64);
        return Err(text);
    }
    if to - start != 64 {
        return Err(joined("content_hash hex: ", &digits));
    }
    match hash_of_chars(chars, start) {
        Some(hash) => Ok(hash),
        None => Err(joined("content_hash hex: ", &digits)),
    }
}

/// Reads one line, `chars[from..to]`, into the fields.
fn step(draft: Draft, chars: &[char], from: usize, to: usize) -> (res: Result<Draft, String>)
    requires
        from <= to <= chars@.len(),
    ensures
        res matches Ok(next) ==> read_line(
            draft.draft(),
            chars@.subrange(from as int, to as int),
        ) == Ok::<PointerDraft, Seq<char>>(next.draft()),
        res matches Err(e) ==> read_line(
            draft.draft(),
            chars@.subrange(from as int, to as int),
        ) == Err::<PointerDraft, Seq<char>>(e@),
{
    let ghost line = chars@.subrange(from as int, to as int);
    if from == to {
        return Ok(draft);
    }
    let eq = find(chars, from, to, '=');
    if eq == to {
        return Err(joined("no '=' in line: ", &quoted(&from_chars(chars, from, to))));
    }
    proof {
        assert(line.take(eq - from) =~= chars@.subrange(from as int, eq as int));
        assert(line.skip(eq - from + 1) =~= chars@.subrange(eq + 1, to as int));
    }
    if spells(chars, from, eq, "manifest_id") {
        match parse_decimal(chars, eq + 1, to, u64::MAX) {
            Ok(id) => Ok(Draft { manifest_id: Some(id), ..draft }),
            Err(e) => Err(joined("manifest_id: ", e.message())),
        }
    } else if spells(chars, from, eq, "manifest_list_uri") {
        Ok(Draft { manifest_list_uri: Some(from_chars(chars, eq + 1, to)), ..draft })
    } else if spells(chars, from, eq, "content_hash") {
        match read_hash(chars, eq + 1, to) {
            Ok(hash) => Ok(Draft { content_hash: Some(hash), ..draft }),
            Err(message) => Err(message),
        }
    } else {
        Ok(draft)
    }
}

/// Once the first `j` lines fail to read, so do all of them.
proof fn lemma_lines_fault(lines: Seq<Seq<char>>, j: int)
    requires
        0 <= j <= lines.len(),
        read_lines(lines.take(j)) is Err,
    ensures
        read_lines(lines) == read_lines(lines.take(j)),
    decreases lines.len(),
{
    if j == lines.len() {
        assert(lines.take(j) =~= lines);
    } else {
        assert(lines.drop_last().take(j) =~= lines.take(j));
        lemma_lines_fault(lines.drop_last(), j);
    }
}

/// Reads a pointer file's text.
fn parse_pointer(text: &str) -> (res: Result<PointerFile, String>)
    ensures
        res matches Ok(pointer) ==> pointer_of_text(text@) == Ok::<PointerView, Seq<char>>(
            pointer@,
        ),
        res matches Err(e) ==> pointer_of_text(text@) == Err::<PointerView, Seq<char>>(e@),
{
    let chars = to_chars(text);
    let ranges = split_lines(&chars);
    let ghost lines = lines_of(text@);
    let mut draft = Draft { manifest_id: None, manifest_list_uri: None, content_hash: None };
    let mut k: usize = 0;
    while k < ranges.len()
        invariant
            k <= ranges@.len(),
            chars@ == text@,
            lines == lines_of(text@),
            range_texts(chars@, ranges@) == lines,
            forall|j: int|
                0 <= j < ranges@.len() ==> (#[trigger] ranges@[j]).0 <= ranges@[j].1
                    <= chars@.len(),
            read_lines(lines.take(k as int)) == Ok::<PointerDraft, Seq<char>>(draft.draft()),
        decreases ranges.len() - k,
    {
        let (from, to) = ranges[k];
        proof {
            assert(lines.take(k + 1).drop_last() =~= lines.take(k as int));
            assert(lines.take(k + 1).last() == chars@.subrange(from as int, to as int));
        }
        match step(draft, &chars, from, to) {
            Ok(next) => {
                draft = next;
            },
            Err(message) => {
                proof {
                    lemma_lines_fault(lines, k + 1);
                }
                return Err(message);
            },
        }
        k = k + 1;
    }
    assert(lines.take(lines.len() as int) =~= lines);
    match draft.manifest_id {
        None => Err("missing manifest_id".to_owned()),
        Some(manifest_id) => match draft.manifest_list_uri {
            None => Err("missing manifest_list_uri".to_owned()),
            Some(manifest_list_uri) => match draft.content_hash {
                None => Err("missing content_hash".to_owned()),
                Some(content_hash) => Ok(
                    PointerFile { manifest_id, manifest_list_uri, content_hash },
                ),
            },
        },
    }
}

impl PointerFile {
    /// The stored form.
    ///
    /// ```text
    /// manifest_id=42
    /// manifest_list_uri=manifest-lists/list-000042.json
    /// content_hash=blake3:def...
    /// ```
    pub fn to_bytes(&self) -> (bytes: Vec<u8>)
        ensures
            bytes@ == vstd::utf8::encode_utf8(pointer_text(self@)),
    {
        let mut text = "manifest_id=".to_owned();
        push_decimal(&mut text, self.manifest_id);
        text.append("\nmanifest_list_uri=");
        text.append(&self.manifest_list_uri);
        text.append("\ncontent_hash=blake3:");
        push_hex(&mut text, self.content_hash.0.as_slice());
        text.append("\n");
        assert(text@ =~= pointer_text(self@));
        utf8_of_text(&text)
    }

    /// Reads the stored form. Empty lines and unknown keys are skipped; of a
    /// repeated key the last value counts.
    pub fn from_bytes(bytes: &[u8]) -> (res: Result<Self, CommitError>)
        ensures
            res matches Ok(pointer) ==> pointer_of_bytes(bytes@) == Ok::<PointerView, Seq<char>>(
                pointer@,
            ),
            res matches Err(e) ==> (e@ matches CommitFault::PointerParse(message)
                && pointer_of_bytes(bytes@) == Err::<PointerView, Seq<char>>(message)),
    {
        let text = match text_of_utf8(bytes) {
            Ok(text) => text,
            Err(fault) => {
                return Err(CommitError::PointerParse(joined("not utf-8: ", &fault)));
            },
        };
        match parse_pointer(&text) {
            Ok(pointer) => Ok(pointer),
            Err(message) => Err(CommitError::PointerParse(message)),
        }
    }
}

/// A line feed ends a line that holds none and does not end with a carriage
/// return.
proof fn lemma_line_splits(line: Seq<char>, rest: Seq<char>)
    requires
        forall|k: int| 0 <= k < line.len() ==> (#[trigger] line[k]) != '\n',
        line.len() > 0 ==> line.last() != '\r',
    ensures
        lines_of(line + seq!['\n'] + rest) == seq![line] + lines_of(rest),
{
    let s = line + seq!['\n'] + rest;
    let i = line.len() as int;
    assert(s[i] == '\n');
    assert forall|k: int| 0 <= k < i implies (#[trigger] s[k]) != '\n' by {
        assert(s[k] == line[k]);
    }
    lemma_first_index(s, '\n', i);
    assert(s.subrange(0, i) =~= line);
    assert(s.subrange(i + 1, s.len() as int) =~= rest);
}

/// A line splits at the first equals sign into key and value.
proof fn lemma_key_splits(key: Seq<char>, value: Seq<char>)
    requires
        forall|k: int| 0 <= k < key.len() ==> (#[trigger] key[k]) != '=',
    ensures
        ({
            let line = key + seq!['='] + value;
            let eq = first_index(line, '=');
            eq < line.len() && line.take(eq) == key && line.skip(eq + 1) == value
        }),
{
    let line = key + seq!['='] + value;
    let eq = key.len() as int;
    assert(line[eq] == '=');
    assert forall|k: int| 0 <= k < eq implies (#[trigger] line[k]) != '=' by {
        assert(line[k] == key[k]);
    }
    lemma_first_index(line, '=', eq);
    assert(line.take(eq) =~= key);
    assert(line.skip(eq + 1) =~= value);
}

/// The digits of a digest, behind the prefix, read as the digest.
proof fn lemma_hash_value_reads_back(hash: Seq<u8>)
    requires
        hash.len() == 32,
    ensures
        hash_of_value("blake3:"@ + hex(hash)) == Ok::<Seq<u8>, Seq<char>>(hash),
{
    let prefix = "blake3:"@;
    let digits = hex(hash);
    let value = prefix + digits;
    assert(value.take(prefix.len() as int) =~= prefix);
    assert(value.skip(prefix.len() as int) =~= digits);
    assert forall|i: int| 0 <= i < digits.len() implies (#[trigger] digits[i]) as int <= 102 by {}
    assert(vstd::utf8::is_ascii_chars(digits));
    vstd::utf8::is_ascii_chars_encode_utf8(digits);
    lemma_hex_reads_back(hash);
}

/// Can the pointer file be read back: does its URI fit on a line, and has
/// the digest its 32 bytes?
pub open spec fn pointer_is_readable(pointer: PointerView) -> bool {
    &&& pointer.content_hash.len() == 32
    &&& forall|k: int|
        0 <= k < pointer.manifest_list_uri.len() ==> (#[trigger] pointer.manifest_list_uri[k])
            != '\n'
    &&& pointer.manifest_list_uri.len() > 0 ==> pointer.manifest_list_uri.last() != '\r'
}

/// Reading the stored form of a pointer file gives the pointer file back,
/// unless a line feed in the URI, or a carriage return at its end, breaks
/// the line.
pub proof fn lemma_pointer_reads_back(pointer: PointerView)
    requires
        pointer_is_readable(pointer),
    ensures
        pointer_of_bytes(vstd::utf8::encode_utf8(pointer_text(pointer))) == Ok::<
            PointerView,
            Seq<char>,
        >(pointer),
{
    let text = pointer_text(pointer);
    vstd::utf8::encode_utf8_valid_utf8(text);
    vstd::utf8::encode_utf8_decode_utf8(text);
    reveal_strlit("manifest_id=");
    reveal_strlit("\nmanifest_list_uri=");
    reveal_strlit("\ncontent_hash=blake3:");
    reveal_strlit("\n");
    reveal_strlit("manifest_id");
    reveal_strlit("manifest_list_uri");
    reveal_strlit("content_hash");
    reveal_strlit("blake3:");
    let id = decimal(pointer.manifest_id as nat);
    let uri = pointer.manifest_list_uri;
    let digits = hex(pointer.content_hash);
    let feed = seq!['\n'];
    let eq = seq!['='];
    crate::text::lemma_decimal_reads_back(pointer.manifest_id as nat, u64::MAX as nat);
    lemma_hash_value_reads_back(pointer.content_hash);
    let l1 = "manifest_id"@ + eq + id;
    let l2 = "manifest_list_uri"@ + eq + uri;
    let l3 = "content_hash"@ + eq + ("blake3:"@ + digits);
    assert(text =~= l1 + feed + (l2 + feed + (l3 + feed + Seq::<char>::empty())));
    assert forall|k: int| 0 <= k < l1.len() implies (#[trigger] l1[k]) != '\n' && l1[k]
        != '\r' by {
        if k >= 12 {
            assert(l1[k] == id[k - 12]);
            assert(crate::text::is_digit(id[k - 12]));
        }
    }
    assert forall|k: int| 0 <= k < l2.len() implies (#[trigger] l2[k]) != '\n' by {
        if k >= 18 {
            assert(l2[k] == uri[k - 18]);
        }
    }
    assert(l2.last() != '\r') by {
        if uri.len() > 0 {
            assert(l2.last() == uri.last());
        } else {
            assert(l2.last() == '=');
        }
    }
    assert forall|k: int| 0 <= k < l3.len() implies (#[trigger] l3[k]) != '\n' && l3[k]
        != '\r' by {
        if k >= 20 {
            assert(l3[k] == digits[k - 20]);
        }
    }
    lemma_line_splits(l3, Seq::empty());
    lemma_line_splits(l2, l3 + feed + Seq::<char>::empty());
    lemma_line_splits(l1, l2 + feed + (l3 + feed + Seq::<char>::empty()));
    let lines = lines_of(text);
    assert(lines =~= seq![l1, l2, l3]);
    lemma_key_splits("manifest_id"@, id);
    lemma_key_splits("manifest_list_uri"@, uri);
    lemma_key_splits("content_hash"@, "blake3:"@ + digits);
    assert("manifest_id"@.len() != "manifest_list_uri"@.len());
    assert("manifest_id"@.len() != "content_hash"@.len());
    assert("manifest_list_uri"@.len() != "content_hash"@.len());
    let none: Seq<Seq<char>> = Seq::empty();
    assert(lines.drop_last() =~= seq![l1, l2]);
    assert(seq![l1, l2].drop_last() =~= seq![l1]);
    assert(seq![l1].drop_last() =~= none);
    let d0 = PointerDraft { manifest_id: None, manifest_list_uri: None, content_hash: None };
    let d1 = PointerDraft { manifest_id: Some(pointer.manifest_id), ..d0 };
    let d2 = PointerDraft { manifest_list_uri: Some(uri), ..d1 };
    assert(read_lines(none) == Ok::<PointerDraft, Seq<char>>(d0));
    assert(read_lines(seq![l1]) == Ok::<PointerDraft, Seq<char>>(d1));
    assert(read_lines(seq![l1, l2]) == Ok::<PointerDraft, Seq<char>>(d2));
}

/// What a commit publishes as its pointer file reads back.
pub proof fn lemma_published_pointer_reads_back(manifest_id: u64, content_hash: Seq<u8>)
    requires
        content_hash.len() == 32,
    ensures
        ({
            let pointer = PointerView {
                manifest_id,
                manifest_list_uri: list_uri_chars(manifest_id),
                content_hash,
            };
            pointer_of_bytes(vstd::utf8::encode_utf8(pointer_text(pointer))) == Ok::<
                PointerView,
                Seq<char>,
            >(pointer)
        }),
{
    lemma_list_uri_parts(manifest_id);
    lemma_pointer_reads_back(
        PointerView { manifest_id, manifest_list_uri: list_uri_chars(manifest_id), content_hash },
    );
}

// ---- Reads and writes of a commit ------------------------------------------

/// What a fetch of the pointer file means: no object means a fresh table.
pub fn read_pointer(fetched: Result<Vec<u8>, StorageError>) -> (res: Result<
    Option<PointerFile>,
    CommitError,
>)
    ensures
        fetched matches Ok(bytes) ==> match pointer_of_bytes(bytes@) {
            Ok(view) => res matches Ok(Some(pointer)) && pointer@ == view,
            Err(message) => res matches Err(e) && e@ == CommitFault::PointerParse(message),
        },
        fetched matches Err(error) ==> (if error is NotFound {
            res == Ok::<Option<PointerFile>, CommitError>(None)
        } else {
            res == Err::<Option<PointerFile>, CommitError>(CommitError::Storage(error))
        }),
{
    match fetched {
        Ok(bytes) => match PointerFile::from_bytes(&bytes) {
            Ok(pointer) => Ok(Some(pointer)),
            Err(e) => Err(e),
        },
        Err(StorageError::NotFound { .. }) => Ok(None),
        Err(error) => Err(CommitError::from(error)),
    }
}

/// A manifest part in storage.
#[derive(Debug, Clone)]
pub struct PartWriteResult {
    pub part_id: PartId,
    pub uri: String,
    pub content_hash: ContentHash,
    pub size_bytes_compressed: u64,
    pub size_bytes_uncompressed: u64,
}

/// A manifest list in storage.
#[derive(Debug, Clone)]
pub struct ListWriteResult {
    pub uri: String,
    pub content_hash: ContentHash,
    pub size_bytes: u64,
}

/// A part that is ready to be written: `bytes` go to the URI of `result`,
/// and must not replace an object.
#[derive(Debug, Clone)]
pub struct PartWrite {
    pub bytes: Vec<u8>,
    pub result: PartWriteResult,
}

/// Encodes a part and addresses it by the digest of its bytes.
pub fn prepare_manifest_part(part: &ManifestPart, zstd_level: i32) -> (res: Result<
    PartWrite,
    CommitError,
>)
    ensures
        res matches Ok(write) && ({
            let datum = avro_datum_bytes(PART_SCHEMA@, part_node(part@));
            &&& write.bytes@ == zstd_frame(datum, zstd_level as int)
            &&& write.result.part_id == part.part_id
            &&& write.result.content_hash@ == blake3_digest(write.bytes@)
            &&& write.result.uri@ == part_uri_chars(blake3_digest(write.bytes@))
            &&& write.result.size_bytes_compressed == write.bytes@.len()
            &&& write.result.size_bytes_uncompressed == datum.len()
            &&& forall|refusals: Refusals|
                part_is_readable(part@) ==> #[trigger] part_of(write.bytes@, refusals)
                    == checked_part(part@, refusals)
        }),
{
    let bytes = part::encode(part, zstd_level);
    let content_hash = ContentHash::of(&bytes);
    let uri = part_uri(&content_hash);
    let size_bytes_compressed = bytes.len() as u64;
    let size_bytes_uncompressed = match decompress(&bytes) {
        Ok(datum) => datum.len() as u64,
        Err(fault) => {
            return Err(CommitError::Encode(joined("zstd self-decode: ", &fault)));
        },
    };
    Ok(
        PartWrite {
            bytes,
            result: PartWriteResult {
                part_id: part.part_id,
                uri,
                content_hash,
                size_bytes_compressed,
                size_bytes_uncompressed,
            },
        },
    )
}

/// What the outcome of a part write means. An object that is already there
/// has the same bytes, so the write counts as done.
pub fn write_manifest_part(write: PartWrite, put: Result<(), StorageError>) -> (res: Result<
    PartWriteResult,
    CommitError,
>)
    ensures
        put is Ok ==> res == Ok::<PartWriteResult, CommitError>(write.result),
        put matches Err(error) ==> (if error is PreconditionFailed {
            res == Ok::<PartWriteResult, CommitError>(write.result)
        } else {
            res == Err::<PartWriteResult, CommitError>(CommitError::Storage(error))
        }),
{
    match put {
        Ok(_) => Ok(write.result),
        Err(StorageError::PreconditionFailed { .. }) => Ok(write.result),
        Err(error) => Err(CommitError::from(error)),
    }
}

/// Addresses the encoded list of manifest `manifest_id`. It must not replace
/// an object: of several writers of one manifest only one succeeds.
pub fn prepare_manifest_list(manifest_id: u64, json: &[u8]) -> (write: ListWriteResult)
    ensures
        write.uri@ == list_uri_chars(manifest_id),
        write.content_hash@ == blake3_digest(json@),
        write.size_bytes == json@.len(),
{
    assert(json.len() == json@.len());
    ListWriteResult {
        uri: list_uri(manifest_id),
        content_hash: ContentHash::of(json),
        size_bytes: json.len() as u64,
    }
}

/// What the outcome of a list write means.
pub fn write_manifest_list(write: ListWriteResult, put: Result<(), StorageError>) -> (res: Result<
    ListWriteResult,
    CommitError,
>)
    ensures
        put is Ok ==> res == Ok::<ListWriteResult, CommitError>(write),
        put matches Err(error) ==> res == Err::<ListWriteResult, CommitError>(
            CommitError::Storage(error),
        ),
{
    match put {
        Ok(_) => Ok(write),
        Err(error) => Err(CommitError::from(error)),
    }
}

/// How the pointer file is to be written: without `if_match` it must not
/// replace an object, with it it must replace exactly that version.
#[derive(Debug, Clone)]
pub struct PointerWrite {
    pub path: &'static str,
    pub bytes: Vec<u8>,
    pub if_match: Option<String>,
}

/// The write that publishes `pointer` over the version `expected_prev_etag`.
pub fn prepare_pointer(pointer: &PointerFile, expected_prev_etag: Option<String>) -> (write:
    PointerWrite)
    ensures
        write.path@ == POINTER_PATH@,
        write.bytes@ == vstd::utf8::encode_utf8(pointer_text(pointer@)),
        write.if_match == expected_prev_etag,
{
    PointerWrite { path: POINTER_PATH, bytes: pointer.to_bytes(), if_match: expected_prev_etag }
}

/// What the outcome of the pointer write means: a failed condition means that
/// another writer published first.
pub fn write_pointer(put: Result<(), StorageError>) -> (res: Result<(), CommitError>)
    ensures
        put is Ok ==> res is Ok,
        put matches Err(error) ==> (if error is PreconditionFailed {
            res == Err::<(), CommitError>(CommitError::WriteContentionExhausted)
        } else {
            res == Err::<(), CommitError>(CommitError::Storage(error))
        }),
{
    match put {
        Ok(_) => Ok(()),
        Err(StorageError::PreconditionFailed { .. }) => Err(CommitError::WriteContentionExhausted),
        Err(error) => Err(CommitError::from(error)),
    }
}

/// A failed condition as contention; every other fault as it is.
pub open spec fn contention_of(error: CommitError) -> CommitError {
    match error {
        CommitError::Storage(StorageError::PreconditionFailed { .. }) =>
            CommitError::WriteContentionExhausted,
        other => other,
    }
}

/// A failed condition of a list or part write means, like that of the pointer
/// write, that another writer was first. Other errors pass.
pub fn translate_contention(error: CommitError) -> (res: CommitError)
    ensures
        res == contention_of(error),
{
    match error {
        CommitError::Storage(StorageError::PreconditionFailed { .. }) => {
            CommitError::WriteContentionExhausted
        },
        other => other,
    }
}

/// The first part write that failed.
pub open spec fn first_failure(parts: Seq<Result<PartWriteResult, CommitError>>) -> Option<
    CommitError,
>
    decreases parts.len(),
{
    if parts.len() == 0 {
        None
    } else {
        match parts[0] {
            Err(error) => Some(error),
            Ok(_) => first_failure(parts.subrange(1, parts.len() as int)),
        }
    }
}

/// The pointer file that publishes manifest `manifest_id` once its list and
/// its new parts are written. If one of those writes failed, the list's
/// failure counts first, then the first of the parts'.
pub fn commit_manifest(
    manifest_id: u64,
    list: Result<ListWriteResult, CommitError>,
    parts: Vec<Result<PartWriteResult, CommitError>>,
) -> (res: Result<PointerFile, CommitError>)
    ensures
        list matches Err(error) ==> res == Err::<PointerFile, CommitError>(contention_of(error)),
        list matches Ok(written) ==> match first_failure(parts@) {
            Some(error) => res == Err::<PointerFile, CommitError>(contention_of(error)),
            None => res matches Ok(pointer) && pointer@ == (PointerView {
                manifest_id,
                manifest_list_uri: written.uri@,
                content_hash: written.content_hash@,
            }),
        },
        res is Ok <==> list is Ok && forall|i: int|
            0 <= i < parts@.len() ==> (#[trigger] parts@[i]) is Ok,
{
    proof {
        let first = lemma_some_first(parts@);
        lemma_first_failure(parts@, first);
    }
    let written = match list {
        Ok(written) => written,
        Err(error) => {
            return Err(translate_contention(error));
        },
    };
    assert(parts@.skip(0) =~= parts@);
    for part in it: parts
        invariant
            it.seq() == parts@,
            list == Ok::<ListWriteResult, CommitError>(written),
            first_failure(parts@) == first_failure(parts@.skip(it.index() as int)),
    {
        let ghost rest = parts@.skip(it.index() as int);
        assert(rest.subrange(1, rest.len() as int) =~= parts@.skip(it.index() + 1));
        if let Err(error) = part {
            return Err(translate_contention(error));
        }
    }
    Ok(
        PointerFile {
            manifest_id,
            manifest_list_uri: written.uri,
            content_hash: written.content_hash,
        },
    )
}

/// Of the part writes, the first that failed is the first failure, and there
/// is none exactly if every write succeeded.
pub proof fn lemma_first_failure(parts: Seq<Result<PartWriteResult, CommitError>>, i: int)
    requires
        0 <= i <= parts.len(),
        forall|j: int| 0 <= j < i ==> (#[trigger] parts[j]) is Ok,
        i < parts.len() ==> parts[i] is Err,
    ensures
        first_failure(parts) is None <==> i == parts.len(),
        i < parts.len() ==> first_failure(parts) == Some(parts[i]->Err_0),
    decreases parts.len(),
{
    if i > 0 {
        let rest = parts.subrange(1, parts.len() as int);
        assert(parts[0] is Ok);
        assert forall|j: int| 0 <= j < i - 1 implies (#[trigger] rest[j]) is Ok by {
            assert(rest[j] == parts[j + 1]);
        }
        lemma_first_failure(rest, i - 1);
    }
}

/// The place of the first part write that failed; their number if none did.
proof fn lemma_some_first(parts: Seq<Result<PartWriteResult, CommitError>>) -> (i: int)
    ensures
        0 <= i <= parts.len(),
        forall|j: int| 0 <= j < i ==> (#[trigger] parts[j]) is Ok,
        i < parts.len() ==> parts[i] is Err,
    decreases parts.len(),
{
    if parts.len() == 0 {
        0
    } else {
        let rest = parts.drop_last();
        let i = lemma_some_first(rest);
        assert forall|j: int| 0 <= j < i implies (#[trigger] parts[j]) is Ok by {
            assert(rest[j] == parts[j]);
        }
        if i < rest.len() {
            assert(rest[i] == parts[i]);
            i
        } else if parts.last() is Ok {
            parts.len() as int
        } else {
            i
        }
    }
}

/// A commit gives a pointer file exactly if the write of the list and every
/// write of a part succeeded. Otherwise it fails: with the list's error if
/// that write failed, else with the error of the first part write that failed.
/// A lost race for an object is contention; every other error comes out as it
/// went in. The pointer file has the number of the manifest, and the place and
/// the digest of the list that was written.
pub proof fn lemma_commit_needs_every_write(
    manifest_id: u64,
    list: Result<ListWriteResult, CommitError>,
    parts: Vec<Result<PartWriteResult, CommitError>>,
    res: Result<PointerFile, CommitError>,
)
    requires
        call_ensures(commit_manifest, (manifest_id, list, parts), res),
    ensures
        res is Ok <==> list is Ok && forall|i: int|
            0 <= i < parts@.len() ==> (#[trigger] parts@[i]) is Ok,
        res matches Ok(pointer) ==> pointer.manifest_id == manifest_id
            && pointer.manifest_list_uri@ == list->Ok_0.uri@ && pointer.content_hash@
            == list->Ok_0.content_hash@,
        list matches Err(error) ==> res is Err && (if error is Storage
            && error->Storage_0 is PreconditionFailed {
            res->Err_0 is WriteContentionExhausted
        } else {
            res->Err_0 == error
        }),
        forall|i: int|
            list is Ok && 0 <= i < parts@.len() && (#[trigger] parts@[i]) is Err && (forall|j: int|
                0 <= j < i ==> (#[trigger] parts@[j]) is Ok) ==> res is Err && (if parts@[i]->Err_0
                is Storage && parts@[i]->Err_0->Storage_0 is PreconditionFailed {
                res->Err_0 is WriteContentionExhausted
            } else {
                res->Err_0 == parts@[i]->Err_0
            }),
{
    let first = lemma_some_first(parts@);
    lemma_first_failure(parts@, first);
    assert forall|i: int|
        list is Ok && 0 <= i < parts@.len() && (#[trigger] parts@[i]) is Err && (forall|j: int|
            0 <= j < i ==> (#[trigger] parts@[j]) is Ok) implies res is Err && (if parts@[i]->Err_0
        is Storage && parts@[i]->Err_0->Storage_0 is PreconditionFailed {
        res->Err_0 is WriteContentionExhausted
    } else {
        res->Err_0 == parts@[i]->Err_0
    }) by {
        lemma_first_failure(parts@, i);
    }
}

// ---- What storage holds after a commit --------------------------------------

/// The objects in storage, by URI.
pub type Objects = Map<Seq<char>, Seq<u8>>;

/// Storage after a write that must not replace an object.
pub open spec fn put_new(objects: Objects, uri: Seq<char>, bytes: Seq<u8>) -> Objects {
    if objects.contains_key(uri) {
        objects
    } else {
        objects.insert(uri, bytes)
    }
}

/// Storage after the writes of encoded parts.
pub open spec fn with_parts(objects: Objects, parts: Seq<Seq<u8>>) -> Objects
    decreases parts.len(),
{
    if parts.len() == 0 {
        objects
    } else {
        put_new(
            with_parts(objects, parts.drop_last()),
            part_uri_chars(blake3_digest(parts.last())),
            parts.last(),
        )
    }
}

/// The pointer file that publishes manifest `manifest_id` with its encoded
/// list.
pub open spec fn published(manifest_id: u64, json: Seq<u8>) -> PointerView {
    PointerView {
        manifest_id,
        manifest_list_uri: list_uri_chars(manifest_id),
        content_hash: blake3_digest(json),
    }
}

/// Storage after a commit that no other writer disturbs: the list and the new
/// parts are written, then the pointer file.
pub open spec fn committed(
    objects: Objects,
    manifest_id: u64,
    json: Seq<u8>,
    parts: Seq<Seq<u8>>,
) -> Objects {
    with_parts(put_new(objects, list_uri_chars(manifest_id), json), parts).insert(
        POINTER_PATH@,
        vstd::utf8::encode_utf8(pointer_text(published(manifest_id, json))),
    )
}

/// Is `uri` that of one of the encoded parts?
pub open spec fn is_part_of(parts: Seq<Seq<u8>>, uri: Seq<char>) -> bool {
    exists|i: int| 0 <= i < parts.len() && uri == part_uri_chars(blake3_digest(#[trigger] parts[i]))
}

proof fn lemma_uris_differ(manifest_id: u64, hash: Seq<u8>)
    ensures
        list_uri_chars(manifest_id) != POINTER_PATH@,
        part_uri_chars(hash) != POINTER_PATH@,
        part_uri_chars(hash) != list_uri_chars(manifest_id),
{
    reveal_strlit("_supertable/current");
    reveal_strlit("manifest-lists");
    reveal_strlit("manifests");
    assert(POINTER_PATH@[0] == '_');
    assert(list_uri_chars(manifest_id)[0] == 'm');
    assert(part_uri_chars(hash)[0] == 'm');
    assert(list_uri_chars(manifest_id)[8] == '-');
    assert(part_uri_chars(hash)[8] == 's');
}

proof fn lemma_with_parts(objects: Objects, parts: Seq<Seq<u8>>, uri: Seq<char>)
    ensures
        objects.contains_key(uri) ==> with_parts(objects, parts).contains_key(uri) && with_parts(
            objects,
            parts,
        )[uri] == objects[uri],
        with_parts(objects, parts).contains_key(uri) <==> objects.contains_key(uri) || is_part_of(
            parts,
            uri,
        ),
        !objects.contains_key(uri) && is_part_of(parts, uri) ==> parts.contains(
            with_parts(objects, parts)[uri],
        ) && uri == part_uri_chars(blake3_digest(with_parts(objects, parts)[uri])),
    decreases parts.len(),
{
    if parts.len() > 0 {
        let rest = parts.drop_last();
        let last = parts.len() - 1;
        lemma_with_parts(objects, rest, uri);
        if is_part_of(rest, uri) {
            let i = choose|i: int|
                0 <= i < rest.len() && uri == part_uri_chars(blake3_digest(#[trigger] rest[i]));
            assert(uri == part_uri_chars(blake3_digest(parts[i])));
            if !objects.contains_key(uri) {
                let bytes = with_parts(objects, rest)[uri];
                let k = choose|k: int| 0 <= k < rest.len() && rest[k] == bytes;
                assert(parts[k] == bytes);
            }
        }
        if uri == part_uri_chars(blake3_digest(parts.last())) {
            assert(uri == part_uri_chars(blake3_digest(parts[last])));
            assert(parts[last] == parts.last());
        } else if is_part_of(parts, uri) {
            let i = choose|i: int|
                0 <= i < parts.len() && uri == part_uri_chars(blake3_digest(#[trigger] parts[i]));
            assert(uri == part_uri_chars(blake3_digest(rest[i])));
        }
    }
}

/// After a commit, the list lies under the URI that the pointer file names and
/// has the digest that it names; the pointer file reads back; every new part
/// lies under the URI of its digest; and no other object has changed.
pub proof fn lemma_commit_is_visible(
    objects: Objects,
    manifest_id: u64,
    json: Seq<u8>,
    parts: Seq<Seq<u8>>,
)
    requires
        !objects.contains_key(list_uri_chars(manifest_id)),
        blake3_digest(json).len() == 32,
    ensures
        ({
            let after = committed(objects, manifest_id, json, parts);
            let pointer = published(manifest_id, json);
            &&& after.contains_key(pointer.manifest_list_uri)
            &&& after[pointer.manifest_list_uri] == json
            &&& pointer.content_hash == blake3_digest(after[pointer.manifest_list_uri])
            &&& after.contains_key(POINTER_PATH@)
            &&& pointer_of_bytes(after[POINTER_PATH@]) == Ok::<PointerView, Seq<char>>(pointer)
            &&& forall|i: int|
                0 <= i < parts.len() ==> after.contains_key(
                    part_uri_chars(blake3_digest(#[trigger] parts[i])),
                )
            &&& forall|uri: Seq<char>|
                after.contains_key(uri) && !objects.contains_key(uri) && #[trigger] is_part_of(
                    parts,
                    uri,
                ) ==> parts.contains(after[uri]) && uri == part_uri_chars(
                    blake3_digest(after[uri]),
                )
            &&& forall|uri: Seq<char>| #[trigger]
                objects.contains_key(uri) && uri != POINTER_PATH@ ==> after.contains_key(uri)
                    && after[uri] == objects[uri]
            &&& forall|uri: Seq<char>| #[trigger]
                after.contains_key(uri) ==> objects.contains_key(uri) || uri == POINTER_PATH@
                    || uri == pointer.manifest_list_uri || is_part_of(parts, uri)
        }),
{
    let list = list_uri_chars(manifest_id);
    let with_list = put_new(objects, list, json);
    let after = committed(objects, manifest_id, json, parts);
    lemma_published_pointer_reads_back(manifest_id, blake3_digest(json));
    lemma_uris_differ(manifest_id, Seq::empty());
    lemma_with_parts(with_list, parts, list);
    assert forall|i: int| 0 <= i < parts.len() implies after.contains_key(
        part_uri_chars(blake3_digest(#[trigger] parts[i])),
    ) by {
        let uri = part_uri_chars(blake3_digest(parts[i]));
        assert(is_part_of(parts, uri));
        lemma_with_parts(with_list, parts, uri);
    }
    assert forall|uri: Seq<char>|
        after.contains_key(uri) && !objects.contains_key(uri) && #[trigger] is_part_of(
            parts,
            uri,
        ) implies parts.contains(after[uri]) && uri == part_uri_chars(
        blake3_digest(after[uri]),
    ) by {
        let i = choose|i: int|
            0 <= i < parts.len() && uri == part_uri_chars(blake3_digest(#[trigger] parts[i]));
        lemma_uris_differ(manifest_id, blake3_digest(parts[i]));
        lemma_with_parts(with_list, parts, uri);
    }
    assert forall|uri: Seq<char>| #[trigger]
        objects.contains_key(uri) && uri != POINTER_PATH@ implies after.contains_key(uri)
        && after[uri] == objects[uri] by {
        lemma_with_parts(with_list, parts, uri);
    }
    assert forall|uri: Seq<char>| #[trigger] after.contains_key(uri) implies objects.contains_key(
        uri,
    ) || uri == POINTER_PATH@ || uri == list || is_part_of(parts, uri) by {
        lemma_with_parts(with_list, parts, uri);
    }
}

// ---- What is read and what writes mean --------------------------------------

/// A text is its lines: what stands before a line feed, without a carriage
/// return at its end, is a line, and what stands behind the last line feed is
/// one if it is not empty.
pub proof fn lemma_lines(line: Seq<char>, rest: Seq<char>)
    requires
        forall|k: int| 0 <= k < line.len() ==> (#[trigger] line[k]) != '\n',
    ensures
        lines_of(line + seq!['\n'] + rest) == seq![
            if line.len() > 0 && line[line.len() - 1] == '\r' {
                line.take(line.len() - 1)
            } else {
                line
            },
        ] + lines_of(rest),
        line.len() > 0 ==> lines_of(line) == seq![line],
        line.len() == 0 ==> lines_of(line).len() == 0,
{
    let s = line + seq!['\n'] + rest;
    let i = line.len() as int;
    assert(s[i] == '\n');
    assert forall|k: int| 0 <= k < i implies (#[trigger] s[k]) != '\n' by {
        assert(s[k] == line[k]);
    }
    lemma_first_index(s, '\n', i);
    assert(s.subrange(0, i) =~= line);
    assert(s.subrange(i + 1, s.len() as int) =~= rest);
    lemma_first_index(line, '\n', i);
}

/// A line sets the field that its key names to what stands behind the first
/// equals sign, whatever the field was before. A number that does not parse
/// or a digest that is none is an error; an unknown key changes nothing.
pub proof fn lemma_line_sets_its_field(draft: PointerDraft, key: Seq<char>, value: Seq<char>)
    requires
        forall|k: int| 0 <= k < key.len() ==> (#[trigger] key[k]) != '=',
    ensures
        ({
            let read = read_line(draft, key + seq!['='] + value);
            let number = read_decimal(value, u64::MAX as nat);
            let hash = hash_of_value(value);
            &&& key == "manifest_id"@ ==> (read is Ok <==> number is Ok) && (read matches Ok(d)
                ==> d.manifest_id == Some(number->Ok_0 as u64) && d.manifest_list_uri
                == draft.manifest_list_uri && d.content_hash == draft.content_hash)
            &&& key == "manifest_list_uri"@ ==> (read matches Ok(d) && d.manifest_list_uri == Some(
                value,
            ) && d.manifest_id == draft.manifest_id && d.content_hash == draft.content_hash)
            &&& key == "content_hash"@ ==> (read is Ok <==> hash is Ok) && (read matches Ok(d)
                ==> d.content_hash == Some(hash->Ok_0) && d.manifest_id == draft.manifest_id
                && d.manifest_list_uri == draft.manifest_list_uri)
            &&& key != "manifest_id"@ && key != "manifest_list_uri"@ && key != "content_hash"@
                ==> read == Ok::<PointerDraft, Seq<char>>(draft)
        }),
{
    lemma_key_splits(key, value);
    reveal_strlit("manifest_id");
    reveal_strlit("manifest_list_uri");
    reveal_strlit("content_hash");
    assert("manifest_id"@.len() == 11);
    assert("manifest_list_uri"@.len() == 17);
    assert("content_hash"@.len() == 12);
    assert((key + seq!['='] + value).len() > 0);
}

/// A line without an equals sign is an error, unless it is empty.
pub proof fn lemma_line_without_key(draft: PointerDraft, line: Seq<char>)
    requires
        forall|k: int| 0 <= k < line.len() ==> (#[trigger] line[k]) != '=',
    ensures
        line.len() > 0 ==> read_line(draft, line) is Err,
        line.len() == 0 ==> read_line(draft, line) == Ok::<PointerDraft, Seq<char>>(draft),
{
    lemma_first_index(line, '=', line.len() as int);
}

/// Lines are read one after the other, and the first error ends the reading.
pub proof fn lemma_lines_are_read_in_turn(lines: Seq<Seq<char>>, line: Seq<char>)
    ensures
        read_lines(lines) is Err ==> read_lines(lines.push(line)) == read_lines(lines),
        read_lines(lines) matches Ok(draft) ==> read_lines(lines.push(line)) == read_line(
            draft,
            line,
        ),
        read_lines(Seq::empty()) matches Ok(draft) && draft.manifest_id is None
            && draft.manifest_list_uri is None && draft.content_hash is None,
{
    assert(lines.push(line).drop_last() =~= lines);
}

/// A digest value is the prefix and 64 digits, whose digest it is; nothing else
/// is one.
pub proof fn lemma_digest_values(value: Seq<char>)
    ensures
        hash_of_value(value) is Ok ==> value.len() == 71 && value.take(7) == "blake3:"@ && is_hex(
            value.skip(7),
        ) && hash_of_value(value)->Ok_0 == unhex(value.skip(7)),
{
    reveal_strlit("blake3:");
    assert("blake3:"@.len() == 7);
}

/// A pointer file is complete only with all three fields, and has them as they
/// were read.
pub proof fn lemma_pointer_needs_every_field(draft: PointerDraft)
    ensures
        pointer_of_draft(draft) is Ok <==> draft.manifest_id is Some && draft.manifest_list_uri
            is Some && draft.content_hash is Some,
        pointer_of_draft(draft) matches Ok(pointer) ==> draft.manifest_id == Some(
            pointer.manifest_id,
        ) && draft.manifest_list_uri == Some(pointer.manifest_list_uri) && draft.content_hash
            == Some(pointer.content_hash),
{
}

/// Only where storage has no pointer file is the table fresh. Every other
/// failure of storage is an error, and so is a pointer file that does not
/// parse.
pub proof fn lemma_only_a_missing_pointer_is_fresh(
    fetched: Result<Vec<u8>, StorageError>,
    res: Result<Option<PointerFile>, CommitError>,
)
    requires
        call_ensures(read_pointer, (fetched,), res),
    ensures
        (res is Ok && res->Ok_0 is None) <==> fetched is Err && fetched->Err_0 is NotFound,
        fetched is Err && !(fetched->Err_0 is NotFound) ==> res == Err::<
            Option<PointerFile>,
            CommitError,
        >(CommitError::Storage(fetched->Err_0)),
        fetched matches Ok(bytes) ==> (res is Ok <==> pointer_of_bytes(bytes@) is Ok) && (res
            matches Ok(Some(pointer)) ==> pointer_of_bytes(bytes@) == Ok::<
            PointerView,
            Seq<char>,
        >(pointer@)),
{
}

/// A writer whose list or pointer file meets one that is there has lost the
/// race, and its commit fails with contention; a part that is there already
/// does not stop it.
pub proof fn lemma_lost_races(
    manifest_id: u64,
    put: Result<(), StorageError>,
    list: ListWriteResult,
    list_res: Result<ListWriteResult, CommitError>,
    part: PartWrite,
    part_res: Result<PartWriteResult, CommitError>,
    pointer_res: Result<(), CommitError>,
    parts: Vec<Result<PartWriteResult, CommitError>>,
    res: Result<PointerFile, CommitError>,
)
    requires
        put is Err,
        call_ensures(write_manifest_list, (list, put), list_res),
        call_ensures(write_manifest_part, (part, put), part_res),
        call_ensures(write_pointer, (put,), pointer_res),
        call_ensures(commit_manifest, (manifest_id, list_res, parts), res),
    ensures
        res is Err,
        put->Err_0 is PreconditionFailed ==> res->Err_0 is WriteContentionExhausted && pointer_res
            is Err && pointer_res->Err_0 is WriteContentionExhausted && part_res == Ok::<
            PartWriteResult,
            CommitError,
        >(part.result),
        !(put->Err_0 is PreconditionFailed) ==> res->Err_0 == CommitError::Storage(put->Err_0)
            && pointer_res == Err::<(), CommitError>(CommitError::Storage(put->Err_0)) && part_res
            == Err::<PartWriteResult, CommitError>(CommitError::Storage(put->Err_0)),
{
}

/// Writes that storage took count as done.
pub proof fn lemma_done_writes(
    list: ListWriteResult,
    list_res: Result<ListWriteResult, CommitError>,
    part: PartWrite,
    part_res: Result<PartWriteResult, CommitError>,
    pointer_res: Result<(), CommitError>,
)
    requires
        call_ensures(write_manifest_list, (list, Ok::<(), StorageError>(())), list_res),
        call_ensures(write_manifest_part, (part, Ok::<(), StorageError>(())), part_res),
        call_ensures(write_pointer, (Ok::<(), StorageError>(()),), pointer_res),
    ensures
        list_res == Ok::<ListWriteResult, CommitError>(list),
        part_res == Ok::<PartWriteResult, CommitError>(part.result),
        pointer_res is Ok,
{
}

/// A part that is prepared lies under the URI of the digest of its bytes, and
/// its bytes decode to the part again.
pub proof fn lemma_prepared_part_decodes(
    part: ManifestPart,
    zstd_level: i32,
    res: Result<PartWrite, CommitError>,
)
    requires
        call_ensures(prepare_manifest_part, (&part, zstd_level), res),
    ensures
        res is Ok,
        res->Ok_0.result.part_id == part.part_id,
        res->Ok_0.result.content_hash@ == blake3_digest(res->Ok_0.bytes@),
        res->Ok_0.result.uri@ == part_uri_chars(blake3_digest(res->Ok_0.bytes@)),
        res->Ok_0.result.size_bytes_compressed == res->Ok_0.bytes@.len(),
        part_is_readable(part@) ==> part_of(res->Ok_0.bytes@, Map::empty()) == Ok::<
            part::PartView,
            PartFault,
        >(part@),
{
    part::lemma_nothing_refused(part@);
}

/// A pointer file that is written is read again as it was, whatever its number
/// and its digest, and whatever its URI if that fits on a line.
pub proof fn lemma_written_pointer_is_read(
    pointer: PointerFile,
    bytes: Vec<u8>,
    stored: &[u8],
    res: Result<PointerFile, CommitError>,
)
    requires
        call_ensures(PointerFile::to_bytes, (&pointer,), bytes),
        stored@ == bytes@,
        call_ensures(PointerFile::from_bytes, (stored,), res),
        forall|k: int|
            0 <= k < pointer.manifest_list_uri@.len() ==> (
            #[trigger] pointer.manifest_list_uri@[k]) != '\n',
        pointer.manifest_list_uri@.len() > 0 ==> pointer.manifest_list_uri@[
            pointer.manifest_list_uri@.len() - 1] != '\r',
    ensures
        res is Ok,
        res->Ok_0.manifest_id == pointer.manifest_id,
        res->Ok_0.manifest_list_uri@ == pointer.manifest_list_uri@,
        res->Ok_0.content_hash@ == pointer.content_hash@,
{
    assert(pointer.content_hash@.len() == 32);
    assert(pointer_is_readable(pointer@));
    lemma_pointer_reads_back(pointer@);
}

/// A pointer file is written over the version that was expected, or only if
/// there is none; and what is written reads as it.
pub proof fn lemma_pointer_replaces_what_was_expected(
    pointer: PointerFile,
    expected: Option<String>,
    write: PointerWrite,
    json: &[u8],
    list: ListWriteResult,
    manifest_id: u64,
)
    requires
        call_ensures(prepare_pointer, (&pointer, expected), write),
        call_ensures(prepare_manifest_list, (manifest_id, json), list),
    ensures
        write.if_match == expected,
        write.path@ == POINTER_PATH@,
        pointer_is_readable(pointer@) ==> pointer_of_bytes(write.bytes@) == Ok::<
            PointerView,
            Seq<char>,
        >(pointer@),
        list.content_hash@ == blake3_digest(json@),
        list.size_bytes == json@.len(),
        list.uri@ == list_uri_chars(manifest_id),
{
    if pointer_is_readable(pointer@) {
        lemma_pointer_reads_back(pointer@);
    }
}

} // verus!
