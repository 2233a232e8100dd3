//! Clipboard entries: the values observed on the clipboard, their
//! mathematical model, structural equality, and the coarse fingerprint
//! check the polling loop uses to suppress redundant events.

use vstd::prelude::*;

verus! {

/// Mathematical model of a clipboard entry: text as a sequence of
/// characters, or an image as its mime type, payload bytes and optional
/// thumbnail bytes.
#[verifier::ext_equal]
pub enum EntryModel {
    Text { text: Seq<char> },
    Image { mime: Seq<char>, bytes: Seq<u8>, thumbnail_png: Option<Seq<u8>> },
}

/// One clipboard observation: a text clip, or an image with its mime type,
/// raw bytes, and an optional pre-rendered PNG thumbnail.
pub enum ClipboardEntry {
    Text(String),
    Image { mime: String, bytes: Vec<u8>, thumbnail_png: Option<Vec<u8>> },
}

impl View for ClipboardEntry {
    type V = EntryModel;

    open spec fn view(&self) -> EntryModel {
        match self {
            ClipboardEntry::Text(t) => EntryModel::Text { text: t@ },
            ClipboardEntry::Image { mime, bytes, thumbnail_png } => EntryModel::Image {
                mime: mime@,
                bytes: bytes@,
                thumbnail_png: match thumbnail_png {
                    Some(v) => Some(v@),
                    None => None,
                },
            },
        }
    }
}

/// Element-wise equality of two byte vectors.
fn bytes_eq(a: &Vec<u8>, b: &Vec<u8>) -> (r: bool)
    ensures
        r == (a@ == b@),
{
    if a.len() != b.len() {
        return false;
    }
    let mut i: usize = 0;
    while i < a.len()
        invariant
            i <= a.len(),
            a.len() == b.len(),
            forall|j: int| 0 <= j < i ==> a@[j] == b@[j],
        decreases a.len() - i,
    {
        if a[i] != b[i] {
            return false;
        }
        i = i + 1;
    }
    proof {
        assert(a@ =~= b@);
    }
    true
}

/// Structural (value) equality of two entries: the equality the history's
/// deduplication uses. Two texts are equal when their characters are; two
/// images when mime, bytes and thumbnail all are.
pub fn entry_eq(a: &ClipboardEntry, b: &ClipboardEntry) -> (r: bool)
    ensures
        r == (a@ == b@),
{
    match (a, b) {
        (ClipboardEntry::Text(x), ClipboardEntry::Text(y)) => x.eq(y),
        (
            ClipboardEntry::Image { mime: m1, bytes: b1, thumbnail_png: t1 },
            ClipboardEntry::Image { mime: m2, bytes: b2, thumbnail_png: t2 },
        ) => {
            if !m1.eq(m2) {
                return false;
            }
            if !bytes_eq(b1, b2) {
                return false;
            }
            match (t1, t2) {
                (Some(v1), Some(v2)) => bytes_eq(v1, v2),
                (None, None) => true,
                _ => false,
            }
        },
        _ => false,
    }
}

/// An owned copy of an entry with the same model value.
pub fn clone_entry(e: &ClipboardEntry) -> (r: ClipboardEntry)
    ensures
        r@ == e@,
{
    match e {
        ClipboardEntry::Text(t) => ClipboardEntry::Text(t.clone()),
        ClipboardEntry::Image { mime, bytes, thumbnail_png } => {
            let thumb = match thumbnail_png {
                Some(v) => Some(clone_bytes(v)),
                None => None,
            };
            ClipboardEntry::Image { mime: mime.clone(), bytes: clone_bytes(bytes), thumbnail_png: thumb }
        },
    }
}

/// An owned copy of a byte vector.
fn clone_bytes(v: &Vec<u8>) -> (r: Vec<u8>)
    ensures
        r@ == v@,
{
    let mut out: Vec<u8> = Vec::new();
    let mut i: usize = 0;
    while i < v.len()
        invariant
            i <= v.len(),
            out@ == v@.take(i as int),
        decreases v.len() - i,
    {
        out.push(v[i]);
        proof {
            assert(out@ =~= v@.take(i + 1));
        }
        i = i + 1;
    }
    proof {
        assert(v@.take(v@.len() as int) =~= v@);
    }
    out
}

/// The coarse digest of an entry that the polling loop keeps between polls.
/// Equal entries yield equal fingerprints; the converse need not hold, so
/// the history's own deduplication never relies on it.
#[derive(PartialEq, Eq, Structural, Clone, Copy, Debug)]
pub struct ClipboardFingerprint {
    pub digest: u64,
}

/// Decision kernel of the polling loop: a freshly read entry is handed on
/// to ingestion exactly when its fingerprint differs from the last one seen.
pub fn should_emit(last_seen: &Option<ClipboardFingerprint>, next: &ClipboardFingerprint) -> (r: bool)
    ensures
        r == match last_seen {
            Some(fp) => fp.digest != next.digest,
            None => true,
        },
{
    match last_seen {
        Some(fp) => fp.digest != next.digest,
        None => true,
    }
}

} // verus!
