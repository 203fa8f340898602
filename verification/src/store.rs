//! The blob-store layer that both backends share: backend tags, the
//! deterministic blob-name scheme, and the opaque locator codec that the
//! ledger persists as `backend_data`.

use crate::digits::canonical_digits;
use crate::digits::dec_str;
use crate::digits::dec_val;
use crate::digits::digit_run_end;
use crate::digits::is_digit;
use crate::digits::lemma_canonical_roundtrip;
use crate::digits::lemma_dec_str_injective;
use crate::digits::lemma_dec_str_val;
use crate::digits::lemma_dec_str_wf;
use crate::digits::lemma_digit_run_end;
use crate::digits::lemma_digit_run_of_rendering;
use crate::digits::lemma_pad_str_injective;
use crate::digits::lemma_pad_str_wf;
use crate::digits::pad_str;
use crate::digits::parse_digit_run;
use crate::digits::u64_to_dec;
use crate::digits::u64_to_dec_pad;
use vstd::prelude::*;

verus! {

/// The storage backends this process can dispatch to.
#[derive(Clone, Copy, PartialEq, Eq, Structural, Debug)]
pub enum StorageBackendType {
    LocalFS,
    Garage,
}

impl StorageBackendType {
    /// The stable tag persisted as `backend_type` in ledger rows.
    pub open spec fn spec_tag(self) -> Seq<char> {
        match self {
            StorageBackendType::LocalFS => "local_fs"@,
            StorageBackendType::Garage => "garage"@,
        }
    }

    /// identifier to know which implementation to use when one wants to
    /// manipulate a file.
    pub fn get_type(&self) -> (t: &'static str)
        ensures
            t@ == self.spec_tag(),
    {
        match self {
            StorageBackendType::LocalFS => "local_fs",
            StorageBackendType::Garage => "garage",
        }
    }
}

/// The metadata representing an incoming file to be persisted: the token's
/// identity, the index of the field within the upload, the attempt that owns
/// it, and the client-supplied file metadata.
pub struct InitFile {
    pub token_id: u64,
    pub token_path: String,
    pub file_index: u64,
    pub attempt_counter: u64,
    pub mime_type: Option<String>,
    pub file_name: Option<String>,
}

/// The blob name derived from a token id, an attempt counter and a field
/// index.  Attempts and indices are zero-padded as the backends expect.
pub open spec fn spec_blob_name(token_id: nat, attempt: nat, index: nat) -> Seq<char> {
    dec_str(token_id) + seq!['_'] + pad_str(attempt, 2) + seq!['_'] + pad_str(index, 3)
}

/// Renders the blob name for one upload field.
pub fn blob_name(token_id: u64, attempt: u64, index: u64) -> (s: String)
    ensures
        s@ == spec_blob_name(token_id as nat, attempt as nat, index as nat),
{
    let mut s = u64_to_dec(token_id);
    s.append("_");
    let a = u64_to_dec_pad(attempt, 2);
    s.append(a.as_str());
    s.append("_");
    let i = u64_to_dec_pad(index, 3);
    s.append(i.as_str());
    proof {
        reveal_strlit("_");
        assert("_"@ =~= seq!['_']);
        assert(s@ =~= spec_blob_name(token_id as nat, attempt as nat, index as nat));
    }
    s
}

/// If two strings, each assembled as "prefix, separator, rest" with no
/// separator inside the prefix, are equal, then prefixes and rests agree.
pub proof fn lemma_sep_split(x1: Seq<char>, y1: Seq<char>, x2: Seq<char>, y2: Seq<char>, sep: char)
    requires
        x1 + seq![sep] + y1 == x2 + seq![sep] + y2,
        forall|i: int| 0 <= i < x1.len() ==> #[trigger] x1[i] != sep,
        forall|i: int| 0 <= i < x2.len() ==> #[trigger] x2[i] != sep,
    ensures
        x1 == x2,
        y1 == y2,
{
    let s1 = x1 + seq![sep] + y1;
    let s2 = x2 + seq![sep] + y2;
    assert(s1.len() == s2.len());
    if x1.len() < x2.len() {
        assert(s1[x1.len() as int] == sep);
        assert(s2[x1.len() as int] == x2[x1.len() as int]);
        assert(false);
    }
    if x2.len() < x1.len() {
        assert(s2[x2.len() as int] == sep);
        assert(s1[x2.len() as int] == x1[x2.len() as int]);
        assert(false);
    }
    assert(x1 =~= x2) by {
        assert(forall|i: int| 0 <= i < x1.len() ==> s1[i] == #[trigger] x1[i] && s2[i] == x2[i]);
    }
    assert(seq![sep].len() == 1);
    assert(s1.len() == x1.len() + 1 + y1.len());
    assert(s2.len() == x2.len() + 1 + y2.len());
    assert(y1.len() == y2.len());
    assert forall|i: int| 0 <= i < y1.len() implies y1[i] == y2[i] by {
        assert(s1[x1.len() + 1 + i] == y1[i]);
        assert(s2[x2.len() + 1 + i] == y2[i]);
        assert(s1[x1.len() + 1 + i] == s2[x2.len() + 1 + i]);
    }
    assert(y1 =~= y2);
}

/// Blob names never collide: distinct (token, attempt, index) triples give
/// distinct names, so concurrent attempts never overwrite each other.
pub proof fn lemma_blob_name_injective(
    t1: nat,
    a1: nat,
    i1: nat,
    t2: nat,
    a2: nat,
    i2: nat,
)
    requires
        spec_blob_name(t1, a1, i1) == spec_blob_name(t2, a2, i2),
    ensures
        t1 == t2,
        a1 == a2,
        i1 == i2,
{
    lemma_dec_str_wf(t1);
    lemma_dec_str_wf(t2);
    lemma_pad_str_wf(a1, 2);
    lemma_pad_str_wf(a2, 2);
    lemma_pad_str_wf(i1, 3);
    lemma_pad_str_wf(i2, 3);
    let r1 = pad_str(a1, 2) + seq!['_'] + pad_str(i1, 3);
    let r2 = pad_str(a2, 2) + seq!['_'] + pad_str(i2, 3);
    assert(dec_str(t1) + seq!['_'] + r1 =~= spec_blob_name(t1, a1, i1));
    assert(dec_str(t2) + seq!['_'] + r2 =~= spec_blob_name(t2, a2, i2));
    assert(forall|j: int| 0 <= j < dec_str(t1).len() ==> #[trigger] dec_str(t1)[j] != '_') by {
        assert(forall|j: int|
            0 <= j < dec_str(t1).len() ==> is_digit(#[trigger] dec_str(t1)[j]));
    }
    assert(forall|j: int| 0 <= j < dec_str(t2).len() ==> #[trigger] dec_str(t2)[j] != '_') by {
        assert(forall|j: int|
            0 <= j < dec_str(t2).len() ==> is_digit(#[trigger] dec_str(t2)[j]));
    }
    lemma_sep_split(dec_str(t1), r1, dec_str(t2), r2, '_');
    lemma_dec_str_injective(t1, t2);
    assert(forall|j: int| 0 <= j < pad_str(a1, 2).len() ==> #[trigger] pad_str(a1, 2)[j] != '_')
        by {
        assert(forall|j: int|
            0 <= j < pad_str(a1, 2).len() ==> is_digit(#[trigger] pad_str(a1, 2)[j]));
    }
    assert(forall|j: int| 0 <= j < pad_str(a2, 2).len() ==> #[trigger] pad_str(a2, 2)[j] != '_')
        by {
        assert(forall|j: int|
            0 <= j < pad_str(a2, 2).len() ==> is_digit(#[trigger] pad_str(a2, 2)[j]));
    }
    lemma_sep_split(pad_str(a1, 2), pad_str(i1, 3), pad_str(a2, 2), pad_str(i2, 3), '_');
    lemma_pad_str_injective(a1, a2, 2);
    lemma_pad_str_injective(i1, i2, 3);
}

/// The locator of a blob stored on the local filesystem: a path and a format
/// version that future-proofs decoding.
pub struct LocalFsData {
    pub path: String,
    pub version: u8,
}

/// The locator of a blob stored in the S3-compatible object store.
pub struct GarageData {
    pub bucket: String,
    pub key: String,
}

/// An opaque, serializable locator: everything needed to later read or delete
/// a blob, whichever backend wrote it.
pub enum Locator {
    LocalFs(LocalFsData),
    Garage(GarageData),
}

impl Locator {
    /// Which backend this locator belongs to.
    pub fn backend(&self) -> (b: StorageBackendType)
        ensures
            b == (match *self {
                Locator::LocalFs(_) => StorageBackendType::LocalFS,
                Locator::Garage(_) => StorageBackendType::Garage,
            }),
    {
        match self {
            Locator::LocalFs(_) => StorageBackendType::LocalFS,
            Locator::Garage(_) => StorageBackendType::Garage,
        }
    }
}

/// The serialized form of a locator, as persisted in `backend_data`.
/// The version (resp. bucket length) is rendered canonically, so the format
/// is self-describing and uniquely parseable.
pub open spec fn spec_encode_locator(l: Locator) -> Seq<char> {
    match l {
        Locator::LocalFs(d) => "local_fs:"@ + dec_str(d.version as nat) + seq![':'] + d.path@,
        Locator::Garage(g) => "garage:"@ + dec_str(g.bucket@.len()) + seq![':'] + g.bucket@
            + g.key@,
    }
}

proof fn lemma_lit_facts()
    ensures
        "local_fs:"@.len() == 9,
        "garage:"@.len() == 7,
        "local_fs:"@[0] == 'l',
        "garage:"@[0] == 'g',
        ":"@ =~= seq![':'],
        !is_digit(':'),
        !is_digit('l'),
        !is_digit('g'),
{
    reveal_strlit("local_fs:");
    reveal_strlit("garage:");
    reveal_strlit(":");
}

/// Shape facts about a serialized local-filesystem locator.
proof fn lemma_enc_local_shape(d: LocalFsData)
    ensures
        ({
            let s = spec_encode_locator(Locator::LocalFs(d));
            let run = dec_str(d.version as nat);
            let e = 9 + run.len() as int;
            &&& s.len() == e + 1 + d.path@.len()
            &&& s.subrange(0, 9) == "local_fs:"@
            &&& s.subrange(9, e as int) == run
            &&& digit_run_end(s, 9) == e
            &&& s[e as int] == ':'
            &&& s.subrange(e + 1, s.len() as int) == d.path@
            &&& dec_val(s.subrange(9, e as int)) == d.version as nat
        }),
{
    lemma_lit_facts();
    lemma_dec_str_wf(d.version as nat);
    lemma_dec_str_val(d.version as nat);
    let s = spec_encode_locator(Locator::LocalFs(d));
    let run = dec_str(d.version as nat);
    let e = 9 + run.len() as int;
    assert(s == "local_fs:"@ + run + seq![':'] + d.path@);
    assert(s.len() == e + 1 + d.path@.len());
    assert(s.subrange(0, 9) =~= "local_fs:"@);
    assert(s.subrange(9, e as int) =~= run);
    assert(s[e as int] == ':');
    assert(s.subrange(e + 1, s.len() as int) =~= d.path@);
    lemma_digit_run_of_rendering(s, 9, run);
}

/// Shape facts about a serialized object-store locator.
proof fn lemma_enc_garage_shape(g: GarageData)
    ensures
        ({
            let s = spec_encode_locator(Locator::Garage(g));
            let run = dec_str(g.bucket@.len());
            let e = 7 + run.len() as int;
            &&& s.len() == e + 1 + g.bucket@.len() + g.key@.len()
            &&& s.subrange(0, 7) == "garage:"@
            &&& s.subrange(7, e as int) == run
            &&& digit_run_end(s, 7) == e
            &&& s[e as int] == ':'
            &&& s.subrange(e + 1, e + 1 + g.bucket@.len() as int) == g.bucket@
            &&& s.subrange(e + 1 + g.bucket@.len() as int, s.len() as int) == g.key@
            &&& dec_val(s.subrange(7, e as int)) == g.bucket@.len()
        }),
{
    lemma_lit_facts();
    lemma_dec_str_wf(g.bucket@.len());
    lemma_dec_str_val(g.bucket@.len());
    let s = spec_encode_locator(Locator::Garage(g));
    let run = dec_str(g.bucket@.len());
    let e = 7 + run.len() as int;
    assert(s == "garage:"@ + run + seq![':'] + g.bucket@ + g.key@);
    assert(s.len() == e + 1 + g.bucket@.len() + g.key@.len());
    assert(s.subrange(0, 7) =~= "garage:"@);
    assert(s.subrange(7, e as int) =~= run);
    assert(s[e as int] == ':');
    assert(s.subrange(e + 1, e + 1 + g.bucket@.len() as int) =~= g.bucket@);
    assert(s.subrange(e + 1 + g.bucket@.len() as int, s.len() as int) =~= g.key@);
    lemma_digit_run_of_rendering(s, 7, run);
}

/// Serialization is injective: equal serialized forms mean the same backend
/// and the same field contents.
pub proof fn lemma_encode_locator_injective(l1: Locator, l2: Locator)
    requires
        spec_encode_locator(l1) == spec_encode_locator(l2),
    ensures
        ({
            match (l1, l2) {
                (Locator::LocalFs(d1), Locator::LocalFs(d2)) => d1.path@ == d2.path@
                    && d1.version == d2.version,
                (Locator::Garage(g1), Locator::Garage(g2)) => g1.bucket@ == g2.bucket@ && g1.key@
                    == g2.key@,
                _ => false,
            }
        }),
{
    lemma_lit_facts();
    let s1 = spec_encode_locator(l1);
    let s2 = spec_encode_locator(l2);
    match (l1, l2) {
        (Locator::LocalFs(d1), Locator::LocalFs(d2)) => {
            lemma_enc_local_shape(d1);
            lemma_enc_local_shape(d2);
            let r1 = dec_str(d1.version as nat);
            let r2 = dec_str(d2.version as nat);
            lemma_dec_str_wf(d1.version as nat);
            lemma_dec_str_wf(d2.version as nat);
            assert(s1 =~= ("local_fs:"@ + r1) + seq![':'] + d1.path@);
            assert(s2 =~= ("local_fs:"@ + r2) + seq![':'] + d2.path@);
            let x1 = "local_fs:"@ + r1;
            let x2 = "local_fs:"@ + r2;
            assert(digit_run_end(s1, 9) == 9 + r1.len());
            assert(digit_run_end(s1, 9) == 9 + r2.len()) by {
                assert(s1 == s2);
            }
            assert(r1.len() == r2.len());
            assert(r1 =~= r2) by {
                assert(forall|i: int|
                    0 <= i < r1.len() ==> #[trigger] r1[i] == s1.subrange(9, 9 + r1.len() as int)[i]
                        && r2[i] == s2.subrange(9, 9 + r2.len() as int)[i]);
            }
            lemma_dec_str_injective(d1.version as nat, d2.version as nat);
            assert(d1.path@ =~= d2.path@) by {
                assert(d1.path@ == s1.subrange(9 + r1.len() as int + 1, s1.len() as int));
                assert(d2.path@ == s2.subrange(9 + r2.len() as int + 1, s2.len() as int));
            }
        },
        (Locator::Garage(g1), Locator::Garage(g2)) => {
            lemma_enc_garage_shape(g1);
            lemma_enc_garage_shape(g2);
            let r1 = dec_str(g1.bucket@.len());
            let r2 = dec_str(g2.bucket@.len());
            assert(digit_run_end(s1, 7) == 7 + r1.len());
            assert(digit_run_end(s1, 7) == 7 + r2.len()) by {
                assert(s1 == s2);
            }
            assert(r1.len() == r2.len());
            assert(r1 =~= r2) by {
                assert(forall|i: int|
                    0 <= i < r1.len() ==> #[trigger] r1[i] == s1.subrange(7, 7 + r1.len() as int)[i]
                        && r2[i] == s2.subrange(7, 7 + r2.len() as int)[i]);
            }
            lemma_dec_str_injective(g1.bucket@.len(), g2.bucket@.len());
            assert(g1.bucket@.len() == g2.bucket@.len());
            let e = 7 + r1.len() as int;
            assert(g1.bucket@ =~= g2.bucket@) by {
                assert(g1.bucket@ == s1.subrange(e + 1, e + 1 + g1.bucket@.len() as int));
                assert(g2.bucket@ == s2.subrange(e + 1, e + 1 + g2.bucket@.len() as int));
            }
            assert(g1.key@ =~= g2.key@) by {
                assert(g1.key@ == s1.subrange(e + 1 + g1.bucket@.len() as int, s1.len() as int));
                assert(g2.key@ == s2.subrange(e + 1 + g2.bucket@.len() as int, s2.len() as int));
            }
        },
        (Locator::LocalFs(d1), Locator::Garage(g2)) => {
            assert(s1[0] == 'l') by {
                assert(s1.subrange(0, 9)[0] == s1[0]) by {
                    lemma_enc_local_shape(d1);
                }
                lemma_enc_local_shape(d1);
            }
            assert(s2[0] == 'g') by {
                lemma_enc_garage_shape(g2);
                assert(s2.subrange(0, 7)[0] == s2[0]);
            }
        },
        (Locator::Garage(g1), Locator::LocalFs(d2)) => {
            assert(s1[0] == 'g') by {
                lemma_enc_garage_shape(g1);
                assert(s1.subrange(0, 7)[0] == s1[0]);
            }
            assert(s2[0] == 'l') by {
                lemma_enc_local_shape(d2);
                assert(s2.subrange(0, 9)[0] == s2[0]);
            }
        },
    }
}

/// Serializes a locator for persistence as `backend_data`.
pub fn encode_locator(l: &Locator) -> (s: String)
    ensures
        s@ == spec_encode_locator(*l),
{
    proof {
        lemma_lit_facts();
    }
    match l {
        Locator::LocalFs(d) => {
            let mut s = String::from_str("local_fs:");
            let v = u64_to_dec(d.version as u64);
            s.append(v.as_str());
            s.append(":");
            s.append(d.path.as_str());
            proof {
                assert(s@ =~= spec_encode_locator(*l));
            }
            s
        },
        Locator::Garage(g) => {
            let mut s = String::from_str("garage:");
            let bl = g.bucket.as_str().unicode_len();
            let v = u64_to_dec(bl as u64);
            s.append(v.as_str());
            s.append(":");
            s.append(g.bucket.as_str());
            s.append(g.key.as_str());
            proof {
                assert(s@ =~= spec_encode_locator(*l));
            }
            s
        },
    }
}

/// Does `s` start with the characters of `p`?
fn has_prefix(s: &str, p: &str) -> (r: bool)
    ensures
        r == (s@.len() >= p@.len() && s@.subrange(0, p@.len() as int) == p@),
{
    let sn = s.unicode_len();
    let pn = p.unicode_len();
    if sn < pn {
        return false;
    }
    let mut i: usize = 0;
    while i < pn
        invariant
            0 <= i <= pn,
            pn <= sn,
            sn == s@.len(),
            pn == p@.len(),
            forall|j: int| 0 <= j < i ==> s@[j] == p@[j],
        decreases pn - i,
    {
        let cs = s.get_char(i);
        let cp = p.get_char(i);
        if cs != cp {
            proof {
                assert(s@.subrange(0, p@.len() as int)[i as int] != p@[i as int]);
            }
            return false;
        }
        i = i + 1;
    }
    proof {
        assert(s@.subrange(0, p@.len() as int) =~= p@);
    }
    true
}
/// A string that starts with the local-filesystem prefix cannot be a
/// serialized object-store locator.
proof fn lemma_local_prefix_excludes_garage(s: Seq<char>, g: GarageData)
    requires
        s.len() >= 9,
        s.subrange(0, 9) == "local_fs:"@,
    ensures
        s != spec_encode_locator(Locator::Garage(g)),
{
    lemma_lit_facts();
    lemma_enc_garage_shape(g);
    let t = spec_encode_locator(Locator::Garage(g));
    assert(t.subrange(0, 7)[0] == t[0]);
    assert(t[0] == 'g');
    assert(s.subrange(0, 9)[0] == s[0]);
    assert(s[0] == 'l');
}

/// A string that starts with the object-store prefix cannot be a serialized
/// local-filesystem locator.
proof fn lemma_garage_prefix_excludes_local(s: Seq<char>, d: LocalFsData)
    requires
        s.len() >= 7,
        s.subrange(0, 7) == "garage:"@,
    ensures
        s != spec_encode_locator(Locator::LocalFs(d)),
{
    lemma_lit_facts();
    lemma_enc_local_shape(d);
    let t = spec_encode_locator(Locator::LocalFs(d));
    assert(t.subrange(0, 9)[0] == t[0]);
    assert(t[0] == 'l');
    assert(s.subrange(0, 7)[0] == s[0]);
    assert(s[0] == 'g');
}

/// Deserializes a locator.  Exactly the strings produced by
/// `encode_locator` are accepted: whenever some locator serializes to `s`,
/// decoding succeeds, and whatever decoding returns serializes back to `s`.
pub fn decode_locator(s: &str) -> (r: Option<Locator>)
    ensures
        r matches Some(l) ==> s@ == spec_encode_locator(l),
        forall|l: Locator| s@ == spec_encode_locator(l) ==> r is Some,
{
    proof {
        lemma_lit_facts();
    }
    let n = s.unicode_len();
    if has_prefix(s, "local_fs:") {
        let parsed = parse_digit_run(s, 9);
        let mut failed: bool = false;
        let mut v: u64 = 0;
        let mut e: usize = 9;
        match parsed {
            Option::None => {
                failed = true;
            },
            Option::Some((pv, pe)) => {
                v = pv;
                e = pe;
                let c0 = s.get_char(9);
                if e > 10 && c0 == '0' {
                    failed = true;
                } else if v > 255 {
                    failed = true;
                } else if e >= n {
                    failed = true;
                } else {
                    let ce = s.get_char(e);
                    if ce != ':' {
                        failed = true;
                    }
                }
            },
        }
        if failed {
            proof {
                assert forall|l: Locator| s@ != spec_encode_locator(l) by {
                    if s@ == spec_encode_locator(l) {
                        match l {
                            Locator::LocalFs(d) => {
                                lemma_enc_local_shape(d);
                                lemma_dec_str_wf(d.version as nat);
                                let run = dec_str(d.version as nat);
                                assert(digit_run_end(s@, 9) == 9 + run.len());
                                assert(dec_val(s@.subrange(9, digit_run_end(s@, 9))) == (
                                d.version as nat));
                                if run.len() > 1 {
                                    assert(run[0] == s@.subrange(9, 9 + run.len() as int)[0]);
                                    assert(run[0] != '0');
                                }
                                assert(false);
                            },
                            Locator::Garage(g) => {
                                lemma_local_prefix_excludes_garage(s@, g);
                            },
                        }
                    }
                }
            }
            None
        } else {
            let path_slice = s.substring_char(e + 1, n);
            let path = path_slice.to_owned();
            let d = LocalFsData { path, version: v as u8 };
            proof {
                let run = s@.subrange(9, e as int);
                lemma_digit_run_end(s@, 9);
                assert(canonical_digits(run)) by {
                    assert(forall|j: int| 0 <= j < run.len() ==> #[trigger] run[j] == s@[9 + j]);
                }
                lemma_canonical_roundtrip(run);
                assert(dec_str(d.version as nat) == run);
                assert(s@ =~= "local_fs:"@ + run + seq![':'] + d.path@);
                assert(s@ == spec_encode_locator(Locator::LocalFs(d)));
            }
            Some(Locator::LocalFs(d))
        }
    } else if has_prefix(s, "garage:") {
        let parsed = parse_digit_run(s, 7);
        let mut failed: bool = false;
        let mut v: u64 = 0;
        let mut e: usize = 7;
        match parsed {
            Option::None => {
                failed = true;
            },
            Option::Some((pv, pe)) => {
                v = pv;
                e = pe;
                let c0 = s.get_char(7);
                if e > 8 && c0 == '0' {
                    failed = true;
                } else if e >= n {
                    failed = true;
                } else {
                    let ce = s.get_char(e);
                    if ce != ':' {
                        failed = true;
                    } else if v > (n - (e + 1)) as u64 {
                        failed = true;
                    }
                }
            },
        }
        if failed {
            proof {
                assert forall|l: Locator| s@ != spec_encode_locator(l) by {
                    if s@ == spec_encode_locator(l) {
                        match l {
                            Locator::Garage(g) => {
                                lemma_enc_garage_shape(g);
                                lemma_dec_str_wf(g.bucket@.len());
                                let run = dec_str(g.bucket@.len());
                                assert(digit_run_end(s@, 7) == 7 + run.len());
                                assert(dec_val(s@.subrange(7, digit_run_end(s@, 7))) == g.bucket@.len());
                                if run.len() > 1 {
                                    assert(run[0] == s@.subrange(7, 7 + run.len() as int)[0]);
                                    assert(run[0] != '0');
                                }
                                assert(false);
                            },
                            Locator::LocalFs(d) => {
                                lemma_garage_prefix_excludes_local(s@, d);
                            },
                        }
                    }
                }
            }
            None
        } else {
            let bl = v as usize;
            let bucket_slice = s.substring_char(e + 1, e + 1 + bl);
            let bucket = bucket_slice.to_owned();
            let key_slice = s.substring_char(e + 1 + bl, n);
            let key = key_slice.to_owned();
            let g = GarageData { bucket, key };
            proof {
                let run = s@.subrange(7, e as int);
                lemma_digit_run_end(s@, 7);
                assert(canonical_digits(run)) by {
                    assert(forall|j: int| 0 <= j < run.len() ==> #[trigger] run[j] == s@[7 + j]);
                }
                lemma_canonical_roundtrip(run);
                assert(g.bucket@.len() == v as nat);
                assert(dec_str(g.bucket@.len()) == run);
                assert(s@ =~= "garage:"@ + run + seq![':'] + g.bucket@ + g.key@);
                assert(s@ == spec_encode_locator(Locator::Garage(g)));
            }
            Some(Locator::Garage(g))
        }
    } else {
        proof {
            assert forall|l: Locator| s@ != spec_encode_locator(l) by {
                if s@ == spec_encode_locator(l) {
                    match l {
                        Locator::LocalFs(d) => {
                            lemma_enc_local_shape(d);
                        },
                        Locator::Garage(g) => {
                            lemma_enc_garage_shape(g);
                        },
                    }
                }
            }
        }
        None
    }
}

/// The pure core of the local-filesystem backend: where each blob lives.
/// Opening, syncing, reading and removing the files is the embedding
/// program's job; the path scheme and the locator are fixed here.
pub struct LocalFsUploader {
    pub base_path: String,
    pub version: u8,
}

/// The path under `base` at which one upload field is stored.
pub open spec fn spec_blob_path(base: Seq<char>, token_id: nat, attempt: nat, index: nat) -> Seq<
    char,
> {
    base + seq!['/'] + spec_blob_name(token_id, attempt, index)
}

impl LocalFsUploader {
    pub fn new(base_path: String) -> (s: Self)
        ensures
            s.base_path == base_path,
            s.version == 0,
    {
        LocalFsUploader { base_path, version: 0 }
    }

    /// identifier to know which implementation to use when one wants to
    /// manipulate a file.
    pub fn get_type(&self) -> (t: &'static str)
        ensures
            t@ == StorageBackendType::LocalFS.spec_tag(),
    {
        "local_fs"
    }

    /// The locator this backend will use for one upload field; it is derived
    /// deterministically from the token id, the attempt counter and the field
    /// index, so concurrent attempts never collide.
    pub fn locator_for(&self, init: &InitFile) -> (d: LocalFsData)
        ensures
            d.path@ == spec_blob_path(
                self.base_path@,
                init.token_id as nat,
                init.attempt_counter as nat,
                init.file_index as nat,
            ),
            d.version == self.version,
    {
        let mut path = self.base_path.clone();
        path.append("/");
        let name = blob_name(init.token_id, init.attempt_counter, init.file_index);
        path.append(name.as_str());
        proof {
            reveal_strlit("/");
            assert("/"@ =~= seq!['/']);
            assert(path@ =~= spec_blob_path(
                self.base_path@,
                init.token_id as nat,
                init.attempt_counter as nat,
                init.file_index as nat,
            ));
        }
        LocalFsData { path, version: self.version }
    }
}

/// Under one storage root, distinct (token, attempt, index) triples are
/// stored at distinct paths.
pub proof fn lemma_blob_path_injective(
    base: Seq<char>,
    t1: nat,
    a1: nat,
    i1: nat,
    t2: nat,
    a2: nat,
    i2: nat,
)
    requires
        spec_blob_path(base, t1, a1, i1) == spec_blob_path(base, t2, a2, i2),
    ensures
        t1 == t2,
        a1 == a2,
        i1 == i2,
{
    let p1 = spec_blob_path(base, t1, a1, i1);
    let p2 = spec_blob_path(base, t2, a2, i2);
    let n1 = spec_blob_name(t1, a1, i1);
    let n2 = spec_blob_name(t2, a2, i2);
    assert(p1.len() == base.len() + 1 + n1.len());
    assert(p2.len() == base.len() + 1 + n2.len());
    assert(n1.len() == n2.len());
    assert(n1 =~= n2) by {
        assert forall|j: int| 0 <= j < n1.len() implies n1[j] == n2[j] by {
            assert(p1[base.len() + 1 + j] == n1[j]);
            assert(p2[base.len() + 1 + j] == n2[j]);
        }
    }
    lemma_blob_name_injective(t1, a1, i1, t2, a2, i2);
}

/// The object-store key for one upload field: the client-supplied file name
/// when there is one, else the derived blob name.
pub open spec fn spec_garage_key(init: InitFile) -> Seq<char> {
    match init.file_name {
        Option::Some(n) => n@,
        Option::None => spec_blob_name(
            init.token_id as nat,
            init.attempt_counter as nat,
            init.file_index as nat,
        ),
    }
}

/// Derives the object-store key for one upload field.
pub fn garage_key(init: &InitFile) -> (k: String)
    ensures
        k@ == spec_garage_key(*init),
{
    match &init.file_name {
        Option::Some(n) => n.clone(),
        Option::None => blob_name(init.token_id, init.attempt_counter, init.file_index),
    }
}


/// Character-for-character string equality.
pub fn str_eq(a: &str, b: &str) -> (r: bool)
    ensures
        r == (a@ == b@),
{
    let an = a.unicode_len();
    let bn = b.unicode_len();
    if an != bn {
        return false;
    }
    let mut i: usize = 0;
    while i < an
        invariant
            0 <= i <= an,
            an == a@.len(),
            bn == b@.len(),
            an == bn,
            forall|j: int| 0 <= j < i ==> a@[j] == b@[j],
        decreases an - i,
    {
        let ca = a.get_char(i);
        let cb = b.get_char(i);
        if ca != cb {
            return false;
        }
        i = i + 1;
    }
    proof {
        assert(a@ =~= b@);
    }
    true
}

} // verus!
