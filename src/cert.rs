//! Reading an attestation report certificate: the fields that the
//! certificate carries, located in its DER bytes.
use vstd::prelude::*;

verus! {

/// DER encoding of the prime256v1 curve's object identifier.
pub const PRIME256V1_OID: [u8; 10] = [0x06, 0x08, 0x2A, 0x86, 0x48, 0xCE, 0x3D, 0x03, 0x01, 0x07];

/// DER encoding of the Netscape comment extension's object identifier.
pub const NS_COMMENT_OID: [u8; 11] = [0x06, 0x09, 0x60, 0x86, 0x48, 0x01, 0x86, 0xF8, 0x42, 0x01, 0x0D];

/// Separator of the fields in the Netscape comment.
pub const FIELD_SEPARATOR: u8 = 0x7C;

/// Length of a PEM certificate's header line, "-----BEGIN CERTIFICATE-----".
pub const PEM_HEAD_LEN: usize = 27;

/// Length of a PEM certificate's footer line, "-----END CERTIFICATE-----".
pub const PEM_TAIL_LEN: usize = 25;

/// Why a report certificate cannot be read.
#[derive(Debug, PartialEq, Eq, Structural)]
pub enum CertError {
    /// No public key field, or one that runs past the certificate's end.
    NoPublicKey,
    /// No comment field, or one that runs past the certificate's end.
    NoPayload,
    /// The comment holds fewer than three fields.
    MissingField,
    /// A signature field is not valid base64.
    BadBase64,
    /// The report has no timestamp, or its quote status is not "OK".
    BadReport,
    /// A PEM certificate too short for its header and footer, or whose body
    /// is not valid base64.
    BadPem,
}

/// The fields of a report certificate, as they stand in its bytes.
pub struct RawReportCert {
    pub public_key: Vec<u8>,
    pub report: Vec<u8>,
    pub signature_b64: Vec<u8>,
    pub signing_cert_b64: Vec<u8>,
}

/// A report certificate's fields, signatures decoded.
pub struct ReportCert {
    pub public_key: Vec<u8>,
    pub report: Vec<u8>,
    pub signature: Vec<u8>,
    pub signing_cert: Vec<u8>,
}

/// The first index, from `i` on, at which `needle` occurs in `hay`.
pub open spec fn find_from(hay: Seq<u8>, needle: Seq<u8>, i: nat) -> Option<nat>
    decreases hay.len() + 1 - i,
{
    if i + needle.len() > hay.len() {
        None
    } else if hay.subrange(i as int, (i + needle.len()) as int) == needle {
        Some(i)
    } else {
        find_from(hay, needle, i + 1)
    }
}

/// A DER length at `off`: the short form, one byte, or (above 0x80) the
/// two bytes that follow, big-endian. The length and where the content starts.
/// Any first byte above 0x80 is read as the two-byte long form, the only one
/// report certificates use for these fields; a one-byte long form (0x81) is
/// not told apart.
pub open spec fn der_length(b: Seq<u8>, off: nat) -> Option<(nat, nat)> {
    if off >= b.len() {
        None
    } else if b[off as int] > 0x80 {
        if off + 2 < b.len() {
            Some(((b[off + 1 as int] as nat) * 256 + (b[off + 2 as int] as nat), off + 3))
        } else {
            None
        }
    } else {
        Some((b[off as int] as nat, off + 1))
    }
}

/// The length and content start of the field that follows the first
/// occurrence of `oid`, `skip` bytes after where `oid` starts.
pub open spec fn oid_field(b: Seq<u8>, oid: Seq<u8>, skip: nat) -> Option<(nat, nat)> {
    match find_from(b, oid, 0) {
        Some(i) => der_length(b, i + skip),
        None => None,
    }
}

/// The separated fields of `s`, scanning from `i`, the current field having
/// begun at `start`.
pub open spec fn fields_scan(s: Seq<u8>, start: nat, i: nat) -> Seq<Seq<u8>>
    decreases s.len() - i,
{
    if i >= s.len() {
        seq![s.subrange(start as int, s.len() as int)]
    } else if s[i as int] == FIELD_SEPARATOR {
        seq![s.subrange(start as int, i as int)] + fields_scan(s, i + 1, i + 1)
    } else {
        fields_scan(s, start, i + 1)
    }
}

/// The fields of `s` between separators, in order.
pub open spec fn fields_of(s: Seq<u8>) -> Seq<Seq<u8>> {
    fields_scan(s, 0, 0)
}

/// The public key: the field after the curve identifier, without its
/// leading two bytes.
pub open spec fn public_key_of(b: Seq<u8>) -> Option<Seq<u8>> {
    match oid_field(b, PRIME256V1_OID@, 11) {
        Some((len, start)) => if 2 <= len && start + len <= b.len() {
            Some(b.subrange(start + 2 as int, (start + len) as int))
        } else {
            None
        },
        None => None,
    }
}

/// The comment's content.
pub open spec fn payload_of(b: Seq<u8>) -> Option<Seq<u8>> {
    match oid_field(b, NS_COMMENT_OID@, 12) {
        Some((len, start)) => if start + len <= b.len() {
            Some(b.subrange(start as int, (start + len) as int))
        } else {
            None
        },
        None => None,
    }
}

/// Whether `needle` occurs in `hay` at `i`.
fn matches_at(hay: &[u8], needle: &[u8], i: usize) -> (r: bool)
    requires
        i <= hay@.len(),
    ensures
        r == (i + needle@.len() <= hay@.len() && hay@.subrange(i as int, i + needle@.len())
            == needle@),
{
    if needle.len() > hay.len() - i {
        return false;
    }
    let mut k: usize = 0;
    while k < needle.len()
        invariant
            i + needle@.len() <= hay@.len(),
            hay@.len() <= usize::MAX,
            k <= needle@.len(),
            forall|m: int| 0 <= m < k ==> hay@[i + m] == needle@[m],
        decreases needle@.len() - k,
    {
        if hay[i + k] != needle[k] {
            assert(hay@.subrange(i as int, i + needle@.len())[k as int] != needle@[k as int]);
            return false;
        }
        k = k + 1;
    }
    assert(hay@.subrange(i as int, i + needle@.len()) =~= needle@);
    true
}

/// The first index at which `needle` occurs in `hay`.
pub fn find(hay: &[u8], needle: &[u8]) -> (r: Option<usize>)
    ensures
        r matches Some(i) ==> find_from(hay@, needle@, 0) == Some(i as nat),
        r is None ==> find_from(hay@, needle@, 0) is None,
{
    if needle.len() == 0 {
        assert(hay@.subrange(0, 0) =~= needle@);
        return Some(0);
    }
    let mut i: usize = 0;
    loop
        invariant
            i <= hay@.len(),
            needle@.len() >= 1,
            find_from(hay@, needle@, 0) == find_from(hay@, needle@, i as nat),
        decreases hay@.len() - i,
    {
        if needle.len() > hay.len() - i {
            return None;
        }
        if matches_at(hay, needle, i) {
            return Some(i);
        }
        i = i + 1;
    }
}

fn der_length_at(b: &[u8], off: usize) -> (r: Option<(usize, usize)>)
    ensures
        r matches Some((l, s)) ==> der_length(b@, off as nat) == Some((l as nat, s as nat)),
        r is None ==> der_length(b@, off as nat) is None,
{
    if off >= b.len() {
        None
    } else if b[off] > 0x80 {
        if b.len() - off > 2 {
            Some(((b[off + 1] as usize) * 256 + (b[off + 2] as usize), off + 3))
        } else {
            None
        }
    } else {
        Some((b[off] as usize, off + 1))
    }
}

fn oid_field_at(b: &[u8], oid: &[u8], skip: usize) -> (r: Option<(usize, usize)>)
    ensures
        r matches Some((l, s)) ==> oid_field(b@, oid@, skip as nat) == Some((l as nat, s as nat)),
        r is None ==> oid_field(b@, oid@, skip as nat) is None,
{
    match find(b, oid) {
        Some(i) => {
            if i >= b.len() || skip >= b.len() - i {
                None
            } else {
                der_length_at(b, i + skip)
            }
        },
        None => None,
    }
}

/// The bytes of `s` from `from` up to `to`.
fn copy_range(s: &[u8], from: usize, to: usize) -> (r: Vec<u8>)
    requires
        from <= to <= s@.len(),
    ensures
        r@ == s@.subrange(from as int, to as int),
{
    let mut r: Vec<u8> = Vec::new();
    let mut i: usize = from;
    while i < to
        invariant
            from <= i <= to <= s@.len(),
            r@ == s@.subrange(from as int, i as int),
        decreases to - i,
    {
        r.push(s[i]);
        i = i + 1;
        assert(r@ =~= s@.subrange(from as int, i as int));
    }
    r
}

/// The fields of `s` between separators, in order.
pub fn split_fields(s: &[u8]) -> (r: Vec<Vec<u8>>)
    ensures
        r@.len() == fields_of(s@).len(),
        forall|k: int| 0 <= k < r@.len() ==> #[trigger] r@[k]@ == fields_of(s@)[k],
{
    let mut out: Vec<Vec<u8>> = Vec::new();
    let ghost done: Seq<Seq<u8>> = Seq::empty();
    let mut start: usize = 0;
    let mut i: usize = 0;
    assert(done + fields_scan(s@, 0, 0) =~= fields_of(s@));
    while i < s.len()
        invariant
            start <= i <= s@.len(),
            out@.len() == done.len(),
            forall|k: int| 0 <= k < out@.len() ==> #[trigger] out@[k]@ == done[k],
            done + fields_scan(s@, start as nat, i as nat) == fields_of(s@),
        decreases s@.len() - i,
    {
        if s[i] == FIELD_SEPARATOR {
            let f = copy_range(s, start, i);
            proof {
                let rest = fields_scan(s@, (i + 1) as nat, (i + 1) as nat);
                assert(fields_scan(s@, start as nat, i as nat) == seq![f@] + rest);
                assert(done + (seq![f@] + rest) =~= done.push(f@) + rest);
                done = done.push(f@);
            }
            out.push(f);
            start = i + 1;
        }
        i = i + 1;
    }
    let f = copy_range(s, start, s.len());
    proof {
        assert(fields_scan(s@, start as nat, i as nat) == seq![f@]);
        assert(done + seq![f@] =~= done.push(f@));
        done = done.push(f@);
    }
    out.push(f);
    out
}

/// The fields of a report certificate: its public key and, from its
/// comment, the report, the report's signature and the signing certificate
/// (both in base64).
pub open spec fn raw_report_of(b: Seq<u8>) -> Result<(Seq<u8>, Seq<u8>, Seq<u8>, Seq<u8>), CertError> {
    match public_key_of(b) {
        None => Err(CertError::NoPublicKey),
        Some(pk) => match payload_of(b) {
            None => Err(CertError::NoPayload),
            Some(p) => {
                let f = fields_of(p);
                if f.len() < 3 {
                    Err(CertError::MissingField)
                } else {
                    Ok((pk, f[0], f[1], f[2]))
                }
            },
        },
    }
}

/// Locates the fields of the report certificate `cert_der`.
pub fn split_report_cert(cert_der: &[u8]) -> (r: Result<RawReportCert, CertError>)
    ensures
        r is Ok <==> raw_report_of(cert_der@) is Ok,
        r is Err ==> raw_report_of(cert_der@) == Err::<(Seq<u8>, Seq<u8>, Seq<u8>, Seq<u8>), CertError>(r->Err_0),
        r is Ok ==> raw_report_of(cert_der@) == Ok::<(Seq<u8>, Seq<u8>, Seq<u8>, Seq<u8>), CertError>((
            r->Ok_0.public_key@,
            r->Ok_0.report@,
            r->Ok_0.signature_b64@,
            r->Ok_0.signing_cert_b64@,
        )),
{
    let p256 = PRIME256V1_OID;
    let ns = NS_COMMENT_OID;
    let public_key = match oid_field_at(cert_der, p256.as_slice(), 11) {
        Some((len, start)) => {
            if len < 2 || start > cert_der.len() || len > cert_der.len() - start {
                return Err(CertError::NoPublicKey);
            }
            copy_range(cert_der, start + 2, start + len)
        },
        None => {
            return Err(CertError::NoPublicKey);
        },
    };
    let payload = match oid_field_at(cert_der, ns.as_slice(), 12) {
        Some((len, start)) => {
            if start > cert_der.len() || len > cert_der.len() - start {
                return Err(CertError::NoPayload);
            }
            copy_range(cert_der, start, start + len)
        },
        None => {
            return Err(CertError::NoPayload);
        },
    };
    let mut fields = split_fields(payload.as_slice());
    if fields.len() < 3 {
        return Err(CertError::MissingField);
    }
    let ghost f = fields@;
    fields.truncate(3);
    let signing_cert_b64 = fields.pop().unwrap();
    let signature_b64 = fields.pop().unwrap();
    let report = fields.pop().unwrap();
    proof {
        assert(f[0]@ == fields_of(payload@)[0]);
        assert(f[1]@ == fields_of(payload@)[1]);
        assert(f[2]@ == fields_of(payload@)[2]);
    }
    Ok(RawReportCert { public_key, report, signature_b64, signing_cert_b64 })
}

#[verifier::external_type_specification]
#[verifier::external_body]
pub struct ExDecodeError(base64::DecodeError);

/// The bytes that `s` encodes in standard base64, or `None` where `s` is not
/// valid base64.
pub uninterp spec fn base64_decoded(s: Seq<u8>) -> Option<Seq<u8>>;

/// Relies on `base64::decode` (standard alphabet; trailing padding may be
/// left out): the bytes `s` encodes, or an error where it is not valid
/// base64; the outcome depends on `s` alone. It panics only where computing
/// its buffer size (`s.len() + 3`) or chunk count (`s.len() + 7`) overflows.
#[verifier::external_body]
fn decode_base64(s: &[u8]) -> (r: Result<Vec<u8>, base64::DecodeError>)
    requires
        s@.len() + 7 <= usize::MAX,
    ensures
        r is Ok <==> base64_decoded(s@) is Some,
        r is Ok ==> r->Ok_0@ == base64_decoded(s@)->Some_0,
{
    base64::decode(s)
}

/// Decodes the two base64 fields of a located report certificate.
pub fn decode_report_cert(raw: RawReportCert) -> (r: Result<ReportCert, CertError>)
    requires
        raw.signature_b64@.len() + 7 <= usize::MAX,
        raw.signing_cert_b64@.len() + 7 <= usize::MAX,
    ensures
        r is Ok <==> base64_decoded(raw.signature_b64@) is Some && base64_decoded(
            raw.signing_cert_b64@,
        ) is Some,
        r is Err ==> r == Err::<ReportCert, CertError>(CertError::BadBase64),
        r is Ok ==> r->Ok_0.public_key@ == raw.public_key@,
        r is Ok ==> r->Ok_0.report@ == raw.report@,
        r is Ok ==> r->Ok_0.signature@ == base64_decoded(raw.signature_b64@)->Some_0,
        r is Ok ==> r->Ok_0.signing_cert@ == base64_decoded(raw.signing_cert_b64@)->Some_0,
{
    let signature = match decode_base64(raw.signature_b64.as_slice()) {
        Ok(v) => v,
        Err(_) => {
            return Err(CertError::BadBase64);
        },
    };
    let signing_cert = match decode_base64(raw.signing_cert_b64.as_slice()) {
        Ok(v) => v,
        Err(_) => {
            return Err(CertError::BadBase64);
        },
    };
    Ok(ReportCert { public_key: raw.public_key, report: raw.report, signature, signing_cert })
}

/// Accepts a report that has a timestamp and whose quote status is "OK".
pub fn check_report_status(has_timestamp: bool, quote_status: Option<Vec<u8>>) -> (r: Result<
    (),
    CertError,
>)
    ensures
        r is Ok <==> has_timestamp && quote_status is Some && quote_status->Some_0@ == seq![
            0x4Fu8,
            0x4Bu8,
        ],
        r is Err ==> r == Err::<(), CertError>(CertError::BadReport),
{
    if !has_timestamp {
        return Err(CertError::BadReport);
    }
    match quote_status {
        Some(s) => {
            if s.len() == 2 && s[0] == 0x4F && s[1] == 0x4B {
                assert(s@ =~= seq![0x4Fu8, 0x4Bu8]);
                Ok(())
            } else {
                Err(CertError::BadReport)
            }
        },
        None => Err(CertError::BadReport),
    }
}

/// `s` without its carriage returns and line feeds.
pub open spec fn without_line_breaks(s: Seq<u8>) -> Seq<u8>
    decreases s.len(),
{
    if s.len() == 0 {
        Seq::empty()
    } else {
        let rest = without_line_breaks(s.subrange(0, s.len() - 1));
        let last = s[s.len() - 1];
        if last == 0x0d || last == 0x0a {
            rest
        } else {
            rest.push(last)
        }
    }
}

/// The base64 body of a PEM certificate: its bytes without line breaks, less
/// the header and footer.
pub open spec fn pem_body(pem: Seq<u8>) -> Option<Seq<u8>> {
    let s = without_line_breaks(pem);
    if s.len() < PEM_HEAD_LEN + PEM_TAIL_LEN {
        None
    } else {
        Some(s.subrange(PEM_HEAD_LEN as int, s.len() - PEM_TAIL_LEN))
    }
}

proof fn lemma_without_line_breaks_len(s: Seq<u8>)
    ensures
        without_line_breaks(s).len() <= s.len(),
    decreases s.len(),
{
    if s.len() > 0 {
        lemma_without_line_breaks_len(s.subrange(0, s.len() - 1));
    }
}

/// The bytes of `s` other than carriage returns and line feeds.
pub fn strip_line_breaks(s: &[u8]) -> (r: Vec<u8>)
    ensures
        r@ == without_line_breaks(s@),
{
    let mut r: Vec<u8> = Vec::new();
    let mut i: usize = 0;
    assert(s@.subrange(0, 0) =~= Seq::<u8>::empty());
    while i < s.len()
        invariant
            i <= s@.len(),
            r@ == without_line_breaks(s@.subrange(0, i as int)),
        decreases s@.len() - i,
    {
        let b = s[i];
        assert(s@.subrange(0, i + 1).subrange(0, i as int) =~= s@.subrange(0, i as int));
        if b != 0x0d && b != 0x0a {
            r.push(b);
        }
        i = i + 1;
    }
    assert(s@.subrange(0, s@.len() as int) =~= s@);
    r
}

/// Decodes the certificate in PEM text `pem`.
pub fn decode_pem_certificate(pem: &[u8]) -> (r: Result<Vec<u8>, CertError>)
    requires
        pem@.len() + 7 <= usize::MAX,
    ensures
        r is Ok <==> (pem_body(pem@) is Some && base64_decoded(pem_body(pem@)->Some_0) is Some),
        r is Err ==> r == Err::<Vec<u8>, CertError>(CertError::BadPem),
        r is Ok ==> r->Ok_0@ == base64_decoded(pem_body(pem@)->Some_0)->Some_0,
{
    let stripped = strip_line_breaks(pem);
    proof {
        lemma_without_line_breaks_len(pem@);
    }
    if stripped.len() < PEM_HEAD_LEN + PEM_TAIL_LEN {
        return Err(CertError::BadPem);
    }
    let body = copy_range(stripped.as_slice(), PEM_HEAD_LEN, stripped.len() - PEM_TAIL_LEN);
    match decode_base64(body.as_slice()) {
        Ok(v) => Ok(v),
        Err(_) => Err(CertError::BadPem),
    }
}

} // verus!
