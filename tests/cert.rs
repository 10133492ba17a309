use anonify::cert::{
    check_report_status, decode_pem_certificate, decode_report_cert, strip_line_breaks, find, split_fields, split_report_cert, CertError,
    NS_COMMENT_OID, PRIME256V1_OID,
};

fn cert_with(payload: &[u8], long_form: bool) -> Vec<u8> {
    let mut c = vec![0x30, 0x82, 0x01, 0x00, 0xAA, 0xBB];
    c.extend_from_slice(&PRIME256V1_OID);
    c.push(0x03);
    c.push(6);
    c.extend_from_slice(&[0x00, 0x04, 0x11, 0x22, 0x33, 0x44]);
    c.extend_from_slice(&[0x55, 0x66]);
    c.extend_from_slice(&NS_COMMENT_OID);
    c.push(0x04);
    if long_form {
        c.push(0x82);
        c.push((payload.len() >> 8) as u8);
        c.push(payload.len() as u8);
    } else {
        c.push(payload.len() as u8);
    }
    c.extend_from_slice(payload);
    c.extend_from_slice(&[0x99, 0x98]);
    c
}

#[test]
fn find_first_occurrence() {
    assert_eq!(find(&[1, 2, 3, 2, 3], &[2, 3]), Some(1));
    assert_eq!(find(&[1, 2, 3], &[3, 4]), None);
    assert_eq!(find(&[1, 2], &[]), Some(0));
    assert_eq!(find(&[], &[1]), None);
}

#[test]
fn split_on_separator() {
    assert_eq!(split_fields(b"a|bc||d"), vec![b"a".to_vec(), b"bc".to_vec(), vec![], b"d".to_vec()]);
    assert_eq!(split_fields(b"abc"), vec![b"abc".to_vec()]);
    assert_eq!(split_fields(b""), vec![Vec::<u8>::new()]);
    assert_eq!(split_fields(b"|"), vec![Vec::<u8>::new(), vec![]]);
}

#[test]
fn locates_report_fields() {
    for long_form in [false, true] {
        let c = cert_with(b"{\"id\":1}|c2ln|Y2VydA==|extra", long_form);
        let raw = split_report_cert(&c).unwrap();
        assert_eq!(raw.public_key, vec![0x11, 0x22, 0x33, 0x44]);
        assert_eq!(raw.report, b"{\"id\":1}".to_vec());
        assert_eq!(raw.signature_b64, b"c2ln".to_vec());
        assert_eq!(raw.signing_cert_b64, b"Y2VydA==".to_vec());
        let dec = decode_report_cert(raw).unwrap();
        assert_eq!(dec.signature, b"sig".to_vec());
        assert_eq!(dec.signing_cert, b"cert".to_vec());
        assert_eq!(dec.public_key, vec![0x11, 0x22, 0x33, 0x44]);
    }
}

#[test]
fn report_cert_errors() {
    assert_eq!(split_report_cert(&[1, 2, 3]).err(), Some(CertError::NoPublicKey));
    let mut no_comment = cert_with(b"r|s|c", false);
    no_comment.truncate(6 + 10 + 2 + 6 + 2);
    assert_eq!(split_report_cert(&no_comment).err(), Some(CertError::NoPayload));
    let mut short = cert_with(b"r|s|c", false);
    let last = short.len() - 2;
    short.truncate(last - 3);
    assert_eq!(split_report_cert(&short).err(), Some(CertError::NoPayload));
    let c = cert_with(b"r|s", false);
    assert_eq!(split_report_cert(&c).err(), Some(CertError::MissingField));
    let c = cert_with(b"r|@@@|Y2VydA==", false);
    let raw = split_report_cert(&c).unwrap();
    assert_eq!(decode_report_cert(raw).err(), Some(CertError::BadBase64));
}

#[test]
fn report_status_rule() {
    assert_eq!(check_report_status(true, Some(b"OK".to_vec())), Ok(()));
    assert_eq!(check_report_status(false, Some(b"OK".to_vec())), Err(CertError::BadReport));
    assert_eq!(check_report_status(true, Some(b"GROUP_OUT_OF_DATE".to_vec())), Err(CertError::BadReport));
    assert_eq!(check_report_status(true, None), Err(CertError::BadReport));
}

#[test]
fn pem_certificate_body() {
    assert_eq!(strip_line_breaks(b"a\r\nb\nc\r"), b"abc".to_vec());
    let pem = b"-----BEGIN CERTIFICATE-----\r\nY2Vy\ndA==\n-----END CERTIFICATE-----\n";
    assert_eq!(decode_pem_certificate(pem), Ok(b"cert".to_vec()));
    assert_eq!(decode_pem_certificate(b"-----BEGIN"), Err(CertError::BadPem));
    let bad = b"-----BEGIN CERTIFICATE-----\n@@@@\n-----END CERTIFICATE-----\n";
    assert_eq!(decode_pem_certificate(bad), Err(CertError::BadPem));
}
