use dns_message_parser::{
    Class, DecodeError, DomainName, SSHFPAlgorithm, SSHFPType, Type, RR, SSHFP,
};

fn owner() -> DomainName {
    DomainName::parse("host.example.org").unwrap()
}

fn record(fp: &[u8]) -> SSHFP {
    SSHFP {
        domain_name: owner(),
        ttl: 3600,
        class: Class::IN,
        algorithm: SSHFPAlgorithm::DSS,
        type_: SSHFPType::Sha1,
        fp: fp.to_vec(),
    }
}

#[test]
fn sshfp_algorithm_codes() {
    assert_eq!(SSHFPAlgorithm::Reserved.to_wire_code(), 0);
    assert_eq!(SSHFPAlgorithm::RSA.to_wire_code(), 1);
    assert_eq!(SSHFPAlgorithm::DSS.to_wire_code(), 2);
    for algorithm in [
        SSHFPAlgorithm::Reserved,
        SSHFPAlgorithm::RSA,
        SSHFPAlgorithm::DSS,
    ] {
        assert_eq!(
            SSHFPAlgorithm::from_wire_code(algorithm.to_wire_code()),
            Ok(algorithm)
        );
    }
    for code in 3..=255u8 {
        assert_eq!(
            SSHFPAlgorithm::from_wire_code(code),
            Err(DecodeError::InvalidEnumValue(code as u16))
        );
    }
}

#[test]
fn sshfp_type_codes() {
    assert_eq!(SSHFPType::Reserved.to_wire_code(), 0);
    assert_eq!(SSHFPType::Sha1.to_wire_code(), 1);
    for type_ in [SSHFPType::Reserved, SSHFPType::Sha1] {
        assert_eq!(SSHFPType::from_wire_code(type_.to_wire_code()), Ok(type_));
    }
    for code in 2..=255u8 {
        assert_eq!(
            SSHFPType::from_wire_code(code),
            Err(DecodeError::InvalidEnumValue(code as u16))
        );
    }
}

#[test]
fn class_codes() {
    assert_eq!(Class::IN.to_wire_code(), 1);
    assert_eq!(Class::CS.to_wire_code(), 2);
    assert_eq!(Class::CH.to_wire_code(), 3);
    assert_eq!(Class::HS.to_wire_code(), 4);
    for class in [Class::IN, Class::CS, Class::CH, Class::HS] {
        assert_eq!(Class::from_wire_code(class.to_wire_code()), Ok(class));
    }
    assert_eq!(
        Class::from_wire_code(0),
        Err(DecodeError::InvalidEnumValue(0))
    );
    for code in 5..=u16::MAX {
        assert_eq!(
            Class::from_wire_code(code),
            Err(DecodeError::InvalidEnumValue(code))
        );
    }
}

#[test]
fn type_codes() {
    assert_eq!(Type::SSHFP.to_wire_code(), 44);
    assert_eq!(Type::from_wire_code(44), Ok(Type::SSHFP));
    for code in 0..=u16::MAX {
        if code != 44 {
            assert_eq!(
                Type::from_wire_code(code),
                Err(DecodeError::InvalidEnumValue(code))
            );
        }
    }
}

#[test]
fn sshfp_decode() {
    let rdata = [0x01, 0x01, 0xAA, 0xBB, 0xCC];
    let decoded = SSHFP::decode(owner(), 300, Class::IN, &rdata).unwrap();
    assert_eq!(decoded.algorithm, SSHFPAlgorithm::RSA);
    assert_eq!(decoded.type_, SSHFPType::Sha1);
    assert_eq!(decoded.fp, vec![0xAA, 0xBB, 0xCC]);
    assert_eq!(decoded.domain_name, owner());
    assert_eq!(decoded.ttl, 300);
    assert_eq!(decoded.class, Class::IN);
    assert_eq!(decoded.to_type(), Type::SSHFP);
}

#[test]
fn sshfp_decode_unknown_algorithm() {
    let rdata = [0xFF, 0x01, 0xAA, 0xBB];
    assert_eq!(
        SSHFP::decode(owner(), 300, Class::IN, &rdata),
        Err(DecodeError::InvalidEnumValue(255))
    );
    assert_eq!(
        SSHFP::decode(owner(), 300, Class::IN, &[3, 9]),
        Err(DecodeError::InvalidEnumValue(3))
    );
}

#[test]
fn sshfp_decode_unknown_type() {
    assert_eq!(
        SSHFP::decode(owner(), 300, Class::IN, &[0x01, 0x02, 0xAA]),
        Err(DecodeError::InvalidEnumValue(2))
    );
}

#[test]
fn sshfp_decode_truncated() {
    assert_eq!(
        SSHFP::decode(owner(), 300, Class::IN, &[]),
        Err(DecodeError::BufferTruncated)
    );
    assert_eq!(
        SSHFP::decode(owner(), 300, Class::IN, &[0x01]),
        Err(DecodeError::BufferTruncated)
    );
    // a code that names nothing does not count before both codes are there
    assert_eq!(
        SSHFP::decode(owner(), 300, Class::IN, &[0xFF]),
        Err(DecodeError::BufferTruncated)
    );
}

#[test]
fn sshfp_decode_takes_the_whole_tail() {
    let decoded = SSHFP::decode(owner(), 1, Class::CH, &[0, 0]).unwrap();
    assert_eq!(decoded.algorithm, SSHFPAlgorithm::Reserved);
    assert_eq!(decoded.type_, SSHFPType::Reserved);
    assert!(decoded.fp.is_empty());
    let mut rdata = vec![2, 1];
    rdata.extend((0..=255u8).cycle().take(1000));
    let decoded = SSHFP::decode(owner(), 1, Class::CH, &rdata).unwrap();
    assert_eq!(decoded.fp.len(), 1000);
    assert_eq!(decoded.fp[..], rdata[2..]);
}

#[test]
fn sshfp_encode() {
    assert_eq!(record(&[0xAA, 0xBB, 0xCC]).encode(), vec![2, 1, 0xAA, 0xBB, 0xCC]);
    assert_eq!(record(&[]).encode(), vec![2, 1]);
}

#[test]
fn sshfp_round_trip() {
    for algorithm in [
        SSHFPAlgorithm::Reserved,
        SSHFPAlgorithm::RSA,
        SSHFPAlgorithm::DSS,
    ] {
        for type_ in [SSHFPType::Reserved, SSHFPType::Sha1] {
            for fp in [vec![], vec![0u8], vec![1, 2, 3], vec![0xFF; 20]] {
                let given = SSHFP {
                    domain_name: owner(),
                    ttl: 86400,
                    class: Class::HS,
                    algorithm,
                    type_,
                    fp,
                };
                let decoded = SSHFP::decode(
                    given.domain_name.clone(),
                    given.ttl,
                    given.class,
                    &given.encode(),
                );
                assert_eq!(decoded, Ok(given));
            }
        }
    }
}

#[test]
fn rr_dispatch_by_type_code() {
    let decoded = RR::decode(owner(), 300, Class::IN, 44, &[1, 1, 0xAA]).unwrap();
    assert_eq!(decoded.to_type(), Type::SSHFP);
    assert_eq!(decoded.domain_name(), &owner());
    assert_eq!(decoded.ttl(), 300);
    assert_eq!(decoded.class(), Class::IN);
    let RR::SSHFP(inner) = &decoded;
    assert_eq!(inner.algorithm, SSHFPAlgorithm::RSA);
    assert_eq!(inner.fp, vec![0xAA]);
    assert_eq!(decoded.encode(), vec![1, 1, 0xAA]);
}

#[test]
fn rr_unknown_type_code() {
    assert_eq!(
        RR::decode(owner(), 300, Class::IN, 1, &[1, 1, 0xAA]),
        Err(DecodeError::UnknownRecordType(1))
    );
    assert_eq!(
        RR::decode(owner(), 300, Class::IN, 65535, &[]),
        Err(DecodeError::UnknownRecordType(65535))
    );
}

#[test]
fn rr_passes_on_the_record_error() {
    assert_eq!(
        RR::decode(owner(), 300, Class::IN, 44, &[0xFF, 1]),
        Err(DecodeError::InvalidEnumValue(255))
    );
    assert_eq!(
        RR::decode(owner(), 300, Class::IN, 44, &[1]),
        Err(DecodeError::BufferTruncated)
    );
}

#[test]
fn rr_round_trip() {
    let given = RR::SSHFP(record(&[9, 8, 7]));
    let decoded = RR::decode(
        given.domain_name().clone(),
        given.ttl(),
        given.class(),
        given.to_type().to_wire_code(),
        &given.encode(),
    );
    assert_eq!(decoded, Ok(given.clone()));
}

#[test]
fn records_compare_names_without_case() {
    let mut other = record(&[1]);
    other.domain_name = DomainName::parse("HOST.Example.ORG").unwrap();
    assert_eq!(record(&[1]), other);
    assert_ne!(record(&[1]), record(&[2]));
}

#[test]
fn values_have_names() {
    assert_eq!(SSHFPAlgorithm::Reserved.name(), "Reserved");
    assert_eq!(SSHFPAlgorithm::RSA.name(), "RSA");
    assert_eq!(SSHFPAlgorithm::DSS.name(), "DSS");
    assert_eq!(SSHFPType::Reserved.name(), "Reserved");
    assert_eq!(SSHFPType::Sha1.name(), "SHA-1");
    assert_eq!(Class::IN.name(), "IN");
    assert_eq!(Class::CS.name(), "CS");
    assert_eq!(Class::CH.name(), "CH");
    assert_eq!(Class::HS.name(), "HS");
    assert_eq!(Type::SSHFP.name(), "SSHFP");
}

#[test]
fn clone_keeps_the_record() {
    let given = record(&[1, 2, 3]);
    let copy = given.clone();
    assert_eq!(copy, given);
    assert_eq!(copy.fp, given.fp);
    assert_eq!(copy.domain_name.as_bytes(), given.domain_name.as_bytes());
    let wrapped = RR::SSHFP(given);
    assert_eq!(wrapped.clone(), wrapped);
}
