//! The SSHFP record: the fingerprint of an SSH host key, with the key's
//! algorithm and the fingerprint's type.

use super::{Class, Type};
use crate::domain_name::DomainName;
use crate::error::DecodeError;
use vstd::prelude::*;

verus! {

/// The algorithm of the key that is fingerprinted.
#[derive(Debug, Clone, Copy, PartialEq, Eq, Hash, Structural)]
pub enum SSHFPAlgorithm {
    Reserved,
    RSA,
    DSS,
}

impl SSHFPAlgorithm {
    /// The algorithm's code on the wire.
    pub open spec fn wire_code(self) -> u8 {
        match self {
            SSHFPAlgorithm::Reserved => 0,
            SSHFPAlgorithm::RSA => 1,
            SSHFPAlgorithm::DSS => 2,
        }
    }

    /// The algorithm that a code names, if it names one.
    pub open spec fn named_by(code: u8) -> Option<SSHFPAlgorithm> {
        if code == 0 {
            Some(SSHFPAlgorithm::Reserved)
        } else if code == 1 {
            Some(SSHFPAlgorithm::RSA)
        } else if code == 2 {
            Some(SSHFPAlgorithm::DSS)
        } else {
            None
        }
    }

    /// The algorithm's code on the wire.
    pub fn to_wire_code(&self) -> (code: u8)
        ensures
            code == self.wire_code(),
    {
        match self {
            SSHFPAlgorithm::Reserved => 0,
            SSHFPAlgorithm::RSA => 1,
            SSHFPAlgorithm::DSS => 2,
        }
    }

    /// The algorithm that `code` names. A code that names none is an error,
    /// and never taken for some algorithm.
    pub fn from_wire_code(code: u8) -> (res: Result<SSHFPAlgorithm, DecodeError>)
        ensures
            res == match SSHFPAlgorithm::named_by(code) {
                Some(algorithm) => Ok::<SSHFPAlgorithm, DecodeError>(algorithm),
                None => Err(DecodeError::InvalidEnumValue(code as u16)),
            },
    {
        match code {
            0 => Ok(SSHFPAlgorithm::Reserved),
            1 => Ok(SSHFPAlgorithm::RSA),
            2 => Ok(SSHFPAlgorithm::DSS),
            _ => Err(DecodeError::InvalidEnumValue(code as u16)),
        }
    }

    /// The algorithm's name in text.
    pub open spec fn name_text(self) -> Seq<char> {
        match self {
            SSHFPAlgorithm::Reserved => "Reserved"@,
            SSHFPAlgorithm::RSA => "RSA"@,
            SSHFPAlgorithm::DSS => "DSS"@,
        }
    }

    /// The algorithm's name in text.
    pub fn name(&self) -> (name: &'static str)
        ensures
            name@ == self.name_text(),
    {
        match self {
            SSHFPAlgorithm::Reserved => "Reserved",
            SSHFPAlgorithm::RSA => "RSA",
            SSHFPAlgorithm::DSS => "DSS",
        }
    }

    /// Each algorithm is the one that its code names, and a code names an
    /// algorithm only if it is that algorithm's code.
    pub proof fn lemma_wire_code_names(algorithm: SSHFPAlgorithm, code: u8)
        ensures
            SSHFPAlgorithm::named_by(algorithm.wire_code()) == Some(algorithm),
            SSHFPAlgorithm::named_by(code) == Some(algorithm) <==> algorithm.wire_code() == code,
    {
    }
}

/// How the fingerprint was computed.
#[derive(Debug, Clone, Copy, PartialEq, Eq, Hash, Structural)]
pub enum SSHFPType {
    Reserved,
    Sha1,
}

impl SSHFPType {
    /// The fingerprint type's code on the wire.
    pub open spec fn wire_code(self) -> u8 {
        match self {
            SSHFPType::Reserved => 0,
            SSHFPType::Sha1 => 1,
        }
    }

    /// The fingerprint type that a code names, if it names one.
    pub open spec fn named_by(code: u8) -> Option<SSHFPType> {
        if code == 0 {
            Some(SSHFPType::Reserved)
        } else if code == 1 {
            Some(SSHFPType::Sha1)
        } else {
            None
        }
    }

    /// The fingerprint type's code on the wire.
    pub fn to_wire_code(&self) -> (code: u8)
        ensures
            code == self.wire_code(),
    {
        match self {
            SSHFPType::Reserved => 0,
            SSHFPType::Sha1 => 1,
        }
    }

    /// The fingerprint type that `code` names. A code that names none is an
    /// error, and never taken for some type.
    pub fn from_wire_code(code: u8) -> (res: Result<SSHFPType, DecodeError>)
        ensures
            res == match SSHFPType::named_by(code) {
                Some(type_) => Ok::<SSHFPType, DecodeError>(type_),
                None => Err(DecodeError::InvalidEnumValue(code as u16)),
            },
    {
        match code {
            0 => Ok(SSHFPType::Reserved),
            1 => Ok(SSHFPType::Sha1),
            _ => Err(DecodeError::InvalidEnumValue(code as u16)),
        }
    }

    /// The fingerprint type's name in text.
    pub open spec fn name_text(self) -> Seq<char> {
        match self {
            SSHFPType::Reserved => "Reserved"@,
            SSHFPType::Sha1 => "SHA-1"@,
        }
    }

    /// The fingerprint type's name in text.
    pub fn name(&self) -> (name: &'static str)
        ensures
            name@ == self.name_text(),
    {
        match self {
            SSHFPType::Reserved => "Reserved",
            SSHFPType::Sha1 => "SHA-1",
        }
    }

    /// Each fingerprint type is the one that its code names, and a code
    /// names a type only if it is that type's code.
    pub proof fn lemma_wire_code_names(type_: SSHFPType, code: u8)
        ensures
            SSHFPType::named_by(type_.wire_code()) == Some(type_),
            SSHFPType::named_by(code) == Some(type_) <==> type_.wire_code() == code,
    {
    }
}

/// An SSHFP record.
#[derive(Debug, PartialEq, Eq, Hash)]
pub struct SSHFP {
    pub domain_name: DomainName,
    pub ttl: u32,
    pub class: Class,
    pub algorithm: SSHFPAlgorithm,
    pub type_: SSHFPType,
    pub fp: Vec<u8>,
}

/// What an SSHFP record holds: the text of its owner name, and its fields.
pub struct SSHFPView {
    pub domain_name: Seq<u8>,
    pub ttl: u32,
    pub class: Class,
    pub algorithm: SSHFPAlgorithm,
    pub type_: SSHFPType,
    pub fp: Seq<u8>,
}

impl View for SSHFP {
    type V = SSHFPView;

    open spec fn view(&self) -> SSHFPView {
        SSHFPView {
            domain_name: self.domain_name@,
            ttl: self.ttl,
            class: self.class,
            algorithm: self.algorithm,
            type_: self.type_,
            fp: self.fp@,
        }
    }
}

impl Clone for SSHFP {
    fn clone(&self) -> (record: Self)
        ensures
            record@ == self@,
    {
        SSHFP {
            domain_name: self.domain_name.clone(),
            ttl: self.ttl,
            class: self.class,
            algorithm: self.algorithm,
            type_: self.type_,
            fp: self.fp.clone(),
        }
    }
}

/// The octets that stand before the fingerprint: the two codes.
pub const SSHFP_FIXED_LENGTH: usize = 2;

/// The RDATA of an SSHFP record: the algorithm's code, the fingerprint
/// type's code, then the fingerprint.
pub open spec fn rdata_of(record: SSHFPView) -> Seq<u8> {
    seq![record.algorithm.wire_code(), record.type_.wire_code()] + record.fp
}

/// The SSHFP record that `rdata` holds for the given owner name, TTL and
/// class. The two codes must be there and each must name a value; all that
/// follows them is the fingerprint.
pub open spec fn record_of(domain_name: Seq<u8>, ttl: u32, class: Class, rdata: Seq<u8>) -> Result<
    SSHFPView,
    DecodeError,
> {
    if rdata.len() < SSHFP_FIXED_LENGTH {
        Err(DecodeError::BufferTruncated)
    } else {
        match SSHFPAlgorithm::named_by(rdata[0]) {
            None => Err(DecodeError::InvalidEnumValue(rdata[0] as u16)),
            Some(algorithm) => match SSHFPType::named_by(rdata[1]) {
                None => Err(DecodeError::InvalidEnumValue(rdata[1] as u16)),
                Some(type_) => Ok(
                    SSHFPView {
                        domain_name,
                        ttl,
                        class,
                        algorithm,
                        type_,
                        fp: rdata.skip(SSHFP_FIXED_LENGTH as int),
                    },
                ),
            },
        }
    }
}

impl SSHFP {
    /// Decodes the RDATA of an SSHFP record whose owner name, TTL and class
    /// have been read already.
    pub fn decode(domain_name: DomainName, ttl: u32, class: Class, rdata: &[u8]) -> (res: Result<
        SSHFP,
        DecodeError,
    >)
        ensures
            match res {
                Ok(record) => record_of(domain_name@, ttl, class, rdata@) == Ok::<
                    SSHFPView,
                    DecodeError,
                >(record@),
                Err(e) => record_of(domain_name@, ttl, class, rdata@) == Err::<
                    SSHFPView,
                    DecodeError,
                >(e),
            },
    {
        if rdata.len() < SSHFP_FIXED_LENGTH {
            return Err(DecodeError::BufferTruncated);
        }
        let algorithm = match SSHFPAlgorithm::from_wire_code(rdata[0]) {
            Ok(algorithm) => algorithm,
            Err(e) => {
                return Err(e);
            },
        };
        let type_ = match SSHFPType::from_wire_code(rdata[1]) {
            Ok(type_) => type_,
            Err(e) => {
                return Err(e);
            },
        };
        let mut fp: Vec<u8> = Vec::new();
        fp.extend_from_slice(vstd::slice::slice_subrange(rdata, SSHFP_FIXED_LENGTH, rdata.len()));
        assert(fp@ =~= rdata@.skip(SSHFP_FIXED_LENGTH as int));
        Ok(SSHFP { domain_name, ttl, class, algorithm, type_, fp })
    }

    /// The record's RDATA on the wire.
    pub fn encode(&self) -> (rdata: Vec<u8>)
        ensures
            rdata@ == rdata_of(self@),
    {
        let mut rdata: Vec<u8> = Vec::new();
        rdata.push(self.algorithm.to_wire_code());
        rdata.push(self.type_.to_wire_code());
        rdata.extend_from_slice(self.fp.as_slice());
        assert(rdata@ =~= rdata_of(self@));
        rdata
    }

    /// The type of the record.
    pub fn to_type(&self) -> (type_: Type)
        ensures
            type_ == Type::SSHFP,
    {
        Type::SSHFP
    }
}

/// Decoding the RDATA that a record encodes to, with the record's own owner
/// name, TTL and class, gives the record back.
pub proof fn lemma_record_round_trip(record: SSHFPView)
    ensures
        record_of(record.domain_name, record.ttl, record.class, rdata_of(record)) == Ok::<
            SSHFPView,
            DecodeError,
        >(record),
{
    let rdata = rdata_of(record);
    assert(rdata[0] == record.algorithm.wire_code());
    assert(rdata[1] == record.type_.wire_code());
    assert(rdata.skip(SSHFP_FIXED_LENGTH as int) =~= record.fp);
}

} // verus!
