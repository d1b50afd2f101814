//! Resource records: a closed set of record types, each with its own RDATA
//! layout, behind one dispatch on the 16-bit type code.

pub mod rfc_3658;

use crate::domain_name::DomainName;
use crate::error::DecodeError;
use rfc_3658::{record_of, rdata_of, SSHFPView, SSHFP};
use vstd::prelude::*;

verus! {

/// The class of a resource record.
#[derive(Debug, Clone, Copy, PartialEq, Eq, Hash, Structural)]
pub enum Class {
    /// The Internet.
    IN,
    /// CSNET.
    CS,
    /// CHAOS.
    CH,
    /// Hesiod.
    HS,
}

impl Class {
    /// The class's code on the wire.
    pub open spec fn wire_code(self) -> u16 {
        match self {
            Class::IN => 1,
            Class::CS => 2,
            Class::CH => 3,
            Class::HS => 4,
        }
    }

    /// The class that a code names, if it names one.
    pub open spec fn named_by(code: u16) -> Option<Class> {
        if code == 1 {
            Some(Class::IN)
        } else if code == 2 {
            Some(Class::CS)
        } else if code == 3 {
            Some(Class::CH)
        } else if code == 4 {
            Some(Class::HS)
        } else {
            None
        }
    }

    /// The class's code on the wire.
    pub fn to_wire_code(&self) -> (code: u16)
        ensures
            code == self.wire_code(),
    {
        match self {
            Class::IN => 1,
            Class::CS => 2,
            Class::CH => 3,
            Class::HS => 4,
        }
    }

    /// The class that `code` names. A code that names none is an error, and
    /// never taken for some class.
    pub fn from_wire_code(code: u16) -> (res: Result<Class, DecodeError>)
        ensures
            res == match Class::named_by(code) {
                Some(class) => Ok::<Class, DecodeError>(class),
                None => Err(DecodeError::InvalidEnumValue(code)),
            },
    {
        match code {
            1 => Ok(Class::IN),
            2 => Ok(Class::CS),
            3 => Ok(Class::CH),
            4 => Ok(Class::HS),
            _ => Err(DecodeError::InvalidEnumValue(code)),
        }
    }

    /// The class's name in text.
    pub open spec fn name_text(self) -> Seq<char> {
        match self {
            Class::IN => "IN"@,
            Class::CS => "CS"@,
            Class::CH => "CH"@,
            Class::HS => "HS"@,
        }
    }

    /// The class's name in text.
    pub fn name(&self) -> (name: &'static str)
        ensures
            name@ == self.name_text(),
    {
        match self {
            Class::IN => "IN",
            Class::CS => "CS",
            Class::CH => "CH",
            Class::HS => "HS",
        }
    }

    /// Each class is the one that its code names, and a code names a class
    /// only if it is that class's code.
    pub proof fn lemma_wire_code_names(class: Class, code: u16)
        ensures
            Class::named_by(class.wire_code()) == Some(class),
            Class::named_by(code) == Some(class) <==> class.wire_code() == code,
    {
    }
}

/// The type of a resource record, for each type that has a codec here.
#[derive(Debug, Clone, Copy, PartialEq, Eq, Hash, Structural)]
pub enum Type {
    /// A fingerprint of an SSH host key.
    SSHFP,
}

impl Type {
    /// The type's code on the wire.
    pub open spec fn wire_code(self) -> u16 {
        match self {
            Type::SSHFP => 44,
        }
    }

    /// The type that a code names, if it names one.
    pub open spec fn named_by(code: u16) -> Option<Type> {
        if code == 44 {
            Some(Type::SSHFP)
        } else {
            None
        }
    }

    /// The type's code on the wire.
    pub fn to_wire_code(&self) -> (code: u16)
        ensures
            code == self.wire_code(),
    {
        match self {
            Type::SSHFP => 44,
        }
    }

    /// The type that `code` names. A code that names none is an error, and
    /// never taken for some type.
    pub fn from_wire_code(code: u16) -> (res: Result<Type, DecodeError>)
        ensures
            res == match Type::named_by(code) {
                Some(type_) => Ok::<Type, DecodeError>(type_),
                None => Err(DecodeError::InvalidEnumValue(code)),
            },
    {
        match code {
            44 => Ok(Type::SSHFP),
            _ => Err(DecodeError::InvalidEnumValue(code)),
        }
    }

    /// The type's name in text.
    pub open spec fn name_text(self) -> Seq<char> {
        match self {
            Type::SSHFP => "SSHFP"@,
        }
    }

    /// The type's name in text.
    pub fn name(&self) -> (name: &'static str)
        ensures
            name@ == self.name_text(),
    {
        match self {
            Type::SSHFP => "SSHFP",
        }
    }

    /// Each type is the one that its code names, and a code names a type
    /// only if it is that type's code.
    pub proof fn lemma_wire_code_names(type_: Type, code: u16)
        ensures
            Type::named_by(type_.wire_code()) == Some(type_),
            Type::named_by(code) == Some(type_) <==> type_.wire_code() == code,
    {
    }
}

/// A resource record of one of the types that have a codec here.
#[derive(Debug, PartialEq, Eq, Hash)]
pub enum RR {
    /// A fingerprint of an SSH host key.
    SSHFP(SSHFP),
}

/// What a resource record holds.
pub enum RRView {
    /// A fingerprint of an SSH host key.
    SSHFP(SSHFPView),
}

impl View for RR {
    type V = RRView;

    open spec fn view(&self) -> RRView {
        match self {
            RR::SSHFP(record) => RRView::SSHFP(record@),
        }
    }
}

impl Clone for RR {
    fn clone(&self) -> (record: Self)
        ensures
            record@ == self@,
    {
        match self {
            RR::SSHFP(record) => RR::SSHFP(record.clone()),
        }
    }
}

impl RRView {
    /// The type of the record.
    pub open spec fn record_type(self) -> Type {
        match self {
            RRView::SSHFP(_) => Type::SSHFP,
        }
    }

    /// The text of the record's owner name.
    pub open spec fn domain_name(self) -> Seq<u8> {
        match self {
            RRView::SSHFP(record) => record.domain_name,
        }
    }

    /// How long the record may be cached, in seconds.
    pub open spec fn ttl(self) -> u32 {
        match self {
            RRView::SSHFP(record) => record.ttl,
        }
    }

    /// The record's class.
    pub open spec fn class(self) -> Class {
        match self {
            RRView::SSHFP(record) => record.class,
        }
    }

    /// The record's RDATA on the wire.
    pub open spec fn rdata(self) -> Seq<u8> {
        match self {
            RRView::SSHFP(record) => rdata_of(record),
        }
    }
}

/// The record of the type that `type_code` names, read from `rdata`; a code
/// under which no type is registered is an error of its own.
pub open spec fn rr_of(
    domain_name: Seq<u8>,
    ttl: u32,
    class: Class,
    type_code: u16,
    rdata: Seq<u8>,
) -> Result<RRView, DecodeError> {
    match Type::named_by(type_code) {
        None => Err(DecodeError::UnknownRecordType(type_code)),
        Some(Type::SSHFP) => match record_of(domain_name, ttl, class, rdata) {
            Ok(record) => Ok(RRView::SSHFP(record)),
            Err(e) => Err(e),
        },
    }
}

impl RR {
    /// Decodes the RDATA of a record whose owner name, TTL, class and type
    /// code have been read already, by the codec registered for the type
    /// code.
    pub fn decode(
        domain_name: DomainName,
        ttl: u32,
        class: Class,
        type_code: u16,
        rdata: &[u8],
    ) -> (res: Result<RR, DecodeError>)
        ensures
            match res {
                Ok(record) => rr_of(domain_name@, ttl, class, type_code, rdata@) == Ok::<
                    RRView,
                    DecodeError,
                >(record@),
                Err(e) => rr_of(domain_name@, ttl, class, type_code, rdata@) == Err::<
                    RRView,
                    DecodeError,
                >(e),
            },
    {
        match Type::from_wire_code(type_code) {
            Err(_) => Err(DecodeError::UnknownRecordType(type_code)),
            Ok(Type::SSHFP) => match SSHFP::decode(domain_name, ttl, class, rdata) {
                Ok(record) => Ok(RR::SSHFP(record)),
                Err(e) => Err(e),
            },
        }
    }

    /// The record's RDATA on the wire.
    pub fn encode(&self) -> (rdata: Vec<u8>)
        ensures
            rdata@ == self@.rdata(),
    {
        match self {
            RR::SSHFP(record) => record.encode(),
        }
    }

    /// The type of the record.
    pub fn to_type(&self) -> (type_: Type)
        ensures
            type_ == self@.record_type(),
    {
        match self {
            RR::SSHFP(_) => Type::SSHFP,
        }
    }

    /// The record's owner name.
    pub fn domain_name(&self) -> (name: &DomainName)
        ensures
            name@ == self@.domain_name(),
    {
        match self {
            RR::SSHFP(record) => &record.domain_name,
        }
    }

    /// How long the record may be cached, in seconds.
    pub fn ttl(&self) -> (ttl: u32)
        ensures
            ttl == self@.ttl(),
    {
        match self {
            RR::SSHFP(record) => record.ttl,
        }
    }

    /// The record's class.
    pub fn class(&self) -> (class: Class)
        ensures
            class == self@.class(),
    {
        match self {
            RR::SSHFP(record) => record.class,
        }
    }
}

/// Decoding the RDATA that a record encodes to, under the record's own type
/// code, owner name, TTL and class, gives the record back.
pub proof fn lemma_rr_round_trip(record: RRView)
    ensures
        rr_of(
            record.domain_name(),
            record.ttl(),
            record.class(),
            record.record_type().wire_code(),
            record.rdata(),
        ) == Ok::<RRView, DecodeError>(record),
{
    match record {
        RRView::SSHFP(inner) => {
            rfc_3658::lemma_record_round_trip(inner);
        },
    }
}

} // verus!
